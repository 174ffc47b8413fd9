//! The ray engine: a ray is marched from boundary to boundary through the grid
//! until it enters a tile that stops it, and a camera casts one ray for each
//! column of its view.

use vstd::prelude::*;
use crate::grid::Grid;
use crate::math::{dist_sq, floor_sqrt, Angle, Vec2, Vec2f, COORD_LIMIT, UNIT};
use crate::stepping::{
    crossing,
    entered_cell,
    entered_tile,
    next_boundary,
    nudge,
    nudged_point,
};

verus! {

/// Largest magnitude of a coordinate of a ray's origin: the extent of the
/// largest grid.
pub const WORLD_LIMIT: i64 = 70368744177664;

/// The smallest fixed-point number above a half turn (pi radians).
pub const HALF_TURN: i64 = 205888;

/// What can go wrong with a cast.
#[derive(Debug, Copy, Clone, PartialEq, Eq)]
pub enum RayError {
    /// The camera cannot produce a view: fewer than two columns, a field of
    /// view outside `(0, pi)`, or a number of ray directions other than the
    /// number of columns.
    InvalidCamera,
    /// The ray has no direction.
    DegenerateGeometry,
    /// The ray took as many steps as it is allowed without being stopped.
    StepCapExceeded,
}

/// What one ray found.
#[derive(Debug, Copy, Clone)]
pub struct RayHit {
    /// The direction of the ray.
    pub ray_angle: Angle,
    /// Distance from the origin to the point where the ray ended, rounded down.
    pub length: i64,
    /// Column and row of the tile that the ray entered last.
    pub cell: Vec2<i64>,
    /// Number of boundaries that the ray went to.
    pub steps: u32,
    /// `None` where the ray was stopped by a tile; else why its length is not
    /// to be relied on.
    pub fault: Option<RayError>,
}

/// The course of a ray through a grid.
pub struct Trace {
    /// Where the ray ended.
    pub end: Vec2<int>,
    /// Number of boundaries that it went to.
    pub steps: nat,
    /// Whether the last tile that it entered stopped it.
    pub blocked: bool,
}

/// Number of steps that a ray is allowed in `grid`: columns plus rows.
pub open spec fn step_cap(grid: &Grid) -> nat {
    (grid.spec_width() + grid.spec_height()) as nat
}

/// The course of the ray of direction `dir` from `pos` on, with `fuel` steps
/// allowed. In each step the position is taken off the tile boundaries and
/// moved to the next boundary that the ray meets; the ray ends there if the
/// tile that it enters stops it.
pub open spec fn march(grid: &Grid, dir: Vec2<int>, pos: Vec2<int>, fuel: nat) -> Trace
    decreases fuel,
{
    if fuel == 0 {
        Trace { end: pos, steps: 0, blocked: false }
    } else {
        let next = crossing(nudged_point(pos, dir), dir);
        let cell = entered_tile(next, dir);
        if grid.blocking(cell.x, cell.y) {
            Trace { end: next, steps: 1, blocked: true }
        } else {
            let rest = march(grid, dir, next, (fuel - 1) as nat);
            Trace { end: rest.end, steps: rest.steps + 1, blocked: rest.blocked }
        }
    }
}

/// `trace`, with `steps` more steps counted.
pub open spec fn after(steps: nat, trace: Trace) -> Trace {
    Trace { end: trace.end, steps: trace.steps + steps, blocked: trace.blocked }
}

/// The course of the ray cast from `origin` along `dir`: a ray without
/// direction stays at its origin.
pub open spec fn traced(grid: &Grid, origin: Vec2<int>, dir: Vec2<int>) -> Trace {
    if dir.x == 0 && dir.y == 0 {
        Trace { end: origin, steps: 0, blocked: false }
    } else {
        march(grid, dir, origin, step_cap(grid))
    }
}

/// The fault that a trace along `dir` is reported with.
pub open spec fn fault_of(dir: Vec2<int>, trace: Trace) -> Option<RayError> {
    if dir.x == 0 && dir.y == 0 {
        Some(RayError::DegenerateGeometry)
    } else if trace.blocked {
        None
    } else {
        Some(RayError::StepCapExceeded)
    }
}

impl RayHit {
    /// This is what the ray cast in `grid` from `origin` along `angle` finds.
    pub open spec fn describes(&self, grid: &Grid, origin: Vec2<int>, angle: Angle) -> bool {
        let trace = traced(grid, origin, angle.0@);
        &&& self.ray_angle == angle
        &&& self.length == floor_sqrt(dist_sq(origin, trace.end))
        &&& self.cell@ == entered_tile(trace.end, angle.0@)
        &&& self.steps == trace.steps
        &&& self.fault == fault_of(angle.0@, trace)
    }
}

/// The point `origin` lies strictly inside the rectangle that `grid` covers.
pub open spec fn strictly_inside(grid: &Grid, origin: Vec2<int>) -> bool {
    0 < origin.x < grid.spec_width() * UNIT && 0 < origin.y < grid.spec_height() * UNIT
}

/// Casts one ray in `grid` from `origin` along `angle`.
///
/// The ray ends where it first enters a tile that stops it, and that tile is
/// reported. From inside a grid whose rim is all wall every ray with a
/// direction ends so, before it runs out of steps.
pub fn cast_ray(origin: &Vec2f, angle: &Angle, grid: &Grid) -> (hit: RayHit)
    requires
        grid.wf(),
        origin.within(WORLD_LIMIT as int),
    ensures
        hit.describes(grid, origin@, *angle),
        0 <= hit.length <= COORD_LIMIT,
        hit.steps <= step_cap(grid),
        hit.fault != Some(RayError::InvalidCamera),
        hit.fault is None ==> grid.blocking(hit.cell.x as int, hit.cell.y as int),
        grid.ringed() && strictly_inside(grid, origin@) && (angle.0.x != 0 || angle.0.y != 0)
            ==> hit.fault is None,
{
    let ghost dir = angle.0@;
    if angle.0.x == 0 && angle.0.y == 0 {
        return RayHit {
            ray_angle: *angle,
            length: origin.distance(origin),
            cell: entered_cell(origin, angle),
            steps: 0,
            fault: Some(RayError::DegenerateGeometry),
        };
    }
    let cap: u32 = (grid.width() + grid.height()) as u32;
    let mut pos: Vec2f = *origin;
    let mut steps: u32 = 0;
    let mut blocked: bool = false;
    while steps < cap && !blocked
        invariant
            grid.wf(),
            dir == angle.0@,
            cap == step_cap(grid),
            steps <= cap,
            origin.within(WORLD_LIMIT as int),
            -(steps * 65537) <= pos.x - origin.x <= steps * 65537,
            -(steps * 65537) <= pos.y - origin.y <= steps * 65537,
            !blocked ==> march(grid, dir, origin@, cap as nat) == after(
                steps as nat,
                march(grid, dir, pos@, (cap - steps) as nat),
            ),
            blocked ==> march(grid, dir, origin@, cap as nat) == (Trace {
                end: pos@,
                steps: steps as nat,
                blocked: true,
            }),
        decreases cap - steps + (if blocked { 0int } else { 1int }),
    {
        let start: Vec2f = nudge(&pos, angle);
        let next: Vec2f = next_boundary(&start, angle);
        let cell: Vec2<i64> = entered_cell(&next, angle);
        steps = steps + 1;
        pos = next;
        if grid.is_blocking(cell.x, cell.y) {
            blocked = true;
        }
    }
    proof {
        if blocked {
            crate::theorems::lemma_stopped_by_a_blocking_tile(grid, dir, origin@, cap as nat);
        }
        if grid.ringed() && strictly_inside(grid, origin@) {
            crate::theorems::lemma_ringed_grid_stops_every_ray(grid, origin@, dir);
        }
    }
    RayHit {
        ray_angle: *angle,
        length: origin.distance(&pos),
        cell: entered_cell(&pos, angle),
        steps: steps,
        fault: if blocked {
            None
        } else {
            Some(RayError::StepCapExceeded)
        },
    }
}

/// Where something stands in the world.
#[derive(Debug, Copy, Clone)]
pub struct Transform(pub Vec2f);

impl Transform {
    pub fn new(x: i64, y: i64) -> (t: Transform)
        ensures
            t.0.x == x,
            t.0.y == y,
    {
        Transform(Vec2 { x: x, y: y })
    }
}

/// Number of columns of the default view.
pub const DEFAULT_VIEW_WIDTH: u32 = 640;

/// The eye: where it stands, where it looks, and how wide it sees. Angles are
/// in radians, as fixed-point numbers (`UNIT` is one radian).
#[derive(Debug, Copy, Clone)]
pub struct Camera {
    pub transform: Transform,
    /// The angle at which the camera faces.
    pub rotation: i64,
    /// The span of the horizontal field of view.
    pub horizontal_view_angle: i64,
    /// The span of the vertical field of view.
    pub vertical_view_angle: i64,
    /// Number of columns of the view, and so of rays to cast.
    pub view_width: u32,
}

impl Default for Camera {
    /// A camera near the corner of the tile (1, 1) that faces along the x axis
    /// and sees an eighth of a turn.
    fn default() -> (camera: Camera)
        ensures
            camera.transform.0.x == 72090,
            camera.transform.0.y == 72090,
            camera.rotation == 0,
            camera.horizontal_view_angle == 51472,
            camera.vertical_view_angle == 51472,
            camera.view_width == DEFAULT_VIEW_WIDTH,
            camera.valid(),
    {
        Camera {
            transform: Transform::new(72090, 72090),
            rotation: 0,
            horizontal_view_angle: 51472,
            vertical_view_angle: 51472,
            view_width: DEFAULT_VIEW_WIDTH,
        }
    }
}

/// The angle of the ray of column `i`, of `width` columns that span `span`
/// evenly about `facing`, the ends included: column 0 has the least angle.
pub open spec fn ray_angle_at(facing: int, span: int, width: int, i: int) -> int {
    facing - span / 2 + (i * span) / (width - 1)
}

impl Camera {
    /// The camera can produce a view: it has at least two columns, and its
    /// horizontal field of view lies strictly between nothing and a half turn.
    pub open spec fn valid(&self) -> bool {
        self.view_width >= 2 && 0 < self.horizontal_view_angle < HALF_TURN
    }

    /// Whether the camera can produce a view.
    pub fn is_valid(&self) -> (b: bool)
        ensures
            b == self.valid(),
    {
        self.view_width >= 2 && 0 < self.horizontal_view_angle && self.horizontal_view_angle
            < HALF_TURN
    }

    /// The angles of the rays of the view, one for each column.
    ///
    /// They span the field of view evenly, from half of it below the facing
    /// angle up to the whole of it above that: the first and the last bracket
    /// the facing angle and lie exactly the field of view apart, and two
    /// columns equally far from the two ends lie at opposite angles to the
    /// facing angle, to within one unit of angle.
    pub fn rays_angles(&self) -> (out: Result<Vec<i64>, RayError>)
        requires
            -COORD_LIMIT <= self.rotation <= COORD_LIMIT,
        ensures
            out is Err <==> !self.valid(),
            out is Err ==> out == Err::<Vec<i64>, RayError>(RayError::InvalidCamera),
            out is Ok ==> {
                let angles = out->Ok_0@;
                &&& angles.len() == self.view_width
                &&& forall|i: int|
                    0 <= i < angles.len() ==> #[trigger] angles[i] == ray_angle_at(
                        self.rotation as int,
                        self.horizontal_view_angle as int,
                        self.view_width as int,
                        i,
                    )
                &&& angles[0] <= self.rotation <= angles[self.view_width - 1]
                &&& angles[self.view_width - 1] - angles[0] == self.horizontal_view_angle
                &&& forall|i: int|
                    0 <= i < angles.len() ==> -1 <= (#[trigger] angles[i] - self.rotation) + (
                    angles[self.view_width - 1 - i] - self.rotation) <= 1
            },
    {
        if !self.is_valid() {
            return Err(RayError::InvalidCamera);
        }
        let span: i64 = self.horizontal_view_angle;
        let width: u32 = self.view_width;
        let low: i64 = self.rotation - span / 2;
        let divisions: i64 = (width - 1) as i64;
        let mut angles: Vec<i64> = Vec::new();
        let mut i: u32 = 0;
        while i < width
            invariant
                self.valid(),
                -COORD_LIMIT <= self.rotation <= COORD_LIMIT,
                span == self.horizontal_view_angle,
                width == self.view_width,
                low == self.rotation - span / 2,
                divisions == width - 1,
                i <= width,
                angles@.len() == i,
                forall|k: int|
                    0 <= k < i ==> #[trigger] angles@[k] == ray_angle_at(
                        self.rotation as int,
                        span as int,
                        width as int,
                        k,
                    ),
            decreases width - i,
        {
            proof {
                lemma_share_of_span(i as int, span as int, divisions as int);
                assert(divisions * span <= 4294967295 * 205888) by (nonlinear_arith)
                    requires
                        0 <= divisions <= 4294967295,
                        0 <= span <= 205888,
                ;
            }
            let share: i64 = (i as i64 * span) / divisions;
            angles.push(low + share);
            i = i + 1;
        }
        proof {
            lemma_share_of_span(0, span as int, divisions as int);
            lemma_share_of_span(divisions as int, span as int, divisions as int);
            assert forall|i: int| 0 <= i < angles@.len() implies -1 <= (#[trigger] angles@[i]
                - self.rotation) + (angles@[width - 1 - i] - self.rotation) <= 1 by {
                crate::theorems::lemma_columns_are_mirrored(
                    self.rotation as int,
                    span as int,
                    width as int,
                    i,
                );
            }
        }
        Ok(angles)
    }

    /// Casts one ray for each column of the view: `directions` holds the
    /// direction of each column's ray, as the unit vector of its angle.
    pub fn raycast_explicit(&self, world_map: &Grid, directions: &Vec<Angle>) -> (out: Result<
        Vec<RayHit>,
        RayError,
    >)
        requires
            world_map.wf(),
            self.transform.0.within(WORLD_LIMIT as int),
        ensures
            out is Err <==> (!self.valid() || directions@.len() != self.view_width),
            out is Err ==> out == Err::<Vec<RayHit>, RayError>(RayError::InvalidCamera),
            out is Ok ==> {
                let hits = out->Ok_0@;
                &&& hits.len() == self.view_width
                &&& forall|i: int|
                    0 <= i < hits.len() ==> {
                        &&& (#[trigger] hits[i]).describes(
                            world_map,
                            self.transform.0@,
                            directions@[i],
                        )
                        &&& 0 <= hits[i].length <= COORD_LIMIT
                        &&& hits[i].steps <= step_cap(world_map)
                        &&& hits[i].fault is None ==> world_map.blocking(
                            hits[i].cell.x as int,
                            hits[i].cell.y as int,
                        )
                        &&& world_map.ringed() && strictly_inside(world_map, self.transform.0@)
                            && (directions@[i].0.x != 0 || directions@[i].0.y != 0)
                            ==> hits[i].fault is None
                    }
            },
    {
        if !self.is_valid() || directions.len() != self.view_width as usize {
            return Err(RayError::InvalidCamera);
        }
        let origin: Vec2f = self.transform.0;
        let count: usize = directions.len();
        let mut hits: Vec<RayHit> = Vec::new();
        let mut i: usize = 0;
        while i < count
            invariant
                world_map.wf(),
                origin == self.transform.0,
                origin.within(WORLD_LIMIT as int),
                count == directions@.len(),
                i <= count,
                hits@.len() == i,
                forall|k: int|
                    0 <= k < i ==> {
                        &&& (#[trigger] hits@[k]).describes(world_map, origin@, directions@[k])
                        &&& 0 <= hits@[k].length <= COORD_LIMIT
                        &&& hits@[k].steps <= step_cap(world_map)
                        &&& hits@[k].fault is None ==> world_map.blocking(
                            hits@[k].cell.x as int,
                            hits@[k].cell.y as int,
                        )
                        &&& world_map.ringed() && strictly_inside(world_map, origin@)
                            && (directions@[k].0.x != 0 || directions@[k].0.y != 0)
                            ==> hits@[k].fault is None
                    },
            decreases count - i,
        {
            let hit: RayHit = cast_ray(&origin, &directions[i], world_map);
            hits.push(hit);
            i = i + 1;
        }
        Ok(hits)
    }

    /// The lengths of the rays of the view, one for each column.
    pub fn raycast(&self, world_map: &Grid, directions: &Vec<Angle>) -> (out: Result<
        Vec<i64>,
        RayError,
    >)
        requires
            world_map.wf(),
            self.transform.0.within(WORLD_LIMIT as int),
        ensures
            out is Err <==> (!self.valid() || directions@.len() != self.view_width),
            out is Err ==> out == Err::<Vec<i64>, RayError>(RayError::InvalidCamera),
            out is Ok ==> {
                let lengths = out->Ok_0@;
                &&& lengths.len() == self.view_width
                &&& forall|i: int|
                    0 <= i < lengths.len() ==> {
                        &&& #[trigger] lengths[i] == floor_sqrt(
                            dist_sq(
                                self.transform.0@,
                                traced(world_map, self.transform.0@, directions@[i].0@).end,
                            ),
                        )
                        &&& lengths[i] >= 0
                    }
            },
    {
        match self.raycast_explicit(world_map, directions) {
            Err(e) => Err(e),
            Ok(hits) => {
                let count: usize = hits.len();
                let mut lengths: Vec<i64> = Vec::new();
                let mut i: usize = 0;
                while i < count
                    invariant
                        count == hits@.len(),
                        i <= count,
                        lengths@.len() == i,
                        forall|k: int| 0 <= k < i ==> #[trigger] lengths@[k] == hits@[k].length,
                    decreases count - i,
                {
                    lengths.push(hits[i].length);
                    i = i + 1;
                }
                Ok(lengths)
            },
        }
    }
}

/// The share `(i * span) / divisions` of a span that column `i` of
/// `divisions + 1` columns has crossed: nothing for the first column, the
/// whole span for the last, and never more than the span.
pub proof fn lemma_share_of_span(i: int, span: int, divisions: int)
    requires
        0 <= i <= divisions,
        0 < divisions,
        0 <= span,
    ensures
        0 <= i * span <= divisions * span,
        0 <= (i * span) / divisions <= span,
        i == 0 ==> (i * span) / divisions == 0,
        i == divisions ==> (i * span) / divisions == span,
{
    assert(0 <= i * span <= divisions * span) by (nonlinear_arith)
        requires
            0 <= i <= divisions,
            0 <= span,
    ;
    let p = i * span;
    assert(0 <= p / divisions <= span) by (nonlinear_arith)
        requires
            0 <= p <= divisions * span,
            0 < divisions,
    ;
    if i == 0 {
        assert(i * span == 0) by (nonlinear_arith)
            requires
                i == 0,
        ;
    }
    if i == divisions {
        assert((divisions * span) / divisions == span) by (nonlinear_arith)
            requires
                0 < divisions,
        ;
    }
}

} // verus!
