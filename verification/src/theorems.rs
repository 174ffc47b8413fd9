//! What holds of every ray: it leaves the tile boundaries, it advances, and in
//! a walled grid it is stopped before it runs out of steps.

use vstd::prelude::*;
use crate::grid::Grid;
use crate::math::{magnitude_of, Angle, Vec2, UNIT};
use crate::raycasting::{march, ray_angle_at, step_cap, strictly_inside, traced, RayHit};
use crate::stepping::{
    crossing,
    entered_tile,
    facing_edge,
    horizontal_first,
    lemma_offset_short,
    nudged,
    nudged_point,
    on_edge,
    tile_along,
    vertical_first,
};

verus! {

/// After the nudge a coordinate lies on no tile boundary, provided the ray
/// moves along that axis at all; a coordinate along which the ray does not
/// move stays where it is.
pub proof fn lemma_nudge_leaves_edges(pos: Vec2<int>, dir: Vec2<int>)
    ensures
        dir.x != 0 ==> !on_edge(nudged_point(pos, dir).x),
        dir.y != 0 ==> !on_edge(nudged_point(pos, dir).y),
        dir.x == 0 ==> nudged_point(pos, dir).x == pos.x,
        dir.y == 0 ==> nudged_point(pos, dir).y == pos.y,
        !on_edge(pos.x) ==> nudged_point(pos, dir).x == pos.x,
        !on_edge(pos.y) ==> nudged_point(pos, dir).y == pos.y,
{
}

/// For a ray that moves along both axes, both coordinates of the nudged
/// position lie strictly inside a tile.
pub proof fn lemma_nudge_is_interior(pos: Vec2<int>, dir: Vec2<int>)
    requires
        dir.x != 0,
        dir.y != 0,
    ensures
        !on_edge(nudged_point(pos, dir).x),
        !on_edge(nudged_point(pos, dir).y),
{
}

/// The crossing lies between the position and the corner that the ray faces,
/// on each axis, and on at least one axis along which the ray moves it lies on
/// the boundary faced.
pub proof fn lemma_crossing_shape(p: Vec2<int>, dir: Vec2<int>)
    requires
        dir.x != 0 || dir.y != 0,
    ensures
        dir.x > 0 ==> p.x <= crossing(p, dir).x <= facing_edge(p.x, dir.x),
        dir.x < 0 ==> facing_edge(p.x, dir.x) <= crossing(p, dir).x <= p.x,
        dir.x == 0 ==> crossing(p, dir).x == p.x,
        dir.y > 0 ==> p.y <= crossing(p, dir).y <= facing_edge(p.y, dir.y),
        dir.y < 0 ==> facing_edge(p.y, dir.y) <= crossing(p, dir).y <= p.y,
        dir.y == 0 ==> crossing(p, dir).y == p.y,
        (dir.x != 0 && crossing(p, dir).x == facing_edge(p.x, dir.x)) || (dir.y != 0 && crossing(
            p,
            dir,
        ).y == facing_edge(p.y, dir.y)),
{
    let cx = facing_edge(p.x, dir.x);
    let cy = facing_edge(p.y, dir.y);
    let dx = magnitude_of(cx - p.x);
    let dy = magnitude_of(cy - p.y);
    let mx = magnitude_of(dir.x);
    let my = magnitude_of(dir.y);
    if vertical_first(p, dir) {
        let off = (dx * my) / mx;
        if dir.y != 0 {
            lemma_offset_short(dx, my, dy, mx);
        } else {
            assert(dx * my == 0) by (nonlinear_arith)
                requires
                    my == 0,
            ;
        }
        assert(crossing(p, dir).y == p.y + crate::math::sign_of(dir.y) * off);
        assert(crate::math::sign_of(dir.y) * off == if dir.y > 0 {
            off
        } else if dir.y < 0 {
            -off
        } else {
            0
        }) by (nonlinear_arith);
    } else if horizontal_first(p, dir) {
        let off = (dy * mx) / my;
        if dir.x != 0 {
            lemma_offset_short(dy, mx, dx, my);
        } else {
            assert(dy * mx == 0) by (nonlinear_arith)
                requires
                    mx == 0,
            ;
        }
        assert(crossing(p, dir).x == p.x + crate::math::sign_of(dir.x) * off);
        assert(crate::math::sign_of(dir.x) * off == if dir.x > 0 {
            off
        } else if dir.x < 0 {
            -off
        } else {
            0
        }) by (nonlinear_arith);
    } else {
    }
}

/// A step never takes a ray backward, and it takes it strictly forward along
/// at least one axis: the next position lies beyond the present one in the
/// direction of the ray along x, or along y.
pub proof fn lemma_step_advances(pos: Vec2<int>, dir: Vec2<int>)
    requires
        dir.x != 0 || dir.y != 0,
    ensures
        ({
            let next = crossing(nudged_point(pos, dir), dir);
            &&& dir.x > 0 ==> next.x >= pos.x
            &&& dir.x < 0 ==> next.x <= pos.x
            &&& dir.x == 0 ==> next.x == pos.x
            &&& dir.y > 0 ==> next.y >= pos.y
            &&& dir.y < 0 ==> next.y <= pos.y
            &&& dir.y == 0 ==> next.y == pos.y
            &&& (dir.x > 0 && next.x > pos.x) || (dir.x < 0 && next.x < pos.x) || (dir.y > 0
                && next.y > pos.y) || (dir.y < 0 && next.y < pos.y)
        }),
{
    let start = nudged_point(pos, dir);
    lemma_crossing_shape(start, dir);
}

/// Along one axis, a step moves a ray by at most one tile, and by exactly one
/// where it ends on the boundary faced: `v` is the coordinate before the step
/// and `n` the one after it.
pub proof fn lemma_axis_step(v: int, a: int, n: int)
    requires
        a > 0 ==> nudged(v, a) <= n <= facing_edge(nudged(v, a), a),
        a < 0 ==> facing_edge(nudged(v, a), a) <= n <= nudged(v, a),
        a == 0 ==> n == v,
    ensures
        a > 0 ==> tile_along(n, a) == tile_along(v, a) || tile_along(n, a) == tile_along(v, a) + 1,
        a < 0 ==> tile_along(n, a) == tile_along(v, a) || tile_along(n, a) == tile_along(v, a) - 1,
        a == 0 ==> tile_along(n, a) == tile_along(v, a),
        a > 0 && n == facing_edge(nudged(v, a), a) ==> tile_along(n, a) == tile_along(v, a) + 1,
        a < 0 && n == facing_edge(nudged(v, a), a) ==> tile_along(n, a) == tile_along(v, a) - 1,
{
}

/// How many tiles lie ahead of tile `k`, on an axis of `size` tiles along
/// which the ray moves by `a`.
pub open spec fn room_ahead(size: int, k: int, a: int) -> int {
    if a > 0 {
        size - 1 - k
    } else if a < 0 {
        k
    } else {
        0
    }
}

/// How many tiles lie ahead of a ray at `pos`, both axes together.
pub open spec fn tiles_ahead(grid: &Grid, pos: Vec2<int>, dir: Vec2<int>) -> int {
    room_ahead(grid.spec_width(), tile_along(pos.x, dir.x), dir.x) + room_ahead(
        grid.spec_height(),
        tile_along(pos.y, dir.y),
        dir.y,
    )
}

/// In a grid whose rim is all wall, a ray that is in a tile of the grid is
/// stopped within one step more than the number of tiles ahead of it.
pub proof fn lemma_march_is_stopped(grid: &Grid, dir: Vec2<int>, pos: Vec2<int>, fuel: nat)
    requires
        grid.wf(),
        grid.ringed(),
        dir.x != 0 || dir.y != 0,
        grid.contains(tile_along(pos.x, dir.x), tile_along(pos.y, dir.y)),
        fuel > tiles_ahead(grid, pos, dir),
    ensures
        march(grid, dir, pos, fuel).blocked,
        march(grid, dir, pos, fuel).steps <= tiles_ahead(grid, pos, dir) + 1,
    decreases fuel,
{
    let start = nudged_point(pos, dir);
    let next = crossing(start, dir);
    lemma_crossing_shape(start, dir);
    lemma_axis_step(pos.x, dir.x, next.x);
    lemma_axis_step(pos.y, dir.y, next.y);
    let cell = entered_tile(next, dir);
    if !grid.blocking(cell.x, cell.y) {
        let col = tile_along(next.x, dir.x);
        let row = tile_along(next.y, dir.y);
        assert(grid.contains(cell.x, cell.y));
        assert(0 < cell.x < grid.spec_width() - 1 && 0 < cell.y < grid.spec_height() - 1);
        assert(col == cell.x && row == cell.y);
        lemma_march_is_stopped(grid, dir, next, (fuel - 1) as nat);
    }
}

/// A ray cast from strictly inside a grid whose rim is all wall is stopped by
/// a tile within as many steps as the grid has columns and rows: it never
/// runs out of steps.
pub proof fn lemma_ringed_grid_stops_every_ray(grid: &Grid, origin: Vec2<int>, dir: Vec2<int>)
    requires
        grid.wf(),
        grid.ringed(),
        strictly_inside(grid, origin),
        dir.x != 0 || dir.y != 0,
    ensures
        traced(grid, origin, dir).blocked,
        traced(grid, origin, dir).steps <= grid.spec_width() + grid.spec_height(),
{
    lemma_march_is_stopped(grid, dir, origin, step_cap(grid));
}

/// A cast has one outcome: two hits that describe the ray of the same grid,
/// origin and direction are the same hit.
pub proof fn lemma_cast_is_determined(
    first: RayHit,
    second: RayHit,
    grid: &Grid,
    origin: Vec2<int>,
    angle: Angle,
)
    requires
        first.describes(grid, origin, angle),
        second.describes(grid, origin, angle),
    ensures
        first == second,
{
    assert(first.cell@ == second.cell@);
    assert(first.cell.x as int == first.cell@.x);
    assert(second.cell.x as int == second.cell@.x);
    assert(first.cell.y as int == first.cell@.y);
    assert(second.cell.y as int == second.cell@.y);
}

/// The first and the last ray of a view bracket the facing angle and lie
/// exactly the field of view apart, and the angles between them never
/// decrease from one column to the next.
pub proof fn lemma_rays_span_the_view(facing: int, span: int, width: int)
    requires
        width >= 2,
        span >= 0,
    ensures
        ray_angle_at(facing, span, width, 0) <= facing <= ray_angle_at(
            facing,
            span,
            width,
            width - 1,
        ),
        ray_angle_at(facing, span, width, width - 1) - ray_angle_at(facing, span, width, 0) == span,
        forall|i: int, j: int|
            0 <= i <= j < width ==> #[trigger] ray_angle_at(facing, span, width, i)
                <= #[trigger] ray_angle_at(facing, span, width, j),
{
    crate::raycasting::lemma_share_of_span(0, span, width - 1);
    crate::raycasting::lemma_share_of_span(width - 1, span, width - 1);
    assert forall|i: int, j: int| 0 <= i <= j < width implies #[trigger] ray_angle_at(
        facing,
        span,
        width,
        i,
    ) <= #[trigger] ray_angle_at(facing, span, width, j) by {
        assert(i * span <= j * span) by (nonlinear_arith)
            requires
                i <= j,
                span >= 0,
        ;
        vstd::arithmetic::div_mod::lemma_div_is_ordered(i * span, j * span, width - 1);
    }
}

/// The reflection of the coordinate `v` about the middle of an axis of `size`
/// tiles.
pub open spec fn flipped(size: int, v: int) -> int {
    size * UNIT - v
}

/// The reflection of a point about the horizontal line through the middle of
/// `size` rows of tiles.
pub open spec fn flipped_point(size: int, p: Vec2<int>) -> Vec2<int> {
    Vec2 { x: p.x, y: flipped(size, p.y) }
}

/// The reflection of a direction about a horizontal line.
pub open spec fn flipped_direction(dir: Vec2<int>) -> Vec2<int> {
    Vec2 { x: dir.x, y: -dir.y }
}

/// The grid reads the same upside down: a tile stops a ray exactly if the
/// tile opposite to it across the horizontal middle line does.
pub open spec fn same_upside_down(grid: &Grid) -> bool {
    forall|col: int, row: int| #[trigger]
        grid.blocking(col, row) == grid.blocking(col, grid.spec_height() - 1 - row)
}

/// Reflection about the middle of an axis maps tile boundaries to tile
/// boundaries, and what a ray does along the axis to what the reflected ray
/// does.
pub proof fn lemma_flip_axis(size: int, v: int, a: int)
    ensures
        on_edge(flipped(size, v)) == on_edge(v),
        nudged(flipped(size, v), -a) == flipped(size, nudged(v, a)),
        a != 0 ==> facing_edge(flipped(size, v), -a) == flipped(size, facing_edge(v, a)),
        a != 0 ==> tile_along(flipped(size, v), -a) == size - 1 - tile_along(v, a),
{
    let h = size * UNIT;
    assert(h == 65536 * size);
}

/// The reflected ray meets its next boundary at the reflection of the point
/// where the ray meets its own.
pub proof fn lemma_flip_crossing(size: int, p: Vec2<int>, dir: Vec2<int>)
    requires
        dir.y != 0,
    ensures
        crossing(flipped_point(size, p), flipped_direction(dir)) == flipped_point(
            size,
            crossing(p, dir),
        ),
{
    lemma_flip_axis(size, p.y, dir.y);
    let q = flipped_point(size, p);
    let rid = flipped_direction(dir);
    let cx = facing_edge(p.x, dir.x);
    let cy = facing_edge(p.y, dir.y);
    let dx = magnitude_of(cx - p.x);
    let dy = magnitude_of(cy - p.y);
    let mx = magnitude_of(dir.x);
    let my = magnitude_of(dir.y);
    assert(facing_edge(q.x, rid.x) == cx);
    assert(facing_edge(q.y, rid.y) == flipped(size, cy));
    assert(magnitude_of(facing_edge(q.y, rid.y) - q.y) == dy);
    assert(magnitude_of(rid.y) == my);
    assert(vertical_first(q, rid) == vertical_first(p, dir));
    assert(horizontal_first(q, rid) == horizontal_first(p, dir));
    let off = (dx * my) / mx;
    assert(crate::math::sign_of(rid.y) * off == -(crate::math::sign_of(dir.y) * off))
        by (nonlinear_arith)
        requires
            crate::math::sign_of(rid.y) == -crate::math::sign_of(dir.y),
    ;
}

/// In a walled grid that reads the same upside down, the reflected ray takes
/// the reflected course: as many steps, to the reflected end, stopped or not
/// alike.
pub proof fn lemma_march_mirrored(grid: &Grid, dir: Vec2<int>, pos: Vec2<int>, fuel: nat)
    requires
        grid.wf(),
        grid.ringed(),
        same_upside_down(grid),
        dir.y != 0,
    ensures
        march(grid, flipped_direction(dir), flipped_point(grid.spec_height(), pos), fuel).end == flipped_point(
            grid.spec_height(),
            march(grid, dir, pos, fuel).end,
        ),
        march(grid, flipped_direction(dir), flipped_point(grid.spec_height(), pos), fuel).steps == march(
            grid,
            dir,
            pos,
            fuel,
        ).steps,
        march(grid, flipped_direction(dir), flipped_point(grid.spec_height(), pos), fuel).blocked == march(
            grid,
            dir,
            pos,
            fuel,
        ).blocked,
    decreases fuel,
{
    if fuel > 0 {
        let size = grid.spec_height();
        let rid = flipped_direction(dir);
        let start = nudged_point(pos, dir);
        let next = crossing(start, dir);
        lemma_flip_axis(size, pos.y, dir.y);
        assert(nudged_point(flipped_point(grid.spec_height(), pos), rid) == flipped_point(grid.spec_height(), start));
        lemma_flip_crossing(size, start, dir);
        let mirrored = flipped_point(grid.spec_height(), next);
        assert(crossing(nudged_point(flipped_point(grid.spec_height(), pos), rid), rid) == mirrored);
        lemma_flip_axis(size, next.y, dir.y);
        let cell = entered_tile(next, dir);
        let twin = entered_tile(mirrored, rid);
        assert(twin.x == cell.x);
        let row = tile_along(next.y, dir.y);
        assert(tile_along(mirrored.y, rid.y) == size - 1 - row);
        if 0 <= row < size {
            assert(cell.y == row && twin.y == size - 1 - row);
            assert(grid.blocking(cell.x, cell.y) == grid.blocking(cell.x, size - 1 - cell.y));
        } else if row < 0 {
            assert(cell.y == 0);
            assert(grid.blocking(cell.x, 0));
            assert(twin.y >= size);
            assert(grid.blocking(twin.x, twin.y));
        } else {
            assert(grid.blocking(cell.x, cell.y));
            assert(twin.y == 0);
            assert(grid.blocking(twin.x, 0));
        }
        assert(grid.blocking(twin.x, twin.y) == grid.blocking(cell.x, cell.y));
        if !grid.blocking(cell.x, cell.y) {
            lemma_march_mirrored(grid, dir, next, (fuel - 1) as nat);
        }
    }
}

/// Fish-eye symmetry: in a walled grid that reads the same upside down, the
/// two rays that leave a point of the horizontal middle line at the same angle
/// above and below the x axis take as many steps, end at the same distance
/// from their origin, and end equally far ahead of a camera that faces along
/// the x axis.
pub proof fn lemma_mirrored_rays_agree(
    grid: &Grid,
    origin: Vec2<int>,
    dir: Vec2<int>,
    facing: Vec2<int>,
)
    requires
        grid.wf(),
        grid.ringed(),
        same_upside_down(grid),
        2 * origin.y == grid.spec_height() * UNIT,
        facing.y == 0,
    ensures
        ({
            let above = traced(grid, origin, dir);
            let below = traced(grid, origin, flipped_direction(dir));
            let length = crate::math::floor_sqrt(crate::math::dist_sq(origin, above.end));
            &&& below.end == flipped_point(grid.spec_height(), above.end)
            &&& below.steps == above.steps
            &&& below.blocked == above.blocked
            &&& crate::math::dist_sq(origin, below.end) == crate::math::dist_sq(origin, above.end)
            &&& crate::frame::perpendicular_of(length, flipped_direction(dir), facing)
                == crate::frame::perpendicular_of(length, dir, facing)
        }),
{
    let above = traced(grid, origin, dir);
    let below = traced(grid, origin, flipped_direction(dir));
    assert(flipped_point(grid.spec_height(), origin) == origin);
    if dir.y != 0 {
        lemma_march_mirrored(grid, dir, origin, step_cap(grid));
    } else {
        assert(flipped_direction(dir) == dir);
        if dir.x != 0 {
            lemma_still_axis(grid, dir, origin, step_cap(grid));
        }
    }
    assert(below.end == flipped_point(grid.spec_height(), above.end));
    let a = above.end.y - origin.y;
    let b = below.end.y - origin.y;
    assert(b == -a);
    assert(b * b == a * a) by (nonlinear_arith)
        requires
            b == -a,
    ;
    crate::frame::lemma_mirrored_rays_same_depth(
        crate::math::floor_sqrt(crate::math::dist_sq(origin, above.end)),
        dir,
        facing,
    );
}

/// A ray that does not move along the y axis ends at the height at which it
/// started.
pub proof fn lemma_still_axis(grid: &Grid, dir: Vec2<int>, pos: Vec2<int>, fuel: nat)
    requires
        dir.y == 0,
        dir.x != 0,
    ensures
        march(grid, dir, pos, fuel).end.y == pos.y,
    decreases fuel,
{
    if fuel > 0 {
        let next = crossing(nudged_point(pos, dir), dir);
        lemma_step_advances(pos, dir);
        let cell = entered_tile(next, dir);
        if !grid.blocking(cell.x, cell.y) {
            lemma_still_axis(grid, dir, next, (fuel - 1) as nat);
        }
    }
}

/// A ray that is stopped was stopped by the tile that it entered last, and
/// that tile is a wall or lies outside the grid.
pub proof fn lemma_stopped_by_a_blocking_tile(
    grid: &Grid,
    dir: Vec2<int>,
    pos: Vec2<int>,
    fuel: nat,
)
    requires
        march(grid, dir, pos, fuel).blocked,
    ensures
        ({
            let cell = entered_tile(march(grid, dir, pos, fuel).end, dir);
            grid.blocking(cell.x, cell.y)
        }),
        march(grid, dir, pos, fuel).steps >= 1,
    decreases fuel,
{
    if fuel > 0 {
        let next = crossing(nudged_point(pos, dir), dir);
        let cell = entered_tile(next, dir);
        if !grid.blocking(cell.x, cell.y) {
            lemma_stopped_by_a_blocking_tile(grid, dir, next, (fuel - 1) as nat);
        }
    }
}

/// A ray that has taken a step ends on a tile boundary.
pub proof fn lemma_ends_on_a_boundary(grid: &Grid, dir: Vec2<int>, pos: Vec2<int>, fuel: nat)
    requires
        dir.x != 0 || dir.y != 0,
        march(grid, dir, pos, fuel).steps >= 1,
    ensures
        on_edge(march(grid, dir, pos, fuel).end.x) || on_edge(march(grid, dir, pos, fuel).end.y),
    decreases fuel,
{
    if fuel > 0 {
        let start = nudged_point(pos, dir);
        let next = crossing(start, dir);
        lemma_crossing_shape(start, dir);
        let cell = entered_tile(next, dir);
        if !grid.blocking(cell.x, cell.y) {
            let rest = march(grid, dir, next, (fuel - 1) as nat);
            if rest.steps >= 1 {
                lemma_ends_on_a_boundary(grid, dir, next, (fuel - 1) as nat);
            } else {
                assert(fuel - 1 == 0 || rest.steps >= 1);
            }
        }
    }
}

/// How far, and to which side, the point `p` lies off the line from `origin`
/// along `dir`: the distance times the length of `dir`.
pub open spec fn off_course(origin: Vec2<int>, p: Vec2<int>, dir: Vec2<int>) -> int {
    (p.x - origin.x) * dir.y - (p.y - origin.y) * dir.x
}

/// The most that one step adds to `off_course`.
pub open spec fn drift_per_step(dir: Vec2<int>) -> int {
    2 * (magnitude_of(dir.x) + magnitude_of(dir.y))
}

/// One step leaves a ray almost on its line: the nudge and the rounding of
/// the crossing together move it off by less than two sub-tile units.
pub proof fn lemma_step_stays_on_course(origin: Vec2<int>, pos: Vec2<int>, dir: Vec2<int>)
    requires
        dir.x != 0 || dir.y != 0,
    ensures
        magnitude_of(
            off_course(origin, crossing(nudged_point(pos, dir), dir), dir) - off_course(
                origin,
                pos,
                dir,
            ),
        ) <= drift_per_step(dir),
{
    let start = nudged_point(pos, dir);
    let next = crossing(start, dir);
    let mx = magnitude_of(dir.x);
    let my = magnitude_of(dir.y);
    // The nudge.
    let sx = start.x - pos.x;
    let sy = start.y - pos.y;
    assert(-1 <= sx <= 1 && -1 <= sy <= 1);
    let by_nudge = off_course(origin, start, dir) - off_course(origin, pos, dir);
    assert(by_nudge == sx * dir.y - sy * dir.x) by (nonlinear_arith)
        requires
            by_nudge == (start.x - origin.x) * dir.y - (start.y - origin.y) * dir.x - ((pos.x
                - origin.x) * dir.y - (pos.y - origin.y) * dir.x),
            sx == start.x - pos.x,
            sy == start.y - pos.y,
    ;
    assert(-my <= sx * dir.y <= my) by (nonlinear_arith)
        requires
            -1 <= sx <= 1,
            my == magnitude_of(dir.y),
    ;
    assert(-mx <= sy * dir.x <= mx) by (nonlinear_arith)
        requires
            -1 <= sy <= 1,
            mx == magnitude_of(dir.x),
    ;
    // The crossing.
    let ex = next.x - start.x;
    let ey = next.y - start.y;
    let by_crossing = off_course(origin, next, dir) - off_course(origin, start, dir);
    assert(by_crossing == ex * dir.y - ey * dir.x) by (nonlinear_arith)
        requires
            by_crossing == (next.x - origin.x) * dir.y - (next.y - origin.y) * dir.x - ((start.x
                - origin.x) * dir.y - (start.y - origin.y) * dir.x),
            ex == next.x - start.x,
            ey == next.y - start.y,
    ;
    lemma_crossing_drift(start, dir);
}

/// Rounding a quotient toward zero takes a point off a line by less than the
/// divisor: with `d * my == mx * off + rem`, the step `(ex, ey)` of sizes `d`
/// and `off` along a direction `(ax, ay)` of sizes `mx` and `my` is off the
/// direction by `rem`.
pub proof fn lemma_rounding_drift(
    d: int,
    off: int,
    rem: int,
    mx: int,
    my: int,
    ax: int,
    ay: int,
    ex: int,
    ey: int,
)
    requires
        d * my == mx * off + rem,
        0 <= rem,
        (ax == mx && ex == d) || (ax == -mx && ex == -d),
        (ay == my && ey == off) || (ay == -my && ey == -off),
    ensures
        -rem <= ex * ay - ey * ax <= rem,
{
    let drift = ex * ay - ey * ax;
    if ax == mx && ex == d {
        if ay == my && ey == off {
            assert(drift == rem) by (nonlinear_arith)
                requires
                    drift == d * my - off * mx,
                    d * my == mx * off + rem,
            ;
        } else {
            assert(drift == -rem) by (nonlinear_arith)
                requires
                    drift == d * (-my) - (-off) * mx,
                    d * my == mx * off + rem,
            ;
        }
    } else {
        if ay == my && ey == off {
            assert(drift == -rem) by (nonlinear_arith)
                requires
                    drift == (-d) * my - off * (-mx),
                    d * my == mx * off + rem,
            ;
        } else {
            assert(drift == rem) by (nonlinear_arith)
                requires
                    drift == (-d) * (-my) - (-off) * (-mx),
                    d * my == mx * off + rem,
            ;
        }
    }
}

/// The crossing lies off the line through the start by less than one
/// sub-tile unit: only the rounding of one coordinate takes it off.
pub proof fn lemma_crossing_drift(p: Vec2<int>, dir: Vec2<int>)
    requires
        dir.x != 0 || dir.y != 0,
    ensures
        ({
            let next = crossing(p, dir);
            let drift = (next.x - p.x) * dir.y - (next.y - p.y) * dir.x;
            magnitude_of(drift) <= magnitude_of(dir.x) + magnitude_of(dir.y)
        }),
{
    let next = crossing(p, dir);
    let cx = facing_edge(p.x, dir.x);
    let cy = facing_edge(p.y, dir.y);
    let dx = magnitude_of(cx - p.x);
    let dy = magnitude_of(cy - p.y);
    let mx = magnitude_of(dir.x);
    let my = magnitude_of(dir.y);
    let ex = next.x - p.x;
    let ey = next.y - p.y;
    let drift = ex * dir.y - ey * dir.x;
    if vertical_first(p, dir) {
        let off = (dx * my) / mx;
        let rem = (dx * my) % mx;
        vstd::arithmetic::div_mod::lemma_fundamental_div_mod(dx * my, mx);
        assert(0 <= rem < mx);
        if dir.y == 0 {
            assert(dx * my == 0) by (nonlinear_arith)
                requires
                    my == 0,
            ;
            assert(off == 0);
        }
        assert(crate::math::sign_of(dir.y) * off == if dir.y > 0 {
            off
        } else if dir.y < 0 {
            -off
        } else {
            0
        }) by (nonlinear_arith);
        lemma_rounding_drift(dx, off, rem, mx, my, dir.x, dir.y, ex, ey);
    } else if horizontal_first(p, dir) {
        let off = (dy * mx) / my;
        let rem = (dy * mx) % my;
        vstd::arithmetic::div_mod::lemma_fundamental_div_mod(dy * mx, my);
        assert(0 <= rem < my);
        if dir.x == 0 {
            assert(dy * mx == 0) by (nonlinear_arith)
                requires
                    mx == 0,
            ;
            assert(off == 0);
        }
        assert(crate::math::sign_of(dir.x) * off == if dir.x > 0 {
            off
        } else if dir.x < 0 {
            -off
        } else {
            0
        }) by (nonlinear_arith);
        lemma_rounding_drift(dy, off, rem, my, mx, dir.y, dir.x, ey, ex);
    } else {
        assert(dx * my == dy * mx);
        assert(dx * my == mx * dy + 0) by (nonlinear_arith)
            requires
                dx * my == dy * mx,
        ;
        lemma_rounding_drift(dx, dy, 0, mx, my, dir.x, dir.y, ex, ey);
    }
}

/// A ray stays on course: after any number of steps it lies off the line from
/// its origin along its direction by less than two sub-tile units for each
/// step taken.
pub proof fn lemma_ray_stays_on_course(
    grid: &Grid,
    origin: Vec2<int>,
    dir: Vec2<int>,
    pos: Vec2<int>,
    fuel: nat,
)
    requires
        dir.x != 0 || dir.y != 0,
    ensures
        magnitude_of(
            off_course(origin, march(grid, dir, pos, fuel).end, dir) - off_course(
                origin,
                pos,
                dir,
            ),
        ) <= march(grid, dir, pos, fuel).steps * drift_per_step(dir),
    decreases fuel,
{
    let per = drift_per_step(dir);
    if fuel > 0 {
        let next = crossing(nudged_point(pos, dir), dir);
        let cell = entered_tile(next, dir);
        lemma_step_stays_on_course(origin, pos, dir);
        if !grid.blocking(cell.x, cell.y) {
            let rest = march(grid, dir, next, (fuel - 1) as nat);
            lemma_ray_stays_on_course(grid, origin, dir, next, (fuel - 1) as nat);
            assert((rest.steps + 1) * per == rest.steps * per + per) by (nonlinear_arith);
        } else {
            assert(1 * per == per);
        }
    } else {
        assert(0 * per == 0);
    }
}

/// What a cast ends with lies off the line of its ray by less than two
/// sub-tile units for each step that the ray took.
pub proof fn lemma_cast_stays_on_course(grid: &Grid, origin: Vec2<int>, dir: Vec2<int>)
    ensures
        magnitude_of(off_course(origin, traced(grid, origin, dir).end, dir)) <= traced(
            grid,
            origin,
            dir,
        ).steps * drift_per_step(dir),
{
    assert(off_course(origin, origin, dir) == 0) by (nonlinear_arith)
        requires
            off_course(origin, origin, dir) == (origin.x - origin.x) * dir.y - (origin.y
                - origin.y) * dir.x,
    ;
    if dir.x != 0 || dir.y != 0 {
        lemma_ray_stays_on_course(grid, origin, dir, origin, step_cap(grid));
    } else {
        assert(0 * drift_per_step(dir) == 0);
    }
}

/// A step takes a ray into a neighbouring tile: along each axis the tile index
/// stays or moves by one the way the ray goes, and along at least one axis it
/// moves. No tile is passed over, but at a corner, where the ray enters the
/// tile across it.
pub proof fn lemma_step_enters_a_neighbour(pos: Vec2<int>, dir: Vec2<int>)
    requires
        dir.x != 0 || dir.y != 0,
    ensures
        ({
            let next = crossing(nudged_point(pos, dir), dir);
            let cols = tile_along(next.x, dir.x) - tile_along(pos.x, dir.x);
            let rows = tile_along(next.y, dir.y) - tile_along(pos.y, dir.y);
            &&& cols == 0 || cols == crate::math::sign_of(dir.x)
            &&& rows == 0 || rows == crate::math::sign_of(dir.y)
            &&& cols != 0 || rows != 0
        }),
{
    let start = nudged_point(pos, dir);
    let next = crossing(start, dir);
    lemma_crossing_shape(start, dir);
    lemma_axis_step(pos.x, dir.x, next.x);
    lemma_axis_step(pos.y, dir.y, next.y);
}

/// Where a ray of direction `dir` from `pos` is after `steps` steps through
/// tiles none of which stops it.
pub open spec fn path(dir: Vec2<int>, pos: Vec2<int>, steps: nat) -> Vec2<int>
    decreases steps,
{
    if steps == 0 {
        pos
    } else {
        path(dir, crossing(nudged_point(pos, dir), dir), (steps - 1) as nat)
    }
}

/// A ray ends on its path, at the step at which it ends.
pub proof fn lemma_march_follows_path(grid: &Grid, dir: Vec2<int>, pos: Vec2<int>, fuel: nat)
    ensures
        march(grid, dir, pos, fuel).end == path(dir, pos, march(grid, dir, pos, fuel).steps),
    decreases fuel,
{
    if fuel > 0 {
        let next = crossing(nudged_point(pos, dir), dir);
        let cell = entered_tile(next, dir);
        if !grid.blocking(cell.x, cell.y) {
            lemma_march_follows_path(grid, dir, next, (fuel - 1) as nat);
        } else {
            assert(path(dir, next, 0) == next);
        }
    }
}

/// The path of the reflected ray is the reflection of the path of the ray:
/// about any horizontal line that is a tile boundary or the middle line of a
/// row of tiles.
pub proof fn lemma_path_mirrored(size: int, dir: Vec2<int>, pos: Vec2<int>, steps: nat)
    requires
        dir.y != 0,
    ensures
        path(flipped_direction(dir), flipped_point(size, pos), steps) == flipped_point(
            size,
            path(dir, pos, steps),
        ),
    decreases steps,
{
    if steps > 0 {
        let rid = flipped_direction(dir);
        let start = nudged_point(pos, dir);
        let next = crossing(start, dir);
        lemma_flip_axis(size, pos.y, dir.y);
        assert(nudged_point(flipped_point(size, pos), rid) == flipped_point(size, start));
        lemma_flip_crossing(size, start, dir);
        lemma_path_mirrored(size, dir, next, (steps - 1) as nat);
    }
}

/// Along its path a ray never comes back along the x axis.
pub proof fn lemma_path_keeps_going(dir: Vec2<int>, pos: Vec2<int>, steps: nat)
    requires
        dir.x != 0,
    ensures
        dir.x > 0 ==> path(dir, pos, steps).x >= pos.x,
        dir.x < 0 ==> path(dir, pos, steps).x <= pos.x,
    decreases steps,
{
    if steps > 0 {
        let next = crossing(nudged_point(pos, dir), dir);
        lemma_step_advances(pos, dir);
        lemma_path_keeps_going(dir, next, (steps - 1) as nat);
    }
}

/// A ray that is on a vertical tile boundary leaves it with its next step,
/// for good.
pub proof fn lemma_path_leaves_boundary(dir: Vec2<int>, pos: Vec2<int>, steps: nat)
    requires
        dir.x != 0,
        on_edge(pos.x),
        steps >= 1,
    ensures
        path(dir, pos, steps).x != pos.x,
{
    let start = nudged_point(pos, dir);
    let next = crossing(start, dir);
    lemma_crossing_shape(start, dir);
    lemma_path_keeps_going(dir, next, (steps - 1) as nat);
}

/// A path can be walked in two parts.
pub proof fn lemma_path_in_parts(dir: Vec2<int>, pos: Vec2<int>, first: nat, second: nat)
    ensures
        path(dir, pos, first + second) == path(dir, path(dir, pos, first), second),
    decreases first,
{
    if first > 0 {
        let next = crossing(nudged_point(pos, dir), dir);
        lemma_path_in_parts(dir, next, (first - 1) as nat, second);
        assert(path(dir, pos, first + second) == path(dir, next, (first + second - 1) as nat));
    }
}

/// A ray is on a given vertical tile boundary at one step of its path at
/// most.
pub proof fn lemma_one_step_on_a_plane(dir: Vec2<int>, pos: Vec2<int>, first: nat, second: nat)
    requires
        dir.x != 0,
        on_edge(path(dir, pos, first).x),
        path(dir, pos, first).x == path(dir, pos, second).x,
    ensures
        first == second,
{
    if first < second {
        lemma_path_in_parts(dir, pos, first, (second - first) as nat);
        lemma_path_leaves_boundary(dir, path(dir, pos, first), (second - first) as nat);
    }
    if second < first {
        lemma_path_in_parts(dir, pos, second, (first - second) as nat);
        lemma_path_leaves_boundary(dir, path(dir, pos, second), (first - second) as nat);
    }
}

/// Fish-eye symmetry in a corridor: from a point on a horizontal tile
/// boundary or on the middle line of a row, the two rays that leave at the
/// same angle above and below the x axis and end on the same wall plane (a
/// vertical tile boundary) take as many steps, end at mirrored points, at the
/// same distance from their origin, and equally far ahead of a camera that
/// faces along the x axis. Nothing is asked of the grid.
pub proof fn lemma_corridor_rays_agree(
    grid: &Grid,
    origin: Vec2<int>,
    dir: Vec2<int>,
    facing: Vec2<int>,
)
    requires
        (2 * origin.y) % (UNIT as int) == 0,
        dir.x != 0,
        traced(grid, origin, dir).end.x == traced(grid, origin, flipped_direction(dir)).end.x,
        on_edge(traced(grid, origin, dir).end.x),
        facing.y == 0,
    ensures
        ({
            let above = traced(grid, origin, dir);
            let below = traced(grid, origin, flipped_direction(dir));
            let length = crate::math::floor_sqrt(crate::math::dist_sq(origin, above.end));
            &&& below.steps == above.steps
            &&& below.end.y - origin.y == origin.y - above.end.y
            &&& crate::math::dist_sq(origin, below.end) == crate::math::dist_sq(origin, above.end)
            &&& crate::frame::perpendicular_of(length, flipped_direction(dir), facing)
                == crate::frame::perpendicular_of(length, dir, facing)
        }),
{
    let rid = flipped_direction(dir);
    let above = traced(grid, origin, dir);
    let below = traced(grid, origin, rid);
    let size = (2 * origin.y) / (UNIT as int);
    assert(size * UNIT == 2 * origin.y);
    assert(flipped_point(size, origin) == origin);
    let cap = step_cap(grid);
    lemma_march_follows_path(grid, dir, origin, cap);
    lemma_march_follows_path(grid, rid, origin, cap);
    if dir.y != 0 {
        lemma_path_mirrored(size, dir, origin, below.steps);
        lemma_path_mirrored(size, dir, origin, above.steps);
        assert(path(dir, origin, below.steps).x == below.end.x);
        lemma_one_step_on_a_plane(dir, origin, above.steps, below.steps);
        assert(below.end == flipped_point(size, above.end));
    } else {
        assert(rid == dir);
        lemma_still_axis(grid, dir, origin, cap);
    }
    let a = above.end.y - origin.y;
    let b = below.end.y - origin.y;
    assert(b == -a);
    assert(b * b == a * a) by (nonlinear_arith)
        requires
            b == -a,
    ;
    crate::frame::lemma_mirrored_rays_same_depth(
        crate::math::floor_sqrt(crate::math::dist_sq(origin, above.end)),
        dir,
        facing,
    );
}

/// The columns of a view are mirrored about its middle: the rays of column
/// `i` and of the column as far from the other end lie at opposite angles to
/// the facing angle, to within one unit of angle, which is what the rounding
/// of the angles can take.
pub proof fn lemma_columns_are_mirrored(facing: int, span: int, width: int, i: int)
    requires
        width >= 2,
        span >= 0,
        0 <= i < width,
    ensures
        ({
            let here = ray_angle_at(facing, span, width, i) - facing;
            let there = ray_angle_at(facing, span, width, width - 1 - i) - facing;
            -1 <= here + there <= 1
        }),
{
    let d = width - 1;
    let j = d - i;
    let a = (i * span) / d;
    let b = (j * span) / d;
    vstd::arithmetic::div_mod::lemma_fundamental_div_mod(i * span, d);
    vstd::arithmetic::div_mod::lemma_fundamental_div_mod(j * span, d);
    assert(i * span + j * span == d * span) by (nonlinear_arith)
        requires
            j == d - i,
    ;
    let ra = (i * span) % d;
    let rb = (j * span) % d;
    assert(0 <= ra < d && 0 <= rb < d);
    assert(d * a + d * b == d * (a + b)) by (nonlinear_arith);
    assert(d * (a + b) + ra + rb == d * span);
    assert(a + b <= span) by (nonlinear_arith)
        requires
            d * (a + b) <= d * span,
            d > 0,
    ;
    assert(a + b >= span - 1) by (nonlinear_arith)
        requires
            d * (a + b) + 2 * d > d * span,
            d > 0,
    ;
}

} // verus!
