//! One step of a ray: off a tile edge, to the next tile boundary, into a tile.

use vstd::prelude::*;
use crate::math::{magnitude_of, sign_of, Angle, Vec2, Vec2f, COORD_LIMIT, UNIT};

verus! {

/// The coordinate `v` lies on a tile boundary.
pub open spec fn on_edge(v: int) -> bool {
    v % (UNIT as int) == 0
}

/// The last tile boundary at or below `v`.
pub open spec fn edge_below(v: int) -> int {
    (v / (UNIT as int)) * UNIT
}

/// The first tile boundary at or above `v`.
pub open spec fn edge_above(v: int) -> int {
    if on_edge(v) {
        v
    } else {
        edge_below(v) + UNIT
    }
}

/// The coordinate `v` of a ray that moves along this axis by `a`, taken off a
/// tile boundary: from a boundary it goes one sub-tile unit the ray's way.
pub open spec fn nudged(v: int, a: int) -> int {
    if on_edge(v) {
        v + sign_of(a)
    } else {
        v
    }
}

/// The position `p` of a ray of direction `dir` with each coordinate taken off
/// the tile boundaries.
pub open spec fn nudged_point(p: Vec2<int>, dir: Vec2<int>) -> Vec2<int> {
    Vec2 { x: nudged(p.x, dir.x), y: nudged(p.y, dir.y) }
}

/// The tile boundary that a ray at `v`, moving along this axis by `a`, faces:
/// the one above for `a >= 0`, the one below for `a < 0`.
pub open spec fn facing_edge(v: int, a: int) -> int {
    if a >= 0 {
        edge_above(v)
    } else {
        edge_below(v)
    }
}

/// The ray from `p` along `dir` meets the vertical boundary that it faces
/// strictly before the horizontal one.
pub open spec fn vertical_first(p: Vec2<int>, dir: Vec2<int>) -> bool {
    let dx = magnitude_of(facing_edge(p.x, dir.x) - p.x);
    let dy = magnitude_of(facing_edge(p.y, dir.y) - p.y);
    dir.y == 0 || (dir.x != 0 && dx * magnitude_of(dir.y) < dy * magnitude_of(dir.x))
}

/// The ray from `p` along `dir` meets the horizontal boundary that it faces
/// strictly before the vertical one.
pub open spec fn horizontal_first(p: Vec2<int>, dir: Vec2<int>) -> bool {
    let dx = magnitude_of(facing_edge(p.x, dir.x) - p.x);
    let dy = magnitude_of(facing_edge(p.y, dir.y) - p.y);
    dir.x == 0 || (dir.y != 0 && dy * magnitude_of(dir.x) < dx * magnitude_of(dir.y))
}

/// Where the ray from `p` along `dir` next meets a tile boundary.
///
/// With `(cx, cy)` the corner of the boundaries that the ray faces, the ray
/// needs the time `|cx - p.x| / |dir.x|` to the vertical boundary and
/// `|cy - p.y| / |dir.y|` to the horizontal one (forever, for a zero
/// component). It stops at the earlier; the other coordinate has then moved by
/// that time, rounded toward `p`. On a tie it stops at the corner. A ray
/// without direction stays where it is.
pub open spec fn crossing(p: Vec2<int>, dir: Vec2<int>) -> Vec2<int> {
    let cx = facing_edge(p.x, dir.x);
    let cy = facing_edge(p.y, dir.y);
    let dx = magnitude_of(cx - p.x);
    let dy = magnitude_of(cy - p.y);
    let mx = magnitude_of(dir.x);
    let my = magnitude_of(dir.y);
    if dir.x == 0 && dir.y == 0 {
        p
    } else if vertical_first(p, dir) {
        Vec2 { x: cx, y: p.y + sign_of(dir.y) * ((dx * my) / mx) }
    } else if horizontal_first(p, dir) {
        Vec2 { x: p.x + sign_of(dir.x) * ((dy * mx) / my), y: cy }
    } else {
        Vec2 { x: cx, y: cy }
    }
}

/// The index along one axis of the tile that a ray enters at the coordinate
/// `v` when it moves along that axis by `a`, before any clamping: on a
/// boundary a ray that moves down the axis is in the tile below it.
pub open spec fn tile_along(v: int, a: int) -> int {
    if a < 0 && on_edge(v) {
        v / (UNIT as int) - 1
    } else {
        v / (UNIT as int)
    }
}

/// `tile_along`, with negative indices raised to 0.
pub open spec fn entered_index(v: int, a: int) -> int {
    let k = tile_along(v, a);
    if k < 0 {
        0
    } else {
        k
    }
}

/// The tile that a ray of direction `dir` enters at the point `p`.
pub open spec fn entered_tile(p: Vec2<int>, dir: Vec2<int>) -> Vec2<int> {
    Vec2 { x: entered_index(p.x, dir.x), y: entered_index(p.y, dir.y) }
}

/// Whether the coordinate `v` lies on a tile boundary.
pub fn is_on_edge(v: i64) -> (b: bool)
    ensures
        b == on_edge(v as int),
{
    let w: i128 = v as i128;
    let m: i128 = if w < 0 {
        -w
    } else {
        w
    };
    m % 65536 == 0
}

/// The index of the tile that holds the coordinate `v`: `v / UNIT`, rounded
/// down.
pub fn tile_of(v: i64) -> (k: i64)
    ensures
        k == v as int / (UNIT as int),
{
    if v >= 0 {
        v / 65536
    } else {
        let m: i128 = -(v as i128);
        let q: i128 = m / 65536;
        let r: i128 = m % 65536;
        if r == 0 {
            (-q) as i64
        } else {
            (-q - 1) as i64
        }
    }
}

/// The tile boundary that a ray at `v` faces when it moves along this axis by
/// `a`.
pub fn edge_faced(v: i64, a: i64) -> (e: i64)
    requires
        -COORD_LIMIT <= v <= COORD_LIMIT,
    ensures
        e == facing_edge(v as int, a as int),
        a >= 0 ==> v <= e < v + UNIT,
        a < 0 ==> v - UNIT < e <= v,
{
    let below: i64 = tile_of(v) * 65536;
    if a < 0 || is_on_edge(v) {
        below
    } else {
        below + 65536
    }
}

/// Takes a position off the tile boundaries: a coordinate that lies on one
/// moves one sub-tile unit the way the ray goes along that axis.
pub fn nudge(pos: &Vec2f, angle: &Angle) -> (out: Vec2f)
    requires
        pos.bounded(),
    ensures
        out@ == nudged_point(pos@, angle.0@),
        !on_edge(out.x as int) || (on_edge(pos.x as int) && angle.0.x == 0),
        !on_edge(out.y as int) || (on_edge(pos.y as int) && angle.0.y == 0),
{
    let x: i64 = nudge_coordinate(pos.x, angle.0.x);
    let y: i64 = nudge_coordinate(pos.y, angle.0.y);
    Vec2 { x: x, y: y }
}

fn nudge_coordinate(v: i64, a: i64) -> (out: i64)
    requires
        -COORD_LIMIT <= v <= COORD_LIMIT,
    ensures
        out == nudged(v as int, a as int),
{
    if is_on_edge(v) {
        if a > 0 {
            v + 1
        } else if a < 0 {
            v - 1
        } else {
            v
        }
    } else {
        v
    }
}

/// `(d * m) / n < e` for `d * m < e * n`: a ray that reaches one boundary
/// first has not yet reached the other.
pub proof fn lemma_offset_short(d: int, m: int, e: int, n: int)
    requires
        0 <= d,
        0 <= m,
        0 < n,
        d * m < e * n,
    ensures
        0 <= (d * m) / n < e,
{
    let p = d * m;
    assert(0 <= p) by (nonlinear_arith)
        requires
            p == d * m,
            0 <= d,
            0 <= m,
    ;
    let q = p / n;
    assert(0 <= q && q * n <= p) by (nonlinear_arith)
        requires
            q == p / n,
            0 <= p,
            0 < n,
    ;
    if q >= e {
        assert(q * n >= e * n) by (nonlinear_arith)
            requires
                q >= e,
                0 < n,
        ;
    }
}

/// The point at which the ray from `pos` along `angle` next meets a tile
/// boundary.
pub fn next_boundary(pos: &Vec2f, angle: &Angle) -> (next: Vec2f)
    requires
        pos.bounded(),
    ensures
        next@ == crossing(pos@, angle.0@),
        magnitude_of(next.x - pos.x) < UNIT,
        magnitude_of(next.y - pos.y) < UNIT,
{
    let ax: i64 = angle.0.x;
    let ay: i64 = angle.0.y;
    if ax == 0 && ay == 0 {
        return Vec2 { x: pos.x, y: pos.y };
    }
    let cx: i64 = edge_faced(pos.x, ax);
    let cy: i64 = edge_faced(pos.y, ay);
    let dx: i128 = if ax < 0 {
        pos.x as i128 - cx as i128
    } else {
        cx as i128 - pos.x as i128
    };
    let dy: i128 = if ay < 0 {
        pos.y as i128 - cy as i128
    } else {
        cy as i128 - pos.y as i128
    };
    let mx: i128 = if ax < 0 {
        -(ax as i128)
    } else {
        ax as i128
    };
    let my: i128 = if ay < 0 {
        -(ay as i128)
    } else {
        ay as i128
    };
    proof {
        crate::math::lemma_product_bound(dx as int, my as int, UNIT as int, 9223372036854775808);
        crate::math::lemma_product_bound(dy as int, mx as int, UNIT as int, 9223372036854775808);
        assert(dx * my >= 0 && dy * mx >= 0) by (nonlinear_arith)
            requires
                dx >= 0,
                dy >= 0,
                mx >= 0,
                my >= 0,
        ;
    }
    let tx: i128 = dx * my;
    let ty: i128 = dy * mx;
    if ay == 0 || (ax != 0 && tx < ty) {
        let off: i128 = tx / mx;
        proof {
            if ay != 0 {
                lemma_offset_short(dx as int, my as int, dy as int, mx as int);
            } else {
                assert(dx * my == 0) by (nonlinear_arith)
                    requires
                        my == 0,
                ;
            }
            assert(sign_of(ay as int) * off == if ay > 0 {
                off as int
            } else if ay < 0 {
                -off
            } else {
                0
            }) by (nonlinear_arith);
        }
        let y: i128 = if ay > 0 {
            pos.y as i128 + off
        } else if ay < 0 {
            pos.y as i128 - off
        } else {
            pos.y as i128
        };
        Vec2 { x: cx, y: y as i64 }
    } else if ax == 0 || ty < tx {
        let off: i128 = ty / my;
        proof {
            if ax != 0 {
                lemma_offset_short(dy as int, mx as int, dx as int, my as int);
            } else {
                assert(dy * mx == 0) by (nonlinear_arith)
                    requires
                        mx == 0,
                ;
            }
            assert(sign_of(ax as int) * off == if ax > 0 {
                off as int
            } else if ax < 0 {
                -off
            } else {
                0
            }) by (nonlinear_arith);
        }
        let x: i128 = if ax > 0 {
            pos.x as i128 + off
        } else if ax < 0 {
            pos.x as i128 - off
        } else {
            pos.x as i128
        };
        Vec2 { x: x as i64, y: cy }
    } else {
        Vec2 { x: cx, y: cy }
    }
}

/// The tile that the ray of direction `angle` enters at the point `next`, as
/// column and row.
pub fn entered_cell(next: &Vec2f, angle: &Angle) -> (cell: Vec2<i64>)
    ensures
        cell@ == entered_tile(next@, angle.0@),
        cell.x >= 0,
        cell.y >= 0,
{
    let col: i64 = entered_along(next.x, angle.0.x);
    let row: i64 = entered_along(next.y, angle.0.y);
    Vec2 { x: col, y: row }
}

fn entered_along(v: i64, a: i64) -> (k: i64)
    ensures
        k == entered_index(v as int, a as int),
        k >= 0,
{
    let tile: i64 = tile_of(v);
    let k: i64 = if a < 0 && is_on_edge(v) {
        tile - 1
    } else {
        tile
    };
    if k < 0 {
        0
    } else {
        k
    }
}

} // verus!
