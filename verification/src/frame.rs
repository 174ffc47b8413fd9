//! From rays to a picture: the distance of a wall straight ahead of the
//! camera, and the strip of a screen column that the wall fills.

use vstd::prelude::*;
use crate::math::{magnitude_of, quot_toward_zero, Angle, Vec2, COORD_LIMIT, UNIT};

verus! {

/// The inner product of two vectors.
pub open spec fn dot(a: Vec2<int>, b: Vec2<int>) -> int {
    a.x * b.x + a.y * b.y
}

/// The length of a ray measured along the direction `facing`: the length times
/// the cosine of the angle between the two directions, which for unit vectors
/// is their inner product. Rounded toward zero.
pub open spec fn perpendicular_of(length: int, ray: Vec2<int>, facing: Vec2<int>) -> int {
    quot_toward_zero(length * dot(ray, facing), UNIT * UNIT)
}

/// How far ahead of a camera that faces along `facing` a ray of direction
/// `ray` and length `length` ended. A wall that stands square to the camera
/// is equally far ahead in every column, whatever the length of the ray.
pub fn perpendicular_distance(length: i64, ray: &Angle, facing: &Angle) -> (depth: i64)
    requires
        -COORD_LIMIT <= length <= COORD_LIMIT,
        ray.0.within(UNIT as int),
        facing.0.within(UNIT as int),
    ensures
        depth == perpendicular_of(length as int, ray.0@, facing.0@),
        magnitude_of(depth as int) <= 2 * magnitude_of(length as int),
{
    let rx: i128 = ray.0.x as i128;
    let ry: i128 = ray.0.y as i128;
    let fx: i128 = facing.0.x as i128;
    let fy: i128 = facing.0.y as i128;
    proof {
        crate::math::lemma_product_bound(rx as int, fx as int, UNIT as int, UNIT as int);
        crate::math::lemma_product_bound(ry as int, fy as int, UNIT as int, UNIT as int);
    }
    let inner: i128 = rx * fx + ry * fy;
    proof {
        crate::math::lemma_product_bound(
            length as int,
            inner as int,
            COORD_LIMIT as int,
            2 * UNIT * UNIT,
        );
    }
    let scaled: i128 = length as i128 * inner;
    let depth: i128 = crate::math::div_toward_zero(scaled, 4294967296);
    proof {
        let l = magnitude_of(length as int);
        let n = magnitude_of(scaled as int);
        assert(n <= l * 8589934592) by (nonlinear_arith)
            requires
                n == magnitude_of(length as int * inner as int),
                l == magnitude_of(length as int),
                -8589934592 <= inner <= 8589934592,
        ;
        assert(n / 4294967296 <= 2 * l);
    }
    depth as i64
}

/// The part of a screen column that a wall fills: the pixel rows from `top`
/// up to, not including, `bottom`.
#[derive(Debug, Copy, Clone, PartialEq, Eq)]
pub struct WallStrip {
    pub top: u32,
    pub bottom: u32,
}

/// Number of pixel rows that a wall at the distance `depth` fills of a column
/// of `view_height` rows: `wall_scale` rows at the distance of one tile, less
/// in proportion farther off, and never more than the column has. A wall at
/// no distance fills the column.
pub open spec fn strip_length(depth: int, view_height: int, wall_scale: int) -> int {
    if depth <= 0 {
        view_height
    } else if (wall_scale * UNIT) / depth > view_height {
        view_height
    } else {
        (wall_scale * UNIT) / depth
    }
}

/// The strip that a wall at the distance `depth` fills of a column of
/// `view_height` pixel rows, centred on the horizon.
pub fn wall_strip(depth: i64, view_height: u32, wall_scale: u32) -> (strip: WallStrip)
    ensures
        strip.bottom - strip.top == strip_length(
            depth as int,
            view_height as int,
            wall_scale as int,
        ),
        strip.top == (view_height - strip_length(
            depth as int,
            view_height as int,
            wall_scale as int,
        )) / 2,
        strip.top <= strip.bottom <= view_height,
{
    let full: u64 = if depth <= 0 {
        view_height as u64
    } else {
        let rows: u64 = (wall_scale as u64 * 65536) / (depth as u64);
        if rows > view_height as u64 {
            view_height as u64
        } else {
            rows
        }
    };
    let length: u32 = full as u32;
    let top: u32 = (view_height - length) / 2;
    WallStrip { top: top, bottom: top + length }
}

/// With the camera facing along the x axis, two rays of the same length that
/// leave it at the same angle to either side end equally far ahead.
pub proof fn lemma_mirrored_rays_same_depth(length: int, ray: Vec2<int>, facing: Vec2<int>)
    requires
        facing.y == 0,
    ensures
        perpendicular_of(length, ray, facing) == perpendicular_of(
            length,
            Vec2 { x: ray.x, y: -ray.y },
            facing,
        ),
{
    assert(ray.y * facing.y == 0 && (-ray.y) * facing.y == 0) by (nonlinear_arith)
        requires
            facing.y == 0,
    ;
}

} // verus!
