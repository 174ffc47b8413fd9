//! A tile-grid raycaster in fixed-point arithmetic.
//!
//! The world is a rectangular grid of tiles. A camera stands in it and casts
//! one ray for each column of its view; each ray is marched from one tile
//! boundary to the next until it enters a tile that stops it, and reports how
//! far it went.
//!
//! Every coordinate, length and angle is a whole number of sub-tile units,
//! `math::UNIT` of them to one tile (or one radian), so that a point on a tile
//! boundary is exactly there and every rounding is stated. A direction is a
//! pair of cosine and sine in those units; whoever holds an angle in radians
//! turns it into such a pair before a ray is cast.
//!
//! - `math`: vectors, directions, distances, rotation.
//! - `grid`: tiles and which of them stop a ray.
//! - `stepping`: one step of a ray.
//! - `raycasting`: the march of a ray, the camera and its view.
//! - `frame`: from ray lengths to the wall strips of a picture.
//! - `control`: how the camera moves and turns.
//! - `theorems`: what holds of every ray.

pub mod control;
pub mod frame;
pub mod grid;
pub mod math;
pub mod raycasting;
pub mod stepping;
pub mod theorems;
