//! Moving the camera: what each control does to it in a slice of time.

use vstd::prelude::*;
use crate::math::{
    lemma_can_scale,
    off_zero,
    quot_toward_zero,
    rotated,
    scaled_by,
    Angle,
    Vec2,
    Vec2f,
    UNIT,
};
use crate::raycasting::{Camera, Transform, WORLD_LIMIT};

verus! {

/// Tiles that the camera walks in a second.
pub const SPEED: i64 = 30;

/// Radians that the camera turns in a second.
pub const TURN_RATE: i64 = 30;

/// Longest slice of time that one update may cover, in fixed-point seconds.
pub const TICK_LIMIT: i64 = 4294967296;

/// What the player asks of the camera.
#[derive(Debug, Copy, Clone, PartialEq, Eq)]
pub enum Control {
    /// Walk the way the camera faces.
    Forward,
    /// Walk the opposite way.
    Backward,
    /// Step to the left, a quarter turn counterclockwise of the facing.
    StrafeLeft,
    /// Step to the right, a quarter turn clockwise of the facing.
    StrafeRight,
    /// Turn counterclockwise.
    TurnLeft,
    /// Turn clockwise.
    TurnRight,
}

/// The quarter turn counterclockwise, as cosine and sine.
pub open spec fn quarter_left() -> Vec2<int> {
    Vec2 { x: 0, y: UNIT as int }
}

/// The quarter turn clockwise, as cosine and sine.
pub open spec fn quarter_right() -> Vec2<int> {
    Vec2 { x: 0, y: -(UNIT as int) }
}

/// How far the camera moves under `control` in the time `dt` when it faces
/// along the unit vector `facing`.
pub open spec fn displacement(control: Control, dt: int, facing: Vec2<int>) -> Vec2<int> {
    match control {
        Control::Forward => scaled_by(facing, SPEED * dt),
        Control::Backward => scaled_by(facing, -(SPEED * dt)),
        Control::StrafeLeft => scaled_by(rotated(facing, quarter_left()), SPEED * dt),
        Control::StrafeRight => scaled_by(rotated(facing, quarter_right()), SPEED * dt),
        Control::TurnLeft => Vec2 { x: 0, y: 0 },
        Control::TurnRight => Vec2 { x: 0, y: 0 },
    }
}

/// By how much the facing angle changes under `control` in the time `dt`.
pub open spec fn turn(control: Control, dt: int) -> int {
    match control {
        Control::TurnLeft => TURN_RATE * dt,
        Control::TurnRight => -(TURN_RATE * dt),
        _ => 0,
    }
}

/// A quarter turn of a vector within the unit square stays within it: it
/// swaps the coordinates, with one sign changed.
pub proof fn lemma_quarter_turn(v: Vec2<int>)
    requires
        -UNIT <= v.x <= UNIT,
        -UNIT <= v.y <= UNIT,
    ensures
        rotated(v, quarter_left()) == (Vec2 { x: -off_zero(v.y), y: off_zero(v.x) }),
        rotated(v, quarter_right()) == (Vec2 { x: off_zero(v.y), y: -off_zero(v.x) }),
{
    let x = off_zero(v.x);
    let y = off_zero(v.y);
    let u = UNIT as int;
    assert(x * 0 == 0 && y * 0 == 0) by (nonlinear_arith);
    assert(x * u == u * x && y * u == u * y && x * (-u) == u * (-x) && y * (-u) == u * (-y))
        by (nonlinear_arith);
    vstd::arithmetic::div_mod::lemma_div_multiples_vanish(x, u);
    vstd::arithmetic::div_mod::lemma_div_multiples_vanish(-x, u);
    vstd::arithmetic::div_mod::lemma_div_multiples_vanish(y, u);
    vstd::arithmetic::div_mod::lemma_div_multiples_vanish(-y, u);
    assert(rotated(v, quarter_left()).x == quot_toward_zero(x * 0 - y * u, u));
    assert(rotated(v, quarter_left()).y == quot_toward_zero(x * u + y * 0, u));
    assert(rotated(v, quarter_right()).x == quot_toward_zero(x * 0 - y * (-u), u));
    assert(rotated(v, quarter_right()).y == quot_toward_zero(x * (-u) + y * 0, u));
    assert(u * x >= 0 <==> x >= 0) by (nonlinear_arith)
        requires
            u > 0,
    ;
    assert(u * y >= 0 <==> y >= 0) by (nonlinear_arith)
        requires
            u > 0,
    ;
    assert(-(u * x) == u * (-x) && -(u * y) == u * (-y)) by (nonlinear_arith);
}

/// The number `v`, or the nearest number within `limit` of zero.
pub open spec fn confined_to(v: int, limit: int) -> int {
    if v < -limit {
        -limit
    } else if v > limit {
        limit
    } else {
        v
    }
}

fn confine(v: i64, limit: i64) -> (out: i64)
    requires
        limit >= 0,
    ensures
        out == confined_to(v as int, limit as int),
{
    if v < -limit {
        -limit
    } else if v > limit {
        limit
    } else {
        v
    }
}

impl Camera {
    /// The camera stands within the limits of the world, and its angle lies
    /// within them too: it can be steered, and it can cast.
    pub open spec fn in_limits(&self) -> bool {
        self.transform.0.within(WORLD_LIMIT as int) && -WORLD_LIMIT <= self.rotation
            <= WORLD_LIMIT
    }

    /// The camera, brought back within the limits of the world where it has
    /// left them: a coordinate or an angle beyond a limit is put on the limit.
    pub fn confined(&self) -> (out: Camera)
        ensures
            out.in_limits(),
            out.transform.0.x == confined_to(self.transform.0.x as int, WORLD_LIMIT as int),
            out.transform.0.y == confined_to(self.transform.0.y as int, WORLD_LIMIT as int),
            out.rotation == confined_to(self.rotation as int, WORLD_LIMIT as int),
            out.horizontal_view_angle == self.horizontal_view_angle,
            out.vertical_view_angle == self.vertical_view_angle,
            out.view_width == self.view_width,
    {
        Camera {
            transform: Transform::new(
                confine(self.transform.0.x, WORLD_LIMIT),
                confine(self.transform.0.y, WORLD_LIMIT),
            ),
            rotation: confine(self.rotation, WORLD_LIMIT),
            horizontal_view_angle: self.horizontal_view_angle,
            vertical_view_angle: self.vertical_view_angle,
            view_width: self.view_width,
        }
    }

    /// Moves or turns the camera as `control` asks, for the time `dt` in
    /// fixed-point seconds; `facing` is the unit vector of the angle at which
    /// the camera faces.
    pub fn steer(&mut self, control: Control, dt: i64, facing: &Angle)
        requires
            old(self).in_limits(),
            0 <= dt <= TICK_LIMIT,
            facing.0.within(UNIT as int),
        ensures
            final(self).transform.0.x == old(self).transform.0.x + displacement(
                control,
                dt as int,
                facing.0@,
            ).x,
            final(self).transform.0.y == old(self).transform.0.y + displacement(
                control,
                dt as int,
                facing.0@,
            ).y,
            final(self).rotation == old(self).rotation + turn(control, dt as int),
            final(self).horizontal_view_angle == old(self).horizontal_view_angle,
            final(self).vertical_view_angle == old(self).vertical_view_angle,
            final(self).view_width == old(self).view_width,
    {
        let amount: i64 = SPEED * dt;
        let position: Vec2f = self.transform.0;
        proof {
            let reach: int = 128849018880;
            let side = rotated(facing.0@, quarter_left());
            let other = rotated(facing.0@, quarter_right());
            lemma_quarter_turn(facing.0@);
            lemma_can_scale(facing.0.x as int, amount as int, UNIT as int, reach);
            lemma_can_scale(facing.0.y as int, amount as int, UNIT as int, reach);
            lemma_can_scale(facing.0.x as int, -amount, UNIT as int, reach);
            lemma_can_scale(facing.0.y as int, -amount, UNIT as int, reach);
            lemma_can_scale(side.x, amount as int, UNIT as int, reach);
            lemma_can_scale(side.y, amount as int, UNIT as int, reach);
            lemma_can_scale(other.x, amount as int, UNIT as int, reach);
            lemma_can_scale(other.y, amount as int, UNIT as int, reach);
        }
        match control {
            Control::Forward => {
                let step: Vec2f = facing.0.scaled(amount);
                self.transform = Transform(position.plus(&step));
            },
            Control::Backward => {
                let step: Vec2f = facing.0.scaled(-amount);
                self.transform = Transform(position.plus(&step));
            },
            Control::StrafeLeft => {
                let side: Vec2f = facing.0.rotate(&Angle::new(0, UNIT));
                let step: Vec2f = side.scaled(amount);
                self.transform = Transform(position.plus(&step));
            },
            Control::StrafeRight => {
                let side: Vec2f = facing.0.rotate(&Angle::new(0, -UNIT));
                let step: Vec2f = side.scaled(amount);
                self.transform = Transform(position.plus(&step));
            },
            Control::TurnLeft => {
                self.rotation = self.rotation + TURN_RATE * dt;
            },
            Control::TurnRight => {
                self.rotation = self.rotation - TURN_RATE * dt;
            },
        }
    }
}

} // verus!
