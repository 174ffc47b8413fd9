use raycaster::math::{div_toward_zero, isqrt, Angle, DegenerateVector, Vec2, Vec2f, UNIT};
use raycaster::stepping::{
    edge_faced, entered_cell, is_on_edge, next_boundary, nudge, tile_of,
};

fn at(x: i64, y: i64) -> Vec2f {
    Vec2::new(x, y)
}

#[test]
fn integer_square_roots() {
    assert_eq!(isqrt(0), 0);
    assert_eq!(isqrt(1), 1);
    assert_eq!(isqrt(3), 1);
    assert_eq!(isqrt(4), 2);
    assert_eq!(isqrt(99), 9);
    assert_eq!(isqrt(100), 10);
    assert_eq!(isqrt(1 << 64), 1 << 32);
    assert_eq!(isqrt((1 << 64) - 1), (1 << 32) - 1);
    assert_eq!(isqrt(u128::MAX), u64::MAX);
}

#[test]
fn division_rounds_toward_zero() {
    assert_eq!(div_toward_zero(7, 2), 3);
    assert_eq!(div_toward_zero(-7, 2), -3);
    assert_eq!(div_toward_zero(6, 3), 2);
    assert_eq!(div_toward_zero(-6, 3), -2);
    assert_eq!(div_toward_zero(0, 5), 0);
    assert_eq!(div_toward_zero(-1, 5), 0);
}

#[test]
fn pairs_of_any_type() {
    let words = Vec2::new("left", "right");
    assert_eq!(words.x, "left");
    assert_eq!(words.y, "right");
    let point = Vec2::new(3u8, 4u8);
    assert_eq!(point.x, 3);
    assert_eq!(point.y, 4);
}

#[test]
fn distance_and_magnitude() {
    let origin = at(0, 0);
    assert_eq!(origin.distance(&at(3 * UNIT, 4 * UNIT)), 5 * UNIT);
    assert_eq!(at(3 * UNIT, 4 * UNIT).distance(&origin), 5 * UNIT);
    assert_eq!(at(UNIT, UNIT).distance(&at(UNIT, UNIT)), 0);
    assert_eq!(origin.distance(&at(1, 1)), 1);
    assert_eq!(origin.distance(&at(2, 2)), 2);
    assert_eq!(at(-UNIT, 0).distance(&at(UNIT, 0)), 2 * UNIT);
    assert_eq!(at(3 * UNIT, -4 * UNIT).magnitude(), 5 * UNIT);
    assert_eq!(at(0, 0).magnitude(), 0);
    assert_eq!(at(UNIT, UNIT).magnitude(), 92681);
}

#[test]
fn vectors_of_a_given_magnitude() {
    let v = at(3 * UNIT, 4 * UNIT);
    let long = v.of_magnitude(10 * UNIT).unwrap();
    assert_eq!((long.x, long.y), (6 * UNIT, 8 * UNIT));
    let back = v.of_magnitude(-5 * UNIT).unwrap();
    assert_eq!((back.x, back.y), (-3 * UNIT, -4 * UNIT));
    let unit = v.forward().unwrap();
    assert_eq!((unit.x, unit.y), (39321, 52428));
    let down = at(0, -7).forward().unwrap();
    assert_eq!((down.x, down.y), (0, -UNIT));
    assert!(unit.magnitude() <= UNIT);
    assert!(unit.magnitude() >= UNIT - 2);
}

#[test]
fn short_vectors_get_the_length_asked_for() {
    let diagonal = at(1, 1).forward().unwrap();
    assert_eq!((diagonal.x, diagonal.y), (46340, 46340));
    assert_eq!(diagonal.magnitude(), 65534);
    let steep = at(1, 2).forward().unwrap();
    assert_eq!((steep.x, steep.y), (29308, 58617));
    let back = at(-2, 1).forward().unwrap();
    assert_eq!((back.x, back.y), (-58617, 29308));
    let long = at(1, -1).of_magnitude(10 * UNIT).unwrap();
    assert_eq!((long.x, long.y), (463409, -463409));
    let none = at(5, 7).of_magnitude(0).unwrap();
    assert_eq!((none.x, none.y), (0, 0));
    for x in -40..41i64 {
        for y in -40..41i64 {
            if x == 0 && y == 0 {
                continue;
            }
            let unit = at(x, y).forward().unwrap();
            let square = unit.x * unit.x + unit.y * unit.y;
            let ring = (unit.x.abs() + 1) * (unit.x.abs() + 1)
                + (unit.y.abs() + 1) * (unit.y.abs() + 1);
            assert!(square <= UNIT * UNIT);
            assert!(ring > UNIT * UNIT);
            assert!(unit.magnitude() >= UNIT - 2);
            assert_eq!(unit.x.signum(), if unit.x == 0 { 0 } else { x.signum() });
            assert_eq!(unit.y.signum(), if unit.y == 0 { 0 } else { y.signum() });
        }
    }
}

#[test]
fn multiples_beyond_the_unit_square() {
    let doubled = at(3 * UNIT / 2, -2 * UNIT).scaled(2 * UNIT);
    assert_eq!((doubled.x, doubled.y), (3 * UNIT, -4 * UNIT));
    let turned = at(3 * UNIT / 2, -2 * UNIT).scaled(-2 * UNIT);
    assert_eq!((turned.x, turned.y), (-3 * UNIT, 4 * UNIT));
    let far = at(1000 * UNIT, 7).scaled(1000 * UNIT);
    assert_eq!((far.x, far.y), (1_000_000 * UNIT, 7000));
}

#[test]
fn zero_vector_has_no_direction() {
    assert_eq!(at(0, 0).forward().err(), Some(DegenerateVector));
    assert_eq!(at(0, 0).of_magnitude(UNIT).err(), Some(DegenerateVector));
    assert!(at(0, 1).forward().is_ok());
}

#[test]
fn rotation_replaces_zero_coordinates() {
    let quarter = Angle::new(0, UNIT);
    let turned = at(UNIT, 0).rotate(&quarter);
    assert_eq!((turned.x, turned.y), (-1, UNIT));
    let still = at(0, 0).rotate(&Angle::new(UNIT, 0));
    assert_eq!((still.x, still.y), (1, 1));
}

#[test]
fn rotation_by_an_eighth_turn() {
    let eighth = Angle::new(46341, 46341);
    let turned = at(UNIT, UNIT).rotate(&eighth);
    assert_eq!((turned.x, turned.y), (0, 92682));
    let other = at(2 * UNIT, -UNIT).rotate(&eighth);
    assert_eq!((other.x, other.y), (139023, 46341));
    let angle = Angle::new(UNIT, UNIT).rotate(&eighth);
    assert_eq!((angle.0.x, angle.0.y), (0, 92682));
}

#[test]
fn rotation_there_and_back() {
    for k in 0..72 {
        let radians = (5.0 * k as f64 + 1.0).to_radians();
        let cos = (radians.cos() * UNIT as f64).round() as i64;
        let sin = (radians.sin() * UNIT as f64).round() as i64;
        let there = Angle::new(cos, sin);
        let back = Angle::new(cos, -sin);
        for v in [at(3 * UNIT, -7 * UNIT), at(12345, 678901), at(-UNIT, 1), at(1 << 40, 5)] {
            let again = v.rotate(&there).rotate(&back);
            let square = (cos * cos + sin * sin) as i128;
            let unit = (UNIT as i128) * (UNIT as i128);
            let off_x = unit * again.x as i128 - v.x as i128 * square;
            let off_y = unit * again.y as i128 - v.y as i128 * square;
            assert!(off_x.abs() < 5 * unit);
            assert!(off_y.abs() < 5 * unit);
        }
    }
    let quarter = Angle::new(0, UNIT);
    let v = at(3 * UNIT, 4 * UNIT);
    let again = v.rotate(&quarter).rotate(&Angle::new(0, -UNIT));
    assert_eq!((again.x, again.y), (3 * UNIT, 4 * UNIT));
}

#[test]
fn sums_and_multiples() {
    let sum = at(3, -4).plus(&at(10, 20));
    assert_eq!((sum.x, sum.y), (13, 16));
    let half = at(3 * UNIT, -UNIT).scaled(UNIT / 2);
    assert_eq!((half.x, half.y), (3 * UNIT / 2, -UNIT / 2));
    let small = at(3, -3).scaled(UNIT / 2);
    assert_eq!((small.x, small.y), (1, -1));
    let far = at(UNIT, -UNIT / 2).scaled(100 * UNIT);
    assert_eq!((far.x, far.y), (100 * UNIT, -50 * UNIT));
}

#[test]
fn angles_and_slopes() {
    let angle = Angle::new(UNIT, UNIT / 2);
    assert_eq!(angle.get_vec().x, UNIT);
    assert_eq!(angle.get_vec().y, UNIT / 2);
    assert_eq!(angle.slope(), UNIT / 2);
    assert_eq!(Angle::new(-UNIT, UNIT / 2).slope(), -UNIT / 2);
    assert_eq!(Angle::new(-UNIT, -UNIT).slope(), UNIT);
    assert_eq!(Angle::new(3, 1).slope(), 21845);
    assert_eq!(Angle::new(3, -1).slope(), -21845);
    assert_eq!(Angle::new(5, 0).slope(), 0);
    assert_eq!(Angle::new(2 * UNIT, UNIT).slope(), UNIT / 2);
    assert_eq!(Angle::new(-1, 1000 * UNIT).slope(), -1000 * UNIT * UNIT);
}

#[test]
fn tile_boundaries() {
    assert!(is_on_edge(0));
    assert!(is_on_edge(UNIT));
    assert!(is_on_edge(-UNIT));
    assert!(is_on_edge(7 * UNIT));
    assert!(!is_on_edge(1));
    assert!(!is_on_edge(-1));
    assert!(!is_on_edge(UNIT + UNIT / 2));
    assert!(!is_on_edge(i64::MIN + 1));
    assert_eq!(tile_of(0), 0);
    assert_eq!(tile_of(UNIT - 1), 0);
    assert_eq!(tile_of(UNIT), 1);
    assert_eq!(tile_of(-1), -1);
    assert_eq!(tile_of(-UNIT), -1);
    assert_eq!(tile_of(-UNIT - 1), -2);
    assert_eq!(edge_faced(UNIT + 5, 1), 2 * UNIT);
    assert_eq!(edge_faced(UNIT + 5, 0), 2 * UNIT);
    assert_eq!(edge_faced(UNIT + 5, -1), UNIT);
    assert_eq!(edge_faced(UNIT, 1), UNIT);
    assert_eq!(edge_faced(UNIT, -1), UNIT);
    assert_eq!(edge_faced(-5, 1), 0);
    assert_eq!(edge_faced(-5, -1), -UNIT);
}

#[test]
fn nudge_takes_coordinates_off_the_edges() {
    let corner = at(2 * UNIT, 2 * UNIT);
    let up_right = nudge(&corner, &Angle::new(58617, 29309));
    assert_eq!((up_right.x, up_right.y), (2 * UNIT + 1, 2 * UNIT + 1));
    let down_left = nudge(&corner, &Angle::new(-5, -9));
    assert_eq!((down_left.x, down_left.y), (2 * UNIT - 1, 2 * UNIT - 1));
    assert!(!is_on_edge(up_right.x) && !is_on_edge(up_right.y));
    assert!(!is_on_edge(down_left.x) && !is_on_edge(down_left.y));
    let inside = nudge(&at(UNIT + 7, 3 * UNIT), &Angle::new(UNIT, -UNIT));
    assert_eq!((inside.x, inside.y), (UNIT + 7, 3 * UNIT - 1));
    let along = nudge(&at(2 * UNIT, UNIT + 9), &Angle::new(0, UNIT));
    assert_eq!((along.x, along.y), (2 * UNIT, UNIT + 9));
}

#[test]
fn next_boundary_in_each_quadrant() {
    let p = at(UNIT + UNIT / 4, UNIT + UNIT / 2);
    // Up and to the right, flat: the wall to the right comes first.
    let a = next_boundary(&p, &Angle::new(4, 1));
    assert_eq!((a.x, a.y), (2 * UNIT, UNIT + UNIT / 2 + 3 * UNIT / 16));
    // Up and to the right, steep: the boundary above comes first.
    let b = next_boundary(&p, &Angle::new(1, 4));
    assert_eq!((b.x, b.y), (UNIT + UNIT / 4 + UNIT / 8, 2 * UNIT));
    // Up and to the left.
    let c = next_boundary(&p, &Angle::new(-1, 1));
    assert_eq!((c.x, c.y), (UNIT, UNIT + 3 * UNIT / 4));
    // Down and to the left.
    let d = next_boundary(&p, &Angle::new(-1, -1));
    assert_eq!((d.x, d.y), (UNIT, UNIT + UNIT / 4));
    // Down and to the right.
    let e = next_boundary(&p, &Angle::new(1, -1));
    assert_eq!((e.x, e.y), (UNIT + 3 * UNIT / 4, UNIT));
    // Along the axes.
    let f = next_boundary(&p, &Angle::new(0, -3));
    assert_eq!((f.x, f.y), (UNIT + UNIT / 4, UNIT));
    let g = next_boundary(&p, &Angle::new(-3, 0));
    assert_eq!((g.x, g.y), (UNIT, UNIT + UNIT / 2));
    // No direction.
    let h = next_boundary(&p, &Angle::new(0, 0));
    assert_eq!((h.x, h.y), (p.x, p.y));
}

#[test]
fn next_boundary_through_a_corner() {
    let centre = at(UNIT + UNIT / 2, UNIT + UNIT / 2);
    let up = next_boundary(&centre, &Angle::new(46341, 46341));
    assert_eq!((up.x, up.y), (2 * UNIT, 2 * UNIT));
    let down = next_boundary(&centre, &Angle::new(-7, -7));
    assert_eq!((down.x, down.y), (UNIT, UNIT));
    let mixed = next_boundary(&centre, &Angle::new(-7, 7));
    assert_eq!((mixed.x, mixed.y), (UNIT, 2 * UNIT));
}

#[test]
fn next_boundary_rounds_toward_the_start() {
    let p = at(UNIT + 1, UNIT + 1);
    let up = next_boundary(&p, &Angle::new(3, 1));
    assert_eq!((up.x, up.y), (2 * UNIT, UNIT + 1 + 21845));
    let down = next_boundary(&at(UNIT + 1, 2 * UNIT - 1), &Angle::new(3, -1));
    assert_eq!((down.x, down.y), (2 * UNIT, 2 * UNIT - 1 - 21845));
}

#[test]
fn a_point_on_an_edge_is_its_own_next_boundary() {
    let p = at(2 * UNIT, UNIT + 5);
    let same = next_boundary(&p, &Angle::new(UNIT, 1));
    assert_eq!((same.x, same.y), (p.x, p.y));
    let moved = next_boundary(&nudge(&p, &Angle::new(UNIT, 1)), &Angle::new(UNIT, 1));
    assert_eq!((moved.x, moved.y), (3 * UNIT, UNIT + 5));
}

#[test]
fn entered_cells() {
    let right = entered_cell(&at(3 * UNIT, UNIT + 5), &Angle::new(1, 1));
    assert_eq!((right.x, right.y), (3, 1));
    let left = entered_cell(&at(3 * UNIT, UNIT + 5), &Angle::new(-1, 1));
    assert_eq!((left.x, left.y), (2, 1));
    let corner = entered_cell(&at(3 * UNIT, 2 * UNIT), &Angle::new(-1, -1));
    assert_eq!((corner.x, corner.y), (2, 1));
    let inside = entered_cell(&at(3 * UNIT + 1, 2 * UNIT + 1), &Angle::new(-1, -1));
    assert_eq!((inside.x, inside.y), (3, 2));
    let clamped = entered_cell(&at(0, -5 * UNIT), &Angle::new(-1, 1));
    assert_eq!((clamped.x, clamped.y), (0, 0));
    let still = entered_cell(&at(3 * UNIT, 4 * UNIT), &Angle::new(0, 0));
    assert_eq!((still.x, still.y), (3, 4));
}
