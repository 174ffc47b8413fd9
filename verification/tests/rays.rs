use raycaster::frame::perpendicular_distance;
use raycaster::grid::{Grid, MapEntity, MapT};
use raycaster::math::{Angle, Vec2, Vec2f, UNIT};
use raycaster::raycasting::{cast_ray, RayError};
use raycaster::stepping::{entered_cell, is_on_edge, next_boundary, nudge};

fn unit_toward(degrees: f64) -> Angle {
    let radians = degrees.to_radians();
    Angle::new(
        (radians.cos() * UNIT as f64).round() as i64,
        (radians.sin() * UNIT as f64).round() as i64,
    )
}

fn walled(width: usize, height: usize) -> Grid {
    let mut cells = Vec::new();
    for c in 0..width {
        let mut column = Vec::new();
        for r in 0..height {
            let rim = c == 0 || c == width - 1 || r == 0 || r == height - 1;
            column.push(if rim { MapEntity::Wall } else { MapEntity::Floor });
        }
        cells.push(column);
    }
    Grid::new(cells).unwrap()
}

#[test]
fn every_step_advances() {
    for k in 0..72 {
        let angle = unit_toward(5.0 * k as f64 + 1.0);
        let mut pos: Vec2f = Vec2::new(5 * UNIT, 5 * UNIT + 77);
        for _ in 0..12 {
            let next = next_boundary(&nudge(&pos, &angle), &angle);
            let dx = (next.x - pos.x) * angle.0.x.signum();
            let dy = (next.y - pos.y) * angle.0.y.signum();
            assert!(dx >= 0 && dy >= 0);
            assert!(dx > 0 || dy > 0);
            assert!(is_on_edge(next.x) || is_on_edge(next.y));
            pos = next;
        }
    }
}

#[test]
fn steps_enter_neighbouring_tiles() {
    for k in 0..72 {
        let angle = unit_toward(5.0 * k as f64 + 2.5);
        let mut pos: Vec2f = Vec2::new(40 * UNIT + 3, 40 * UNIT + UNIT / 3);
        let mut cell = entered_cell(&pos, &angle);
        for _ in 0..20 {
            let next = next_boundary(&nudge(&pos, &angle), &angle);
            let entered = entered_cell(&next, &angle);
            let dc = (entered.x - cell.x) * angle.0.x.signum();
            let dr = (entered.y - cell.y) * angle.0.y.signum();
            assert!(dc == 0 || dc == 1);
            assert!(dr == 0 || dr == 1);
            assert!(dc + dr >= 1);
            pos = next;
            cell = entered;
        }
    }
}

#[test]
fn rays_stay_on_course() {
    let grid = <Grid as MapT>::default();
    let origin: Vec2f = Vec2::new(6 * UNIT + 1234, 5 * UNIT + 4321);
    for k in 0..360 {
        let angle = unit_toward(k as f64 + 0.25);
        let hit = cast_ray(&origin, &angle, &grid);
        assert_eq!(hit.fault, None);
        assert!(grid.is_blocking(hit.cell.x, hit.cell.y));
        // The end lies on the rim of the tile that was hit, at the distance
        // found, as far as the rounding allows.
        let unit = UNIT as f64;
        let ends_x = origin.x as f64 + hit.length as f64 * angle.0.x as f64 / unit;
        let ends_y = origin.y as f64 + hit.length as f64 * angle.0.y as f64 / unit;
        let slack = 4.0 * hit.steps as f64 + 4.0;
        let low_x = (hit.cell.x * UNIT) as f64 - slack;
        let low_y = (hit.cell.y * UNIT) as f64 - slack;
        assert!(low_x <= ends_x && ends_x <= low_x + unit + 2.0 * slack);
        assert!(low_y <= ends_y && ends_y <= low_y + unit + 2.0 * slack);
    }
}

#[test]
fn mirrored_rays_from_the_middle_line() {
    let grid = walled(12, 10);
    let origin: Vec2f = Vec2::new(2 * UNIT + 999, 5 * UNIT);
    let ahead = Angle::new(UNIT, 0);
    for k in 0..90 {
        let up = unit_toward(k as f64);
        let down = Angle::new(up.0.x, -up.0.y);
        let high = cast_ray(&origin, &up, &grid);
        let low = cast_ray(&origin, &down, &grid);
        assert_eq!(high.length, low.length);
        assert_eq!(high.steps, low.steps);
        assert_eq!(high.fault, low.fault);
        assert_eq!(high.cell.x, low.cell.x);
        if up.0.y != 0 {
            assert_eq!(high.cell.y, 9 - low.cell.y);
        }
        assert_eq!(
            perpendicular_distance(high.length, &up, &ahead),
            perpendicular_distance(low.length, &down, &ahead)
        );
    }
}

#[test]
fn directions_of_any_size() {
    let grid = walled(9, 8);
    let origin: Vec2f = Vec2::new(3 * UNIT / 2, 3 * UNIT / 2);
    let east = cast_ray(&origin, &Angle::new(i64::MAX, 0), &grid);
    assert_eq!(east.length, 13 * UNIT / 2);
    let west = cast_ray(&origin, &Angle::new(i64::MIN, 0), &grid);
    assert_eq!(west.length, UNIT / 2);
    assert_eq!((west.cell.x, west.cell.y), (0, 1));
    let diagonal = cast_ray(&origin, &Angle::new(i64::MAX, i64::MAX), &grid);
    assert_eq!((diagonal.cell.x, diagonal.cell.y), (7, 7));
    assert_eq!(diagonal.steps, 6);
    let tiny = cast_ray(&origin, &Angle::new(1, 0), &grid);
    assert_eq!(tiny.length, east.length);
    let steep = cast_ray(&origin, &Angle::new(1, i64::MIN), &grid);
    assert_eq!((steep.cell.x, steep.cell.y), (1, 0));
    assert_eq!(steep.length, UNIT / 2);
}

#[test]
fn camera_in_a_wall_or_outside() {
    let grid = walled(9, 8);
    // Inside the rim wall: the next tile entered decides, as anywhere.
    let in_wall: Vec2f = Vec2::new(UNIT / 2, 3 * UNIT + UNIT / 2);
    let inward = cast_ray(&in_wall, &Angle::new(UNIT, 0), &grid);
    assert_eq!(inward.fault, None);
    assert_eq!(inward.cell.x, 8);
    let outward = cast_ray(&in_wall, &Angle::new(-UNIT, 0), &grid);
    assert_eq!(outward.fault, None);
    assert_eq!(outward.length, UNIT / 2);
    // Far outside the grid: whatever lies outside stops the ray at once.
    let outside: Vec2f = Vec2::new(100 * UNIT + 5, 100 * UNIT + 5);
    let lost = cast_ray(&outside, &Angle::new(UNIT, UNIT), &grid);
    assert_eq!(lost.fault, None);
    assert_eq!(lost.steps, 1);
    assert_eq!((lost.cell.x, lost.cell.y), (101, 101));
}

#[test]
fn empty_grid_allows_no_step() {
    let grid = Grid::new(Vec::new()).unwrap();
    let origin: Vec2f = Vec2::new(5, 5);
    let hit = cast_ray(&origin, &Angle::new(UNIT, 0), &grid);
    assert_eq!(hit.steps, 0);
    assert_eq!(hit.length, 0);
    assert_eq!(hit.fault, Some(RayError::StepCapExceeded));
}
