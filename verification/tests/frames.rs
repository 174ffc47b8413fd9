use raycaster::control::Control;
use raycaster::frame::{perpendicular_distance, wall_strip, WallStrip};
use raycaster::grid::{Grid, MapEntity, MapT};
use raycaster::math::{Angle, UNIT};
use raycaster::raycasting::{Camera, Transform};

fn camera_at(x: i64, y: i64) -> Camera {
    Camera {
        transform: Transform::new(x, y),
        rotation: 0,
        horizontal_view_angle: UNIT,
        vertical_view_angle: UNIT,
        view_width: 8,
    }
}

#[test]
fn distance_straight_ahead() {
    let ahead = Angle::new(UNIT, 0);
    assert_eq!(perpendicular_distance(10 * UNIT, &ahead, &ahead), 10 * UNIT);
    let sixth = Angle::new(32768, 56756);
    assert_eq!(perpendicular_distance(10 * UNIT, &sixth, &ahead), 5 * UNIT);
    let mirrored = Angle::new(32768, -56756);
    assert_eq!(perpendicular_distance(10 * UNIT, &mirrored, &ahead), 5 * UNIT);
    let square = Angle::new(0, UNIT);
    assert_eq!(perpendicular_distance(10 * UNIT, &square, &ahead), 0);
    let behind = Angle::new(-UNIT, 0);
    assert_eq!(perpendicular_distance(3, &behind, &ahead), -3);
    assert_eq!(perpendicular_distance(7, &sixth, &ahead), 3);
}

#[test]
fn wall_strips() {
    assert_eq!(wall_strip(2 * UNIT, 640, 640), WallStrip { top: 160, bottom: 480 });
    assert_eq!(wall_strip(UNIT, 640, 640), WallStrip { top: 0, bottom: 640 });
    assert_eq!(wall_strip(UNIT / 2, 640, 640), WallStrip { top: 0, bottom: 640 });
    assert_eq!(wall_strip(0, 640, 640), WallStrip { top: 0, bottom: 640 });
    assert_eq!(wall_strip(-5, 640, 640), WallStrip { top: 0, bottom: 640 });
    assert_eq!(wall_strip(13 * UNIT / 2, 640, 640), WallStrip { top: 271, bottom: 369 });
    assert_eq!(wall_strip(3 * UNIT, 480, 640), WallStrip { top: 133, bottom: 346 });
    assert_eq!(wall_strip(i64::MAX, 640, 640), WallStrip { top: 320, bottom: 320 });
}

#[test]
fn walking_and_turning() {
    let tick = 1092;
    let east = Angle::new(UNIT, 0);
    let mut cam = camera_at(3 * UNIT, 3 * UNIT);
    cam.steer(Control::Forward, tick, &east);
    assert_eq!((cam.transform.0.x, cam.transform.0.y), (3 * UNIT + 32760, 3 * UNIT));
    cam.steer(Control::Backward, tick, &east);
    assert_eq!((cam.transform.0.x, cam.transform.0.y), (3 * UNIT, 3 * UNIT));
    cam.steer(Control::StrafeLeft, tick, &east);
    assert_eq!((cam.transform.0.x, cam.transform.0.y), (3 * UNIT, 3 * UNIT + 32760));
    cam.steer(Control::StrafeRight, tick, &east);
    assert_eq!((cam.transform.0.x, cam.transform.0.y), (3 * UNIT, 3 * UNIT));
    assert_eq!(cam.rotation, 0);
    cam.steer(Control::TurnLeft, tick, &east);
    assert_eq!(cam.rotation, 32760);
    cam.steer(Control::TurnRight, 2 * tick, &east);
    assert_eq!(cam.rotation, -32760);
    assert_eq!((cam.transform.0.x, cam.transform.0.y), (3 * UNIT, 3 * UNIT));
    assert_eq!(cam.view_width, 8);
    assert_eq!(cam.horizontal_view_angle, UNIT);
}

#[test]
fn cameras_are_kept_in_the_world() {
    let limit: i64 = 70368744177664;
    let inside = camera_at(3 * UNIT, -4 * UNIT).confined();
    assert_eq!((inside.transform.0.x, inside.transform.0.y), (3 * UNIT, -4 * UNIT));
    assert_eq!(inside.rotation, 0);
    let mut lost = camera_at(i64::MAX, i64::MIN);
    lost.rotation = limit + 1;
    let back = lost.confined();
    assert_eq!((back.transform.0.x, back.transform.0.y), (limit, -limit));
    assert_eq!(back.rotation, limit);
    assert_eq!(back.view_width, 8);
    assert_eq!(back.horizontal_view_angle, UNIT);
    let mut spun = camera_at(0, limit);
    spun.rotation = i64::MIN;
    let kept = spun.confined();
    assert_eq!((kept.transform.0.x, kept.transform.0.y), (0, limit));
    assert_eq!(kept.rotation, -limit);
}

#[test]
fn walking_askew() {
    let askew = Angle::new(39322, 52429);
    let mut cam = camera_at(0, 0);
    cam.steer(Control::Forward, UNIT, &askew);
    assert_eq!((cam.transform.0.x, cam.transform.0.y), (30 * 39322, 30 * 52429));
    let mut side = camera_at(0, 0);
    side.steer(Control::StrafeLeft, UNIT, &askew);
    assert_eq!((side.transform.0.x, side.transform.0.y), (-30 * 52429, 30 * 39322));
    let mut other = camera_at(0, 0);
    other.steer(Control::StrafeRight, UNIT, &askew);
    assert_eq!((other.transform.0.x, other.transform.0.y), (30 * 52429, -30 * 39322));
    let mut still = camera_at(5, 6);
    still.steer(Control::Forward, 0, &askew);
    assert_eq!((still.transform.0.x, still.transform.0.y), (5, 6));
}

#[test]
fn grids_must_be_rectangles() {
    let ragged = vec![vec![MapEntity::Wall; 3], vec![MapEntity::Wall; 2]];
    assert!(Grid::new(ragged).is_none());
    let empty = Grid::new(Vec::new()).unwrap();
    assert_eq!(empty.width(), 0);
    assert_eq!(empty.height(), 0);
    assert!(empty.is_blocking(0, 0));
    assert!(empty.has_wall_ring());
    let flat = Grid::new(vec![Vec::new(), Vec::new()]).unwrap();
    assert_eq!(flat.width(), 2);
    assert_eq!(flat.height(), 0);
    let one = Grid::new(vec![vec![MapEntity::Floor]]).unwrap();
    assert!(!one.is_blocking(0, 0));
    assert!(one.is_blocking(1, 0));
    assert!(one.is_blocking(0, 1));
    assert!(!one.has_wall_ring());
}

#[test]
fn only_walls_block() {
    let column = vec![MapEntity::Wall, MapEntity::Floor, MapEntity::Enemy, MapEntity::Player];
    let grid = Grid::new(vec![column]).unwrap();
    assert!(grid.is_blocking(0, 0));
    assert!(!grid.is_blocking(0, 1));
    assert!(!grid.is_blocking(0, 2));
    assert!(!grid.is_blocking(0, 3));
    assert!(grid.is_blocking(0, 4));
    assert!(grid.is_blocking(i64::MAX, 0));
    assert!(grid.is_blocking(0, i64::MIN));
}

#[test]
fn wall_rings() {
    assert!(<Grid as MapT>::default().has_wall_ring());
    let mut cells = Vec::new();
    for c in 0..4 {
        let mut column = Vec::new();
        for r in 0..5 {
            let rim = c == 0 || c == 3 || r == 0 || r == 4;
            let gap = c == 3 && r == 2;
            column.push(if rim && !gap { MapEntity::Wall } else { MapEntity::Floor });
        }
        cells.push(column);
    }
    assert!(!Grid::new(cells).unwrap().has_wall_ring());
}
