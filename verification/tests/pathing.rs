use chain_lockers::builder::{boat_point, hold_point, ObstacleGridBuilder};
use chain_lockers::grid::{Grid, GridPoint};
use chain_lockers::pathfinder::PathFinder;
use chain_lockers::{GRID_HEIGHT, GRID_WIDTH};

fn ship_grid(obstacles: Vec<GridPoint>) -> Grid {
    ObstacleGridBuilder::build(&obstacles, GRID_WIDTH, GRID_HEIGHT, hold_point())
}

fn path_len(g: &Grid, a: GridPoint, b: GridPoint) -> Option<usize> {
    PathFinder::get_path(g, a, b).map(|p| p.len())
}

fn assert_valid_path(g: &Grid, path: &Vec<GridPoint>, a: GridPoint, b: GridPoint) {
    assert!(!path.is_empty());
    assert_eq!(path[0], a);
    assert_eq!(path[path.len() - 1], b);
    for w in path.windows(2) {
        let dx = (w[0].x as i64 - w[1].x as i64).abs();
        let dy = (w[0].y as i64 - w[1].y as i64).abs();
        assert_eq!(dx + dy, 1, "consecutive waypoints must be orthogonally adjacent");
    }
    for p in path.iter() {
        assert!(!g.is_blocked(p.x, p.y), "path crosses a blocked cell");
    }
}

#[test]
fn open_ship_grid_straight_line() {
    let g = ship_grid(vec![]);
    let path = PathFinder::get_path(&g, boat_point(), hold_point()).expect("route must exist");
    assert_valid_path(&g, &path, boat_point(), hold_point());
    assert_eq!(path.len(), 27);
}

#[test]
fn single_obstacle_detour_two_extra_steps() {
    let g = ship_grid(vec![GridPoint::new(5, 5)]);
    let path = PathFinder::get_path(&g, boat_point(), hold_point()).expect("route must exist");
    assert_valid_path(&g, &path, boat_point(), hold_point());
    assert_eq!(path.len(), 29);
}

#[test]
fn blocked_row_segment_detours_around() {
    // cells (5,5) through (20,5) blocked: the row itself is severed, but
    // 4-directional movement still passes one row above or below it
    let obstacles: Vec<GridPoint> = (5..=20).map(|x| GridPoint::new(x, 5)).collect();
    let g = ship_grid(obstacles);
    let path = PathFinder::get_path(&g, boat_point(), hold_point()).expect("detour must exist");
    assert_valid_path(&g, &path, boat_point(), hold_point());
    assert_eq!(path.len(), 29);
}

#[test]
fn full_column_wall_severs_route() {
    let mut obstacles = Vec::new();
    for y in 0..GRID_HEIGHT {
        obstacles.push(GridPoint::new(10, y));
    }
    let g = ship_grid(obstacles);
    assert!(PathFinder::get_path(&g, boat_point(), hold_point()).is_none());
}

#[test]
fn blocked_start_returns_no_path() {
    let mut g = Grid::new(4, 4, false);
    g.set(0, 0, true);
    assert!(PathFinder::get_path(&g, GridPoint::new(0, 0), GridPoint::new(3, 3)).is_none());
}

#[test]
fn blocked_end_returns_no_path() {
    let mut g = Grid::new(4, 4, false);
    g.set(3, 3, true);
    assert!(PathFinder::get_path(&g, GridPoint::new(0, 0), GridPoint::new(3, 3)).is_none());
}

#[test]
fn start_equals_end_single_cell_path() {
    let g = Grid::new(4, 4, false);
    let p = PathFinder::get_path(&g, GridPoint::new(2, 1), GridPoint::new(2, 1)).unwrap();
    assert_eq!(p, vec![GridPoint::new(2, 1)]);
}

#[test]
fn reachability_is_symmetric_in_length() {
    let mut g = Grid::new(7, 5, false);
    for &(x, y) in &[(1, 1), (1, 2), (3, 0), (3, 1), (3, 2), (3, 3), (5, 4), (5, 3)] {
        g.set(x, y, true);
    }
    let a = GridPoint::new(0, 0);
    let b = GridPoint::new(6, 4);
    let ab = path_len(&g, a, b).expect("forward route must exist");
    let ba = path_len(&g, b, a).expect("backward route must exist");
    assert_eq!(ab, ba);
}

#[test]
fn adding_obstacle_never_shortens_path() {
    let a = GridPoint::new(0, 2);
    let b = GridPoint::new(6, 2);
    let clear = Grid::new(7, 5, false);
    let before = path_len(&clear, a, b).unwrap();
    let mut blocked = Grid::new(7, 5, false);
    blocked.set(3, 2, true);
    let after = path_len(&blocked, a, b).unwrap();
    assert!(after >= before);
    assert_eq!(before, 7);
    assert_eq!(after, 9);
}

#[test]
fn diagonal_movement_shortens_when_allowed() {
    let g = Grid::new(5, 5, true);
    let p = PathFinder::get_path(&g, GridPoint::new(0, 0), GridPoint::new(4, 4)).unwrap();
    assert_eq!(p.len(), 5);
}

#[test]
fn diagonal_corner_cutting_is_prevented() {
    let mut g = Grid::new(2, 2, true);
    g.set(1, 0, true);
    g.set(0, 1, true);
    // both orthogonal neighbors of the diagonal move are blocked, so the
    // squeeze through the corner is illegal and no route remains
    assert!(PathFinder::get_path(&g, GridPoint::new(0, 0), GridPoint::new(1, 1)).is_none());
}

#[test]
fn out_of_bounds_cells_report_unblocked() {
    let mut g = Grid::new(3, 3, false);
    g.set(2, 2, true);
    assert!(g.is_blocked(2, 2));
    assert!(!g.is_blocked(3, 0));
    assert!(!g.is_blocked(0, 7));
}

#[test]
fn set_is_idempotent_and_local() {
    let mut g = Grid::new(3, 3, false);
    g.set(1, 1, true);
    g.set(1, 1, true);
    assert!(g.is_blocked(1, 1));
    assert!(!g.is_blocked(0, 1));
    g.set(1, 1, false);
    assert!(!g.is_blocked(1, 1));
}

#[test]
fn builder_marks_bulkhead_with_single_gap() {
    let g = ship_grid(vec![GridPoint::new(4, 7)]);
    assert!(g.is_blocked(4, 7));
    assert!(!g.is_blocked(4, 6));
    for y in 0..GRID_HEIGHT {
        if y == hold_point().y {
            assert!(!g.is_blocked(GRID_WIDTH, y), "exit gap must stay open");
        } else {
            assert!(g.is_blocked(GRID_WIDTH, y), "bulkhead must be blocked at row {y}");
        }
    }
}

#[test]
fn boundary_gap_route_exists_under_interior_clutter() {
    // obstacles that hinder but do not separate the two halves
    let mut obstacles = Vec::new();
    for y in 0..GRID_HEIGHT {
        if y != 9 {
            obstacles.push(GridPoint::new(12, y));
        }
    }
    let g = ship_grid(obstacles);
    let path = PathFinder::get_path(&g, boat_point(), hold_point()).expect("gap route must exist");
    assert_valid_path(&g, &path, boat_point(), hold_point());
}
