use nexus_engine::pathfinding::{
    find_path, find_path_with_limit, find_path_with_workspace, find_path_with_workspace_and_limit,
    has_line_of_sight, smooth_path, step_cost, PathfindingWorkspace,
};
use nexus_engine::world::{Grid, Region, Terrain, Tile};

fn grid_from_rows(rows: &[&str]) -> Grid {
    let height = rows.len() as u32;
    let width = rows.first().map_or(0, |row| row.len()) as u32;
    assert!(rows.iter().all(|row| row.len() == width as usize));

    let tiles = rows
        .iter()
        .flat_map(|row| row.chars())
        .map(|symbol| Tile {
            terrain: match symbol {
                'P' => Terrain::Plains,
                'M' => Terrain::Mountain,
                '#' => Terrain::DeepWater,
                _ => panic!("unknown artificial terrain symbol: {symbol}"),
            },
        })
        .collect();

    Grid {
        width,
        height,
        tiles,
        region_ids: Vec::new(),
        regions: Vec::<Region>::new(),
        resources: vec![None; (width * height) as usize],
        renewable_resources: Vec::new(),
    }
}

#[test]
fn finds_a_path_across_open_ground() {
    let grid = grid_from_rows(&["PPPPP", "PPPPP", "PPPPP"]);
    let path = find_path(&grid, (0, 1), (4, 1)).unwrap();

    assert_eq!(path.first(), Some(&(0, 1)));
    assert_eq!(path.last(), Some(&(4, 1)));
    assert_eq!(path.len(), 5);
}

#[test]
fn routes_around_an_obstacle() {
    let grid = grid_from_rows(&["PPPPP", "P###P", "PPPPP"]);
    let path = find_path(&grid, (0, 1), (4, 1)).unwrap();

    assert!(path
        .iter()
        .all(|&(x, y)| grid.get(x, y).unwrap().terrain.is_walkable()));
    assert!(path.len() > 5);
}

#[test]
fn returns_none_when_the_goal_is_isolated() {
    let grid = grid_from_rows(&["P#P", "#P#", "P#P"]);
    assert!(find_path(&grid, (0, 0), (1, 1)).is_none());
}

#[test]
fn start_equal_to_goal_returns_one_tile() {
    let grid = grid_from_rows(&["P"]);
    assert_eq!(find_path(&grid, (0, 0), (0, 0)), Some(vec![(0, 0)]));
}

#[test]
fn prefers_cheap_ground_over_a_shorter_mountain_route() {
    let grid = grid_from_rows(&["PPPPP", "PMMMP", "PPPPP"]);
    let path = find_path(&grid, (0, 1), (4, 1)).unwrap();

    assert!(path
        .iter()
        .all(|&(x, y)| grid.get(x, y).unwrap().terrain != Terrain::Mountain));
    assert_eq!(path.len(), 5);
}

#[test]
fn rejects_unwalkable_endpoints_and_out_of_bounds_coordinates() {
    let grid = grid_from_rows(&["P#"]);
    assert!(find_path(&grid, (0, 0), (1, 0)).is_none());
    assert!(find_path(&grid, (2, 0), (0, 0)).is_none());
}

#[test]
fn rejects_endpoints_in_different_known_regions() {
    let mut grid = grid_from_rows(&["PPP"]);
    grid.region_ids = vec![0, 0, 1];

    assert!(find_path(&grid, (0, 0), (2, 0)).is_none());
}

#[test]
fn finds_a_route_across_a_large_world() {
    let row = "P".repeat(256);
    let rows: Vec<_> = (0..256).map(|_| row.as_str()).collect();
    let grid = grid_from_rows(&rows);
    let path = find_path(&grid, (0, 0), (255, 255)).unwrap();

    assert_eq!(path.first(), Some(&(0, 0)));
    assert_eq!(path.last(), Some(&(255, 255)));
    assert_eq!(path.len(), 256);
}

#[test]
fn diagonal_movement_is_shorter_than_cardinal() {
    let row = "P".repeat(10);
    let rows: Vec<_> = (0..10).map(|_| row.as_str()).collect();
    let grid = grid_from_rows(&rows);

    let path = find_path(&grid, (0, 0), (9, 9)).unwrap();
    assert_eq!(path.len(), 10);
}

#[test]
fn diagonal_blocked_through_impassable_corner() {
    let grid = grid_from_rows(&["PP#", "PP#", "PPP"]);
    let path = find_path(&grid, (0, 0), (2, 2)).unwrap();

    assert!(path
        .iter()
        .all(|&(x, y)| grid.get(x, y).unwrap().terrain.is_walkable()));
    assert!(path.len() >= 4);
}

#[test]
fn smoothed_path_removes_collinear_points() {
    let grid = grid_from_rows(&["PPPPP", "PPPPP", "PPPPP"]);
    let path = find_path(&grid, (0, 1), (4, 1)).unwrap();
    let smoothed = smooth_path(&grid, path);

    assert_eq!(smoothed.first(), Some(&(0, 1)));
    assert_eq!(smoothed.last(), Some(&(4, 1)));
    assert_eq!(smoothed.len(), 2);
}

#[test]
fn smoothed_path_preserves_necessary_turns() {
    let grid = grid_from_rows(&["PPPPP", "P###P", "PPPPP"]);
    let path = find_path(&grid, (0, 1), (4, 1)).unwrap();
    let smoothed = smooth_path(&grid, path.clone());

    assert_eq!(smoothed.first(), Some(&(0, 1)));
    assert_eq!(smoothed.last(), Some(&(4, 1)));
    assert!(smoothed.len() < path.len());
    assert!(smoothed.len() >= 3);
    assert!(smoothed
        .iter()
        .all(|&(x, y)| grid.get(x, y).unwrap().terrain.is_walkable()));
}

#[test]
fn smoothed_path_segments_have_line_of_sight() {
    let grid = grid_from_rows(&["PPPPP", "P###P", "PPPPP"]);
    let path = find_path(&grid, (0, 1), (4, 1)).unwrap();
    let smoothed = smooth_path(&grid, path);

    for window in smoothed.windows(2) {
        assert!(has_line_of_sight(&grid, window[0], window[1]));
    }
}

#[test]
fn smoothed_path_collapses_diagonal_line() {
    let row = "P".repeat(10);
    let rows: Vec<_> = (0..10).map(|_| row.as_str()).collect();
    let grid = grid_from_rows(&rows);

    let path = find_path(&grid, (0, 0), (9, 9)).unwrap();
    let smoothed = smooth_path(&grid, path);

    assert_eq!(smoothed.len(), 2);
    assert_eq!(smoothed.first(), Some(&(0, 0)));
    assert_eq!(smoothed.last(), Some(&(9, 9)));
}

#[test]
fn respects_max_iterations_limit() {
    let row = "P".repeat(200);
    let rows: Vec<_> = (0..200).map(|_| row.as_str()).collect();
    let grid = grid_from_rows(&rows);

    let path = find_path_with_limit(&grid, (0, 0), (199, 199), Some(100));
    assert!(path.is_none());
}

#[test]
fn reusable_workspace_does_not_leak_state_between_searches() {
    let grid = grid_from_rows(&["PPPPPP", "PPPPPP", "PPPPPP", "PPPPPP"]);
    let mut workspace = PathfindingWorkspace::new();

    let first = find_path_with_workspace(&mut workspace, &grid, (0, 0), (5, 3));
    let second = find_path_with_workspace(&mut workspace, &grid, (5, 3), (0, 0));

    assert_eq!(first, find_path(&grid, (0, 0), (5, 3)));
    assert_eq!(second, find_path(&grid, (5, 3), (0, 0)));
}

#[test]
fn workspace_recovers_after_limited_search_failure() {
    let row = "P".repeat(32);
    let rows: Vec<_> = (0..32).map(|_| row.as_str()).collect();
    let grid = grid_from_rows(&rows);
    let mut workspace = PathfindingWorkspace::new();

    let failed =
        find_path_with_workspace_and_limit(&mut workspace, &grid, (0, 0), (31, 31), Some(1));
    assert!(failed.is_none());

    let recovered = find_path_with_workspace(&mut workspace, &grid, (0, 0), (31, 31));
    assert_eq!(recovered, find_path(&grid, (0, 0), (31, 31)));
}

#[test]
fn workspace_survives_generation_overflow() {
    let grid = grid_from_rows(&["PPPPPP", "PPPPPP", "PPPPPP", "PPPPPP"]);
    let mut workspace = PathfindingWorkspace::with_generation(u32::MAX);

    let path = find_path_with_workspace(&mut workspace, &grid, (0, 0), (5, 3));
    assert_eq!(path, find_path(&grid, (0, 0), (5, 3)));

    let path2 = find_path_with_workspace(&mut workspace, &grid, (5, 3), (0, 0));
    assert_eq!(path2, find_path(&grid, (5, 3), (0, 0)));
}

#[test]
fn step_cost_weighs_terrain_and_diagonals() {
    let grid = grid_from_rows(&["PM", "PP"]);
    assert_eq!(step_cost(&grid, (0, 0), (0, 1)), Some(100_000));
    assert_eq!(step_cost(&grid, (0, 1), (1, 0)), Some(424_260));
    assert_eq!(step_cost(&grid, (0, 0), (0, 0)), None);
    assert_eq!(step_cost(&grid, (0, 0), (2, 0)), None);
}

#[test]
fn line_of_sight_stops_at_water() {
    let grid = grid_from_rows(&["P#P"]);
    assert!(!has_line_of_sight(&grid, (0, 0), (2, 0)));
    assert!(has_line_of_sight(&grid, (0, 0), (0, 0)));
}

#[test]
fn found_routes_only_take_legal_moves() {
    let grid = grid_from_rows(&["PP#PP", "P#PP#", "PPP#P", "#PPPP"]);
    let path = find_path(&grid, (0, 0), (4, 3)).unwrap();
    for pair in path.windows(2) {
        let (a, b) = (pair[0], pair[1]);
        assert!(step_cost(&grid, a, b).is_some());
        if a.0 != b.0 && a.1 != b.1 {
            assert!(grid.get(a.0, b.1).unwrap().terrain.is_walkable());
            assert!(grid.get(b.0, a.1).unwrap().terrain.is_walkable());
        }
    }
}

fn route_cost_of(grid: &Grid, route: &[(u32, u32)]) -> u64 {
    route.windows(2).map(|pair| step_cost(grid, pair[0], pair[1]).unwrap()).sum()
}

#[test]
fn a_search_that_runs_out_of_expansions_reports_using_all_of_them() {
    let row = "P".repeat(32);
    let rows: Vec<_> = (0..32).map(|_| row.as_str()).collect();
    let grid = grid_from_rows(&rows);
    let mut workspace = PathfindingWorkspace::new();

    let failed = find_path_with_workspace_and_limit(&mut workspace, &grid, (0, 0), (31, 31), Some(3));
    assert!(failed.is_none());
    assert_eq!(workspace.expansions(), 3);

    let found = find_path_with_workspace(&mut workspace, &grid, (0, 0), (31, 31));
    assert_eq!(found.map(|route| route.len()), Some(32));
    assert!(workspace.expansions() <= 50_000);
}

#[test]
fn a_fresh_workspace_has_made_no_expansions() {
    let workspace = PathfindingWorkspace::new();
    assert_eq!(workspace.expansions(), 0);
}

#[test]
fn found_route_costs_no_more_than_a_hand_made_route() {
    let grid = grid_from_rows(&["PPPPP", "PMMMP", "PPPPP"]);
    let found = find_path(&grid, (0, 1), (4, 1)).unwrap();
    let through_mountains = [(0, 1), (1, 1), (2, 1), (3, 1), (4, 1)];
    let around_the_top = [(0, 1), (1, 0), (2, 0), (3, 0), (4, 1)];
    assert_eq!(route_cost_of(&grid, &found), 2 * 141_420 + 2 * 100_000);
    assert!(route_cost_of(&grid, &found) <= route_cost_of(&grid, &through_mountains));
    assert!(route_cost_of(&grid, &found) <= route_cost_of(&grid, &around_the_top));
}
