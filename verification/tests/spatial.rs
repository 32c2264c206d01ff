use nexus_engine::spatial::SpatialGrid;

#[test]
fn candidates_include_same_and_neighbor_cells() {
    let mut grid = SpatialGrid::default();
    grid.prepare(32, 32);

    grid.insert(0, 7, 7);
    grid.insert(1, 9, 7);
    grid.insert(2, 25, 25);

    let mut candidates = grid.candidates(7, 7, 6);
    candidates.sort_unstable();

    assert_eq!(candidates, vec![0, 1]);
}

#[test]
fn prepare_clears_previous_tick() {
    let mut grid = SpatialGrid::default();

    grid.prepare(32, 32);
    grid.insert(0, 4, 4);
    grid.insert(1, 10, 10);

    grid.prepare(32, 32);

    assert!(grid.cells.iter().all(Vec::is_empty));
    assert_eq!(grid.cells_wide, 4);
    assert_eq!(grid.cells_high, 4);
}

#[test]
fn spatial_query_clamps_at_world_edges() {
    let mut grid = SpatialGrid::default();
    grid.prepare(32, 32);

    grid.insert(0, 0, 0);
    grid.insert(1, 31, 31);

    let candidates = grid.candidates(0, 0, 6);

    assert_eq!(candidates, vec![0]);
}

#[test]
fn candidates_come_row_by_row_and_outside_positions_are_ignored() {
    let mut grid = SpatialGrid::default();
    grid.prepare(20, 12);
    assert_eq!((grid.cells_wide, grid.cells_high), (3, 2));
    grid.insert(0, 17, 9);
    grid.insert(1, 0, 9);
    grid.insert(2, 9, 0);
    grid.insert(3, 40, 0);
    assert_eq!(grid.candidates(8, 8, 100), vec![2, 1, 0]);
    grid.prepare(8, 8);
    assert_eq!(grid.cells.len(), 1);
    assert!(grid.candidates(0, 0, 0).is_empty());
}

#[test]
fn an_empty_grid_has_no_candidates() {
    let grid = SpatialGrid::default();
    assert!(grid.candidates(3, 3, 50).is_empty());
}
