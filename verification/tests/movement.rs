use nexus_engine::mind::{Action, Goal, Mind};
use nexus_engine::movement::{next_step_cost, walk_path, WalkOutcome};
use nexus_engine::world::{Grid, Region, Terrain, Tile};

fn grid_from_rows(rows: &[&str]) -> Grid {
    let width = rows[0].len() as u32;
    let height = rows.len() as u32;
    let tiles: Vec<Tile> = rows
        .iter()
        .flat_map(|row| row.chars())
        .map(|c| Tile { terrain: if c == '#' { Terrain::DeepWater } else { Terrain::Plains } })
        .collect();
    Grid {
        width,
        height,
        tiles,
        region_ids: Vec::new(),
        regions: Vec::<Region>::new(),
        resources: vec![None; (width * height) as usize],
        renewable_resources: Vec::new(),
    }
}

fn walking_mind() -> Mind {
    let mut mind = Mind::new();
    mind.set_plan(Goal::Explore, vec![Action::MoveTo(2, 0), Action::Wait], 0);
    mind
}

#[test]
fn a_walker_steps_only_when_it_can_afford_the_step() {
    let grid = grid_from_rows(&["PPP"]);
    let mut mind = walking_mind();
    let mut position = (0, 0);
    let mut path = vec![(1, 0), (2, 0)];
    let mut index = 0;
    assert_eq!(next_step_cost(&grid, position, &path, index), Some(100_000));
    assert_eq!(walk_path(&mut mind, &grid, &mut position, &mut path, &mut index, false), WalkOutcome::Walking);
    assert_eq!((position, index), ((0, 0), 0));
    assert_eq!(walk_path(&mut mind, &grid, &mut position, &mut path, &mut index, true), WalkOutcome::Walking);
    assert_eq!((position, index), ((1, 0), 1));
    assert_eq!(walk_path(&mut mind, &grid, &mut position, &mut path, &mut index, true), WalkOutcome::Arrived);
    assert_eq!((position, index), ((2, 0), 0));
    assert!(path.is_empty());
    assert_eq!(mind.plan_index, 1);
    assert_eq!(mind.current_goal, Some(Goal::Explore));
}

#[test]
fn a_blocked_path_drops_the_plan() {
    let grid = grid_from_rows(&["P#P"]);
    let mut mind = walking_mind();
    let mut position = (0, 0);
    let mut path = vec![(1, 0), (2, 0)];
    let mut index = 0;
    assert_eq!(next_step_cost(&grid, position, &path, index), None);
    assert_eq!(walk_path(&mut mind, &grid, &mut position, &mut path, &mut index, true), WalkOutcome::Blocked);
    assert_eq!(position, (0, 0));
    assert!(path.is_empty());
    assert_eq!(mind.current_goal, None);
    assert!(mind.current_plan.is_empty());
}
