use nexus_engine::mind::{Action, Goal, Mind};
use nexus_engine::pathfinding::PathfindingWorkspace;
use nexus_engine::households::{Household, DEFAULT_HOUSEHOLD_STORAGE_CAPACITY};
use nexus_engine::inventory::{Inventory, ItemKind};
use nexus_engine::planning::{home_context, plan_eat, plan_migration, plan_rest, HomeContext};
use nexus_engine::time::ADOLESCENT_AGE_END;
use nexus_engine::world::{Grid, Region, ResourceKind, Terrain, Tile};

fn open_grid(width: u32, height: u32) -> Grid {
    Grid {
        width,
        height,
        tiles: (0..width * height).map(|_| Tile { terrain: Terrain::Plains }).collect(),
        region_ids: Vec::new(),
        regions: Vec::<Region>::new(),
        resources: vec![None; (width * height) as usize],
        renewable_resources: Vec::new(),
    }
}

fn home_at(x: u32, y: u32, room: u16) -> HomeContext {
    HomeContext { residence_x: x, residence_y: y, migration_target: None, storage_remaining_capacity: room, storage_food_amount: 0 }
}

#[test]
fn eating_plans_to_consume_food_in_place() {
    let mut mind = Mind::new();
    assert!(plan_eat(&mut mind, 5).is_empty());
    assert_eq!(mind.current_goal, Some(Goal::Eat));
    assert_eq!(mind.current_plan, vec![Action::Consume(ResourceKind::Food)]);
}

#[test]
fn an_adult_walks_home_to_deposit_spare_food_and_rest() {
    let grid = open_grid(6, 6);
    let mut mind = Mind::new();
    let mut workspace = PathfindingWorkspace::new();
    let path = plan_rest(&mut mind, &mut workspace, &grid, (0, 0), 9, Some(home_at(3, 0, 100)), ADOLESCENT_AGE_END, 35);
    assert_eq!(path, vec![(1, 0), (2, 0), (3, 0)]);
    assert_eq!(mind.current_goal, Some(Goal::Rest));
    assert_eq!(
        mind.current_plan,
        vec![Action::MoveTo(3, 0), Action::DepositHouseholdFood(15), Action::Wait]
    );
}

#[test]
fn resting_at_home_deposits_no_more_than_storage_holds() {
    let grid = open_grid(4, 4);
    let mut mind = Mind::new();
    let mut workspace = PathfindingWorkspace::new();
    let path = plan_rest(&mut mind, &mut workspace, &grid, (2, 2), 9, Some(home_at(2, 2, 4)), ADOLESCENT_AGE_END, 35);
    assert!(path.is_empty());
    assert_eq!(mind.current_plan, vec![Action::DepositHouseholdFood(4), Action::Wait]);
}

#[test]
fn resting_without_a_household_just_waits() {
    let grid = open_grid(4, 4);
    let mut mind = Mind::new();
    let mut workspace = PathfindingWorkspace::new();
    let path = plan_rest(&mut mind, &mut workspace, &grid, (2, 2), 9, None, ADOLESCENT_AGE_END, 35);
    assert!(path.is_empty());
    assert_eq!(mind.current_plan, vec![Action::Wait]);
}

#[test]
fn a_migrating_household_member_walks_to_the_target() {
    let grid = open_grid(6, 6);
    let mut mind = Mind::new();
    let mut workspace = PathfindingWorkspace::new();
    let path = plan_migration(&mut mind, &mut workspace, &grid, (0, 0), 3, (2, 2));
    assert_eq!(path, vec![(1, 1), (2, 2)]);
    assert_eq!(mind.current_goal, Some(Goal::MigrateHousehold));
    assert_eq!(mind.current_plan, vec![Action::MoveTo(2, 2)]);
    let arrived = plan_migration(&mut mind, &mut workspace, &grid, (2, 2), 4, (2, 2));
    assert!(arrived.is_empty());
    assert_eq!(mind.current_plan, vec![Action::Wait]);
}

fn household(id: u32, dissolved: bool) -> Household {
    let mut storage = Inventory::new(DEFAULT_HOUSEHOLD_STORAGE_CAPACITY);
    storage.add(ItemKind::Food, 30);
    Household {
        id,
        formed_tick: 0,
        dissolved_tick: if dissolved { Some(5) } else { None },
        inheritance: None,
        migration: None,
        residence_x: 4,
        residence_y: 7,
        storage,
    }
}

#[test]
fn home_context_reads_an_active_household() {
    let households = vec![household(2, false), household(5, true)];
    let context = home_context(&households, Some(2)).unwrap();
    assert_eq!((context.residence_x, context.residence_y), (4, 7));
    assert_eq!(context.migration_target, None);
    assert_eq!(context.storage_food_amount, 30);
    assert_eq!(context.storage_remaining_capacity, DEFAULT_HOUSEHOLD_STORAGE_CAPACITY - 30);
    assert!(home_context(&households, Some(5)).is_none());
    assert!(home_context(&households, Some(9)).is_none());
    assert!(home_context(&households, None).is_none());
}
