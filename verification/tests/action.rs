use nexus_engine::action::{consume_food, consume_turn, gather_resource, item_kind, FOOD_CONSUMED_PER_MEAL};
use nexus_engine::inventory::{Inventory, ItemKind};
use nexus_engine::mind::{Action, Goal, KnownResource, Memory, Mind};
use nexus_engine::world::{Grid, Region, ResourceDeposit, ResourceKind, Terrain, Tile};

fn plains(width: u32, height: u32) -> Grid {
    Grid {
        width,
        height,
        tiles: vec![Tile { terrain: Terrain::Plains }; (width * height) as usize],
        region_ids: Vec::new(),
        regions: Vec::<Region>::new(),
        resources: vec![None; (width * height) as usize],
        renewable_resources: Vec::new(),
    }
}

fn known(x: u32, y: u32, kind: ResourceKind, amount: u16) -> KnownResource {
    KnownResource {
        x,
        y,
        kind,
        last_seen_tick: 1,
        estimated_amount: amount,
        failed_attempts: 2,
        avoid_until_tick: 9,
    }
}

#[test]
fn a_meal_takes_at_most_ten_units() {
    let mut world = plains(3, 3);
    world.resources[4] = Some(ResourceDeposit { kind: ResourceKind::Food, amount: 25 });
    assert_eq!(consume_food(&mut world, 1, 1), FOOD_CONSUMED_PER_MEAL);
    assert_eq!(world.resources[4], Some(ResourceDeposit { kind: ResourceKind::Food, amount: 15 }));
    assert_eq!(consume_food(&mut world, 1, 1), 10);
    assert_eq!(consume_food(&mut world, 1, 1), 5);
    assert_eq!(world.resources[4], None);
    assert_eq!(consume_food(&mut world, 1, 1), 0);
}

#[test]
fn only_food_can_be_eaten() {
    let mut world = plains(2, 2);
    world.resources[0] = Some(ResourceDeposit { kind: ResourceKind::Stone, amount: 30 });
    assert_eq!(consume_food(&mut world, 0, 0), 0);
    assert_eq!(world.resources[0], Some(ResourceDeposit { kind: ResourceKind::Stone, amount: 30 }));
    assert_eq!(consume_food(&mut world, 5, 5), 0);
}

#[test]
fn an_empty_deposit_is_cleared_when_touched() {
    let mut world = plains(2, 1);
    world.resources[1] = Some(ResourceDeposit { kind: ResourceKind::Food, amount: 0 });
    assert_eq!(consume_food(&mut world, 1, 0), 0);
    assert_eq!(world.resources[1], None);
}

#[test]
fn gathering_is_bounded_by_deposit_step_and_room() {
    let mut world = plains(4, 4);
    world.resources[5] = Some(ResourceDeposit { kind: ResourceKind::Timber, amount: 14 });
    let mut inventory = Inventory::new(12);
    let mut memory = Memory::new();
    memory.known_resources.push(known(1, 1, ResourceKind::Timber, 14));

    assert_eq!(gather_resource((1, 1), &mut inventory, &mut memory, &mut world, ResourceKind::Timber, 50), 10);
    assert_eq!(inventory.amount(ItemKind::Timber), 10);
    assert_eq!(world.resources[5], Some(ResourceDeposit { kind: ResourceKind::Timber, amount: 4 }));
    assert_eq!(memory.known_resources[0].estimated_amount, 4);
    assert_eq!(memory.known_resources[0].last_seen_tick, 50);
    assert_eq!(memory.known_resources[0].failed_attempts, 0);
    assert_eq!(memory.known_resources[0].avoid_until_tick, 0);

    assert_eq!(gather_resource((1, 1), &mut inventory, &mut memory, &mut world, ResourceKind::Timber, 60), 2);
    assert_eq!(inventory.remaining_capacity(), 0);
    assert_eq!(world.resources[5], Some(ResourceDeposit { kind: ResourceKind::Timber, amount: 2 }));
    assert_eq!(gather_resource((1, 1), &mut inventory, &mut memory, &mut world, ResourceKind::Timber, 70), 0);
    assert_eq!(world.resources[5], Some(ResourceDeposit { kind: ResourceKind::Timber, amount: 2 }));
}

#[test]
fn gathering_the_last_units_forgets_the_deposit() {
    let mut world = plains(2, 2);
    world.resources[3] = Some(ResourceDeposit { kind: ResourceKind::Iron, amount: 3 });
    let mut inventory = Inventory::new(50);
    let mut memory = Memory::new();
    memory.known_resources.push(known(1, 1, ResourceKind::Iron, 3));
    memory.known_resources.push(known(0, 0, ResourceKind::Iron, 8));
    assert_eq!(gather_resource((1, 1), &mut inventory, &mut memory, &mut world, ResourceKind::Iron, 5), 3);
    assert_eq!(world.resources[3], None);
    assert_eq!(memory.known_resources.len(), 1);
    assert_eq!((memory.known_resources[0].x, memory.known_resources[0].y), (0, 0));
    assert_eq!(inventory.amount(ItemKind::Iron), 3);
}

#[test]
fn gathering_the_wrong_kind_changes_nothing() {
    let mut world = plains(2, 2);
    world.resources[0] = Some(ResourceDeposit { kind: ResourceKind::Food, amount: 40 });
    let mut inventory = Inventory::new(50);
    let mut memory = Memory::new();
    assert_eq!(gather_resource((0, 0), &mut inventory, &mut memory, &mut world, ResourceKind::Stone, 5), 0);
    assert_eq!(world.resources[0], Some(ResourceDeposit { kind: ResourceKind::Food, amount: 40 }));
    assert_eq!(inventory.used_capacity(), 0);
}

#[test]
fn resource_kinds_map_to_their_item_slots() {
    assert_eq!(item_kind(ResourceKind::Food), ItemKind::Food);
    assert_eq!(item_kind(ResourceKind::Timber), ItemKind::Timber);
    assert_eq!(item_kind(ResourceKind::Stone), ItemKind::Stone);
    assert_eq!(item_kind(ResourceKind::Iron), ItemKind::Iron);
}

#[test]
fn eating_from_the_inventory_takes_one_meal_and_moves_the_plan_on() {
    let mut mind = Mind::new();
    mind.set_plan(Goal::Eat, vec![Action::Consume(ResourceKind::Food)], 0);
    let mut inventory = Inventory::new(50);
    inventory.add(ItemKind::Food, 14);
    assert_eq!(consume_turn(&mut mind, &mut inventory, ResourceKind::Food), FOOD_CONSUMED_PER_MEAL);
    assert_eq!(inventory.amount(ItemKind::Food), 4);
    assert_eq!(mind.plan_index, 1);
    assert_eq!(consume_turn(&mut mind, &mut inventory, ResourceKind::Food), 4);
    assert_eq!(inventory.amount(ItemKind::Food), 0);
}
