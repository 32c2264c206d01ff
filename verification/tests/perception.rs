use nexus_engine::mind::{chunk_index, manhattan, Mind, NEUTRAL_AFFINITY};
use nexus_engine::perception::{
    perceive, perceive_entities, remember_entity, remember_resource, remember_visible_chunks,
    scan_visible_resources, EntityEncounter, EntityPosition, ResourceDiscovery,
};
use nexus_engine::spatial::SpatialGrid;
use nexus_engine::world::{Grid, Region, ResourceDeposit, ResourceKind, Terrain, Tile};
use std::collections::HashSet;

fn plain_grid(width: u32, height: u32) -> Grid {
    Grid {
        width,
        height,
        tiles: (0..width * height).map(|_| Tile { terrain: Terrain::Plains }).collect(),
        region_ids: Vec::new(),
        regions: Vec::<Region>::new(),
        resources: vec![None; (width * height) as usize],
        renewable_resources: Vec::new(),
    }
}

fn key(x: u32, y: u32, kind: ResourceKind) -> (u32, u32, u8) {
    (y, x, kind as u8)
}

fn tile_by_tile_chunks(world: &Grid, position: (u32, u32), radius: u32) -> HashSet<u32> {
    let mut expected = HashSet::new();
    for y in 0..world.height {
        for x in 0..world.width {
            if manhattan(position, (x, y)) <= radius {
                expected.insert(chunk_index(world, x, y));
            }
        }
    }
    expected
}

fn check_batched_chunks() {
    let world = plain_grid(32, 32);

    for position in [(1, 1), (7, 7), (8, 8), (15, 15), (30, 30)] {
        let mut mind = Mind::default();
        let radius = mind.perception_radius;
        let expected = tile_by_tile_chunks(&world, position, radius);

        remember_visible_chunks(&mut mind, &world, position);

        let noted: HashSet<u32> = mind.memory.known_chunks.iter().copied().collect();
        assert_eq!(noted.len(), mind.memory.known_chunks.len());
        assert_eq!(noted, expected, "mismatch at position {:?}", position);
    }
}

fn check_forgets_depleted() {
    let mut world = plain_grid(16, 16);
    let position = (5, 5);
    let index = (position.1 * world.width + position.0) as usize;
    world.resources[index] = Some(ResourceDeposit { kind: ResourceKind::Food, amount: 100 });

    let mut mind = Mind::default();
    perceive(&mut mind, 1, &world, position, 10);
    assert!(mind.memory.known_resources.iter().any(|known| (known.x, known.y) == position));

    world.resources[index] = None;
    perceive(&mut mind, 1, &world, position, 11);
    assert!(!mind.memory.known_resources.iter().any(|known| (known.x, known.y) == position));
}

fn check_keeps_outside_view() {
    let mut world = plain_grid(32, 32);
    let resource_position = (20, 20);
    let index = (resource_position.1 * world.width + resource_position.0) as usize;
    world.resources[index] = Some(ResourceDeposit { kind: ResourceKind::Food, amount: 100 });

    let mut mind = Mind::default();
    perceive(&mut mind, 1, &world, resource_position, 10);

    world.resources[index] = None;
    perceive(&mut mind, 1, &world, (5, 5), 11);

    assert!(mind.memory.known_resources.iter().any(|known| (known.x, known.y) == resource_position));
}

fn check_refreshes_visible() {
    let mut world = plain_grid(16, 16);
    let position = (5, 5);
    let index = (position.1 * world.width + position.0) as usize;
    world.resources[index] = Some(ResourceDeposit { kind: ResourceKind::Food, amount: 100 });

    let mut mind = Mind::default();
    perceive(&mut mind, 1, &world, position, 10);

    world.resources[index] = Some(ResourceDeposit { kind: ResourceKind::Food, amount: 40 });
    perceive(&mut mind, 1, &world, position, 25);

    let known = mind
        .memory
        .known_resources
        .iter()
        .find(|known| (known.x, known.y, known.kind) == (position.0, position.1, ResourceKind::Food))
        .unwrap();
    assert_eq!(known.estimated_amount, 40);
    assert_eq!(known.last_seen_tick, 25);
}

fn check_remember_resource_sorted() {
    let mut mind = Mind::default();

    remember_resource(&mut mind.memory, 20, 10, ResourceKind::Food, 50, 1);
    remember_resource(&mut mind.memory, 2, 3, ResourceKind::Stone, 30, 1);
    remember_resource(&mut mind.memory, 8, 3, ResourceKind::Timber, 40, 1);

    let keys: Vec<_> =
        mind.memory.known_resources.iter().map(|known| key(known.x, known.y, known.kind)).collect();
    assert!(keys.windows(2).all(|pair| pair[0] < pair[1]));

    remember_resource(&mut mind.memory, 2, 3, ResourceKind::Stone, 99, 42);
    assert_eq!(mind.memory.known_resources.len(), 3);

    let known = mind
        .memory
        .known_resources
        .iter()
        .find(|known| known.x == 2 && known.y == 3 && known.kind == ResourceKind::Stone)
        .unwrap();
    assert_eq!(known.estimated_amount, 99);
    assert_eq!(known.last_seen_tick, 42);
}

#[test]
fn seeing_entity_adds_it_to_memory() {
    let mut mind = Mind::default();
    remember_entity(&mut mind.memory, EntityPosition { id: 5, x: 10, y: 20 }, 100);

    assert_eq!(mind.memory.known_entities.len(), 1);
    let known = &mind.memory.known_entities[0];
    assert_eq!(known.id, 5);
    assert_eq!(known.first_seen_tick, 100);
    assert_eq!(known.last_seen_tick, 100);
    assert_eq!(known.last_seen_x, 10);
    assert_eq!(known.last_seen_y, 20);
    assert_eq!(known.observed_ticks, 1);
    assert_eq!(known.affinity, NEUTRAL_AFFINITY);
    assert_eq!(known.last_interaction_tick, 0);
    assert_eq!(known.interaction_count, 0);
}

#[test]
fn seeing_same_entity_updates_existing_memory() {
    let mut mind = Mind::default();
    remember_entity(&mut mind.memory, EntityPosition { id: 5, x: 10, y: 20 }, 100);
    remember_entity(&mut mind.memory, EntityPosition { id: 5, x: 15, y: 25 }, 200);

    assert_eq!(mind.memory.known_entities.len(), 1);
    let known = &mind.memory.known_entities[0];
    assert_eq!(known.first_seen_tick, 100);
    assert_eq!(known.last_seen_tick, 200);
    assert_eq!(known.last_seen_x, 15);
    assert_eq!(known.last_seen_y, 25);
    assert_eq!(known.observed_ticks, 2);
}

#[test]
fn seeing_entity_again_preserves_affinity() {
    let mut mind = Mind::default();
    remember_entity(&mut mind.memory, EntityPosition { id: 3, x: 10, y: 20 }, 100);

    assert_eq!(mind.memory.affinity_to(3), Some(NEUTRAL_AFFINITY));
    assert!(mind.memory.adjust_affinity(3, 300));
    assert_eq!(mind.memory.affinity_to(3), Some(300));

    remember_entity(&mut mind.memory, EntityPosition { id: 3, x: 12, y: 22 }, 200);

    assert_eq!(mind.memory.affinity_to(3), Some(300));
    assert_eq!(mind.memory.known_entities.len(), 1);
    assert_eq!(mind.memory.known_entities[0].observed_ticks, 2);
}

#[test]
fn known_entities_remain_sorted_by_id() {
    let mut mind = Mind::default();
    for id in [30, 10, 50, 20, 40] {
        remember_entity(&mut mind.memory, EntityPosition { id, x: 0, y: 0 }, 0);
    }
    let ids: Vec<u32> = mind.memory.known_entities.iter().map(|known| known.id).collect();
    assert_eq!(ids, vec![10, 20, 30, 40, 50]);
}

#[test]
fn perception_batched_visible_chunks_match_tile_by_tile_reference() {
    check_batched_chunks();
}

#[test]
fn autonomy_batched_visible_chunks_match_tile_by_tile_reference() {
    check_batched_chunks();
}

#[test]
fn perception_perception_forgets_visible_depleted_resource() {
    check_forgets_depleted();
}

#[test]
fn autonomy_perception_forgets_visible_depleted_resource() {
    check_forgets_depleted();
}

#[test]
fn perception_reports_only_new_resource_memories() {
    let mut world = plain_grid(8, 8);
    let position = (3, 3);
    let index = (position.1 * world.width + position.0) as usize;
    world.resources[index] = Some(ResourceDeposit { kind: ResourceKind::Timber, amount: 42 });
    let mut mind = Mind::default();

    let first = perceive(&mut mind, 7, &world, position, 10);
    let refreshed = perceive(&mut mind, 7, &world, position, 11);

    assert_eq!(
        first,
        vec![ResourceDiscovery { entity_id: 7, x: 3, y: 3, kind: ResourceKind::Timber, amount: 42 }]
    );
    assert!(refreshed.is_empty());
}

#[test]
fn perception_perception_keeps_resource_outside_current_view() {
    check_keeps_outside_view();
}

#[test]
fn autonomy_perception_keeps_resource_outside_current_view() {
    check_keeps_outside_view();
}

#[test]
fn perception_perception_refreshes_visible_resource() {
    check_refreshes_visible();
}

#[test]
fn autonomy_perception_refreshes_visible_resource() {
    check_refreshes_visible();
}

#[test]
fn perception_remember_resource_keeps_memory_sorted_and_updates_existing() {
    check_remember_resource_sorted();
}

#[test]
fn autonomy_remember_resource_keeps_memory_sorted_and_updates_existing() {
    check_remember_resource_sorted();
}

#[test]
fn autonomy_remembered_food_targets_are_ordered_by_distance_then_age() {
    let mut mind = Mind::default();
    remember_resource(&mut mind.memory, 10, 0, ResourceKind::Food, 50, 100);
    remember_resource(&mut mind.memory, 2, 0, ResourceKind::Food, 50, 100);
    remember_resource(&mut mind.memory, 5, 0, ResourceKind::Food, 50, 200);

    let targets = mind.remembered_food_targets((0, 0), 300);
    assert_eq!(targets.len(), 3);
    assert_eq!(targets[0].0, 2);
    assert_eq!(targets[1].0, 5);
    assert_eq!(targets[2].0, 10);

    remember_resource(&mut mind.memory, 8, 0, ResourceKind::Food, 50, 50);
    remember_resource(&mut mind.memory, 0, 8, ResourceKind::Food, 50, 250);

    let targets = mind.remembered_food_targets((0, 0), 300);
    let distance_eight: Vec<_> = targets.iter().filter(|target| target.0 == 8).collect();
    assert_eq!(distance_eight.len(), 2);
    assert_eq!(distance_eight[0].1, 50);
    assert_eq!(distance_eight[1].1, 250);
}

#[test]
fn scan_counts_every_deposit_in_view_but_reports_only_new_ones() {
    let mut world = plain_grid(16, 16);
    world.resources[(5 * 16 + 5) as usize] = Some(ResourceDeposit { kind: ResourceKind::Food, amount: 9 });
    world.resources[(5 * 16 + 7) as usize] = Some(ResourceDeposit { kind: ResourceKind::Stone, amount: 3 });
    let mut mind = Mind::default();

    let (visible, found) = scan_visible_resources(&mut mind, 2, &world, (5, 5), 1);
    assert_eq!(visible, 2);
    assert_eq!(found.len(), 2);
    assert_eq!(found[0], ResourceDiscovery { entity_id: 2, x: 5, y: 5, kind: ResourceKind::Food, amount: 9 });

    let (visible, found) = scan_visible_resources(&mut mind, 2, &world, (5, 5), 2);
    assert_eq!(visible, 2);
    assert!(found.is_empty());
}

#[test]
fn stale_resource_memory_expires_after_the_ttl() {
    let mut world = plain_grid(64, 64);
    world.resources[(2 * 64 + 2) as usize] = Some(ResourceDeposit { kind: ResourceKind::Food, amount: 9 });
    let mut mind = Mind::default();
    perceive(&mut mind, 1, &world, (2, 2), 0);
    assert_eq!(mind.memory.known_resources.len(), 1);

    perceive(&mut mind, 1, &world, (60, 60), 2_000);
    assert_eq!(mind.memory.known_resources.len(), 1);
    perceive(&mut mind, 1, &world, (60, 60), 2_001);
    assert!(mind.memory.known_resources.is_empty());
}

#[test]
fn perceive_entities_lists_visible_others_in_id_order_and_meets_strangers_once() {
    let population = vec![
        EntityPosition { id: 9, x: 4, y: 4 },
        EntityPosition { id: 3, x: 5, y: 4 },
        EntityPosition { id: 7, x: 6, y: 6 },
        EntityPosition { id: 1, x: 30, y: 30 },
    ];
    let mut grid = SpatialGrid::new();
    grid.prepare(32, 32);
    for (index, other) in population.iter().enumerate() {
        grid.insert(index, other.x, other.y);
    }
    let mut mind = Mind::default();

    let met = perceive_entities(&mut mind, 9, (4, 4), 50, &population, &grid);
    assert_eq!(mind.visible_entities, vec![3, 7]);
    assert_eq!(
        met,
        vec![
            EntityEncounter { observer_id: 9, other_id: 3, x: 4, y: 4 },
            EntityEncounter { observer_id: 9, other_id: 7, x: 4, y: 4 },
        ]
    );
    let ids: Vec<u32> = mind.memory.known_entities.iter().map(|known| known.id).collect();
    assert_eq!(ids, vec![3, 7]);

    let met_again = perceive_entities(&mut mind, 9, (4, 4), 51, &population, &grid);
    assert!(met_again.is_empty());
    assert_eq!(mind.memory.known_entities[0].observed_ticks, 2);
}
