use nexus_engine::exploration::{
    deterministic_wander_target, exploration_target, ring_perimeter, walkable_in_chunk,
};
use nexus_engine::mind::{chunk_index, Mind, FAILED_EXPLORATION_RETRY_TICKS};
use nexus_engine::world::{Grid, Region, Terrain, Tile};
use std::collections::HashSet;

fn plain_grid(width: u32, height: u32) -> Grid {
    Grid {
        width,
        height,
        tiles: (0..width * height).map(|_| Tile { terrain: Terrain::Plains }).collect(),
        region_ids: Vec::new(),
        regions: Vec::<Region>::new(),
        resources: vec![None; (width * height) as usize],
        renewable_resources: Vec::new(),
    }
}

#[test]
fn exploration_ring_perimeter_contains_exactly_eight_r_tiles_when_unclipped() {
    let ring = ring_perimeter(5, 5, 3, 20, 20);

    assert_eq!(ring.len(), 24);
    let unique: HashSet<_> = ring.iter().copied().collect();
    assert_eq!(unique.len(), ring.len());
}

#[test]
fn exploration_ring_perimeter_clips_to_world_without_duplicates() {
    let ring = ring_perimeter(0, 0, 3, 10, 10);

    assert!(ring.iter().all(|&(x, y)| x < 10 && y < 10));
    let unique: HashSet<_> = ring.iter().copied().collect();
    assert_eq!(unique.len(), ring.len());
}

#[test]
fn autonomy_ring_perimeter_contains_exactly_eight_r_tiles_when_unclipped() {
    let ring = ring_perimeter(5, 5, 3, 20, 20);

    assert_eq!(ring.len(), 24);
    let unique: HashSet<_> = ring.iter().copied().collect();
    assert_eq!(unique.len(), ring.len());
}

#[test]
fn autonomy_ring_perimeter_clips_to_world_without_duplicates() {
    let ring = ring_perimeter(0, 0, 3, 10, 10);

    assert!(ring.iter().all(|&(x, y)| x < 10 && y < 10));
    let unique: HashSet<_> = ring.iter().copied().collect();
    assert_eq!(unique.len(), ring.len());
}

#[test]
fn exploration_failed_exploration_chunk_is_skipped_until_retry_tick() {
    let world = plain_grid(32, 32);
    let mut mind = Mind::default();
    let origin = (12, 12);
    let entity_id = 1;
    let first = exploration_target(&mind, &world, origin, entity_id, 0).unwrap();
    let failed_chunk = chunk_index(&world, first.0, first.1);

    mind.memory.mark_exploration_failed(failed_chunk, 0);
    mind.memory.mark_exploration_failed(failed_chunk, 0);
    assert_eq!(mind.memory.failed_exploration_count(), 1);

    let during_cooldown = exploration_target(&mind, &world, origin, entity_id, 1).unwrap();
    let after_cooldown =
        exploration_target(&mind, &world, origin, entity_id, FAILED_EXPLORATION_RETRY_TICKS)
            .unwrap();

    assert_ne!(chunk_index(&world, during_cooldown.0, during_cooldown.1), failed_chunk);
    assert_eq!(chunk_index(&world, after_cooldown.0, after_cooldown.1), failed_chunk);
}

#[test]
fn ring_lists_rows_before_columns() {
    assert_eq!(
        ring_perimeter(1, 1, 1, 3, 3),
        vec![(0, 0), (0, 2), (1, 0), (1, 2), (2, 0), (2, 2), (0, 1), (2, 1)]
    );
}

#[test]
fn walkable_in_chunk_returns_the_first_walkable_tile_in_row_order() {
    let mut world = plain_grid(10, 10);
    for x in 8..10 {
        world.tiles[(8 * 10 + x) as usize] = Tile { terrain: Terrain::DeepWater };
    }
    assert_eq!(walkable_in_chunk(&world, 1, 1, None), Some((8, 9)));
    assert_eq!(walkable_in_chunk(&world, 0, 0, None), Some((0, 0)));
    assert_eq!(walkable_in_chunk(&world, 0, 0, Some(3)), None);
    assert_eq!(walkable_in_chunk(&world, 5, 5, None), None);
}

#[test]
fn wander_rotates_offsets_by_entity() {
    let world = plain_grid(32, 32);
    let mind = Mind::default();
    assert_eq!(deterministic_wander_target(&mind, &world, (10, 10), 0, 0, None), Some((18, 10)));
    assert_eq!(deterministic_wander_target(&mind, &world, (10, 10), 3, 0, None), Some((10, 2)));
    assert_eq!(deterministic_wander_target(&mind, &world, (0, 0), 2, 0, None), Some((6, 6)));
}

#[test]
fn exploration_prefers_the_nearest_ring() {
    let world = plain_grid(32, 32);
    let mind = Mind::default();
    let target = exploration_target(&mind, &world, (12, 12), 7, 0).unwrap();
    let (cx, cy) = (target.0 / 8, target.1 / 8);
    assert!(cx.abs_diff(1).max(cy.abs_diff(1)) == 1);
}
