use nexus_engine::mind::{
    affinity_band, AffinityBand, AffinityChangeRecord, Goal, KnownEntity, KnownResource, Memory,
    Mind, MAX_AFFINITY, MIN_AFFINITY, NEUTRAL_AFFINITY, RELATIONSHIP_DECAY_PER_DAY,
    RELATIONSHIP_DECAY_START_TICKS,
};
use nexus_engine::time::TICKS_PER_DAY;
use nexus_engine::world::ResourceKind;

fn known_entity(id: u32) -> KnownEntity {
    KnownEntity {
        id,
        first_seen_tick: 0,
        last_seen_tick: 0,
        last_seen_x: 0,
        last_seen_y: 0,
        observed_ticks: 1,
        affinity: NEUTRAL_AFFINITY,
        last_interaction_tick: 0,
        interaction_count: 0,
        seek_retry_after_tick: None,
    }
}

fn food_at(x: u32, y: u32, last_seen_tick: u64) -> KnownResource {
    KnownResource {
        x,
        y,
        kind: ResourceKind::Food,
        last_seen_tick,
        estimated_amount: 50,
        failed_attempts: 0,
        avoid_until_tick: 0,
    }
}

#[test]
fn affinity_adjustment_is_clamped() {
    let mut memory = Memory::default();
    memory.known_entities.push(known_entity(1));

    assert!(memory.adjust_affinity(1, 400));
    assert_eq!(memory.affinity_to(1), Some(400));

    assert!(memory.adjust_affinity(1, 900));
    assert_eq!(memory.affinity_to(1), Some(MAX_AFFINITY));

    assert!(memory.adjust_affinity(1, -3_000));
    assert_eq!(memory.affinity_to(1), Some(MIN_AFFINITY));
}

#[test]
fn adjusting_unknown_affinity_returns_false() {
    let mut memory = Memory::default();

    assert!(!memory.adjust_affinity(99, 100));
    assert_eq!(memory.affinity_to(99), None);
}

#[test]
fn affinity_adjustment_only_changes_target() {
    let mut memory = Memory::default();
    memory.known_entities.push(known_entity(1));
    memory.known_entities.push(known_entity(2));

    assert!(memory.adjust_affinity(1, 250));

    assert_eq!(memory.affinity_to(1), Some(250));
    assert_eq!(memory.affinity_to(2), Some(0));
}

#[test]
fn replanning_same_goal_preserves_goal_since_tick() {
    let mut mind = Mind::default();

    mind.set_plan(Goal::Explore, vec![], 10);
    assert_eq!(mind.goal_since_tick, 10);

    mind.set_plan(Goal::Explore, vec![], 50);
    assert_eq!(mind.goal_since_tick, 10);

    mind.set_plan(Goal::Rest, vec![], 80);
    assert_eq!(mind.goal_since_tick, 80);
}

#[test]
fn mind_remembered_food_targets_are_ordered_by_distance_then_age() {
    let mut mind = Mind::default();
    mind.memory.known_resources.push(food_at(10, 0, 100));
    mind.memory.known_resources.push(food_at(2, 0, 100));
    mind.memory.known_resources.push(food_at(5, 0, 200));

    let targets = mind.remembered_food_targets((0, 0), 300);
    assert_eq!(targets.len(), 3);
    assert_eq!(targets[0].0, 2);
    assert_eq!(targets[1].0, 5);
    assert_eq!(targets[2].0, 10);

    mind.memory.known_resources.push(food_at(8, 0, 50));
    mind.memory.known_resources.push(food_at(0, 8, 250));

    let targets = mind.remembered_food_targets((0, 0), 300);
    let distance_eight: Vec<_> = targets.iter().filter(|target| target.0 == 8).collect();
    assert_eq!(distance_eight.len(), 2);
    assert_eq!(distance_eight[0].1, 50);
    assert_eq!(distance_eight[1].1, 250);
}

#[test]
fn recent_relationship_does_not_decay() {
    let tick = RELATIONSHIP_DECAY_START_TICKS + 10_000;
    let mut known = known_entity(1);
    known.affinity = 300;
    known.last_interaction_tick = tick - (RELATIONSHIP_DECAY_START_TICKS - 1);
    let mut mind = Mind::default();
    mind.memory.known_entities.push(known);

    let _ = mind.memory.decay_relationships(tick);

    assert_eq!(mind.memory.known_entities[0].affinity, 300);
}

#[test]
fn old_positive_relationship_decays_toward_neutral() {
    let tick = RELATIONSHIP_DECAY_START_TICKS + 10_000;
    let mut known = known_entity(1);
    known.affinity = 400;
    known.last_interaction_tick = tick - RELATIONSHIP_DECAY_START_TICKS;
    let mut mind = Mind::default();
    mind.memory.known_entities.push(known);

    let _ = mind.memory.decay_relationships(tick);

    assert_eq!(mind.memory.known_entities[0].affinity, 400 - RELATIONSHIP_DECAY_PER_DAY);
}

#[test]
fn old_negative_relationship_decays_toward_neutral() {
    let tick = RELATIONSHIP_DECAY_START_TICKS + 10_000;
    let mut known = known_entity(1);
    known.affinity = -400;
    known.last_interaction_tick = tick - RELATIONSHIP_DECAY_START_TICKS;
    let mut mind = Mind::default();
    mind.memory.known_entities.push(known);

    let _ = mind.memory.decay_relationships(tick);

    assert_eq!(mind.memory.known_entities[0].affinity, -400 + RELATIONSHIP_DECAY_PER_DAY);
}

#[test]
fn relationship_decay_never_crosses_zero() {
    let tick = RELATIONSHIP_DECAY_START_TICKS + 100;
    let cases = [
        (1i16, 0i16),
        (-1, 0),
        (0, 0),
        (RELATIONSHIP_DECAY_PER_DAY, 0),
        (-RELATIONSHIP_DECAY_PER_DAY, 0),
    ];

    for (affinity, expected) in cases {
        let mut known = known_entity(1);
        known.affinity = affinity;
        known.last_interaction_tick = 0;
        let mut mind = Mind::default();
        mind.memory.known_entities.push(known);

        let _ = mind.memory.decay_relationships(tick);

        assert_eq!(mind.memory.known_entities[0].affinity, expected);
    }
}

#[test]
fn decay_accumulates_across_daily_passes_until_neutral() {
    let mut known = known_entity(1);
    known.affinity = 3;
    known.last_interaction_tick = 0;
    let mut mind = Mind::default();
    mind.memory.known_entities.push(known);

    let tick = RELATIONSHIP_DECAY_START_TICKS;
    let _ = mind.memory.decay_relationships(tick);
    assert_eq!(mind.memory.known_entities[0].affinity, 2);
    let _ = mind.memory.decay_relationships(tick + TICKS_PER_DAY);
    assert_eq!(mind.memory.known_entities[0].affinity, 1);
    let _ = mind.memory.decay_relationships(tick + 2 * TICKS_PER_DAY);
    assert_eq!(mind.memory.known_entities[0].affinity, 0);
    let _ = mind.memory.decay_relationships(tick + 3 * TICKS_PER_DAY);
    assert_eq!(mind.memory.known_entities[0].affinity, 0);
}

#[test]
fn interaction_resets_decay_age() {
    let tick = RELATIONSHIP_DECAY_START_TICKS + 10_000;
    let mut known = known_entity(1);
    known.affinity = 300;
    known.last_interaction_tick = tick - 2 * RELATIONSHIP_DECAY_START_TICKS;
    let mut mind = Mind::default();
    mind.memory.known_entities.push(known);

    assert_eq!(mind.memory.record_interaction(1, tick, 0), Some(None));

    let _ = mind.memory.decay_relationships(tick);

    assert_eq!(mind.memory.known_entities[0].affinity, 300);
    assert_eq!(mind.memory.known_entities[0].last_interaction_tick, tick);
}

#[test]
fn relationship_decay_is_deterministic() {
    let scenario = || {
        let decay_tick = 4 * RELATIONSHIP_DECAY_START_TICKS;
        let mut a = known_entity(1);
        a.affinity = 250;
        a.last_interaction_tick = decay_tick - RELATIONSHIP_DECAY_START_TICKS;
        let mut b = known_entity(2);
        b.affinity = -120;
        b.last_interaction_tick = 5;
        let mut mind = Mind::default();
        mind.memory.known_entities.push(a);
        mind.memory.known_entities.push(b);
        mind
    };

    let mut first = scenario();
    let mut second = scenario();
    let decay_tick = 5 * RELATIONSHIP_DECAY_START_TICKS;
    let first_changes = first.memory.decay_relationships(decay_tick);
    let second_changes = second.memory.decay_relationships(decay_tick);

    assert_eq!(first.memory.known_entities, second.memory.known_entities);
    assert_eq!(first_changes, second_changes);
}

#[test]
fn affinity_band_uses_exact_boundaries() {
    assert_eq!(affinity_band(MIN_AFFINITY), AffinityBand::Hostile);
    assert_eq!(affinity_band(-201), AffinityBand::Hostile);
    assert_eq!(affinity_band(-200), AffinityBand::Ordinary);
    assert_eq!(affinity_band(99), AffinityBand::Ordinary);
    assert_eq!(affinity_band(100), AffinityBand::Bonded);
    assert_eq!(affinity_band(MAX_AFFINITY), AffinityBand::Bonded);
}

#[test]
fn record_interaction_handles_unknown_relationship_and_zero_delta() {
    let mut memory = Memory::default();
    assert_eq!(memory.record_interaction(99, 10, 8), None);

    memory.known_entities.push(known_entity(1));
    assert_eq!(memory.record_interaction(1, 10, 0), Some(None));
    assert_eq!(memory.known_entities[0].affinity, 0);
    assert_eq!(memory.known_entities[0].last_interaction_tick, 10);
    assert_eq!(memory.known_entities[0].interaction_count, 1);
}

#[test]
fn record_interaction_reports_clamped_actual_delta_and_multi_band_jump() {
    let mut positive = known_entity(1);
    positive.affinity = 99;
    let mut memory = Memory::default();
    memory.known_entities.push(positive);

    assert_eq!(
        memory.record_interaction(1, 10, i16::MAX),
        Some(Some(AffinityChangeRecord {
            target_id: 1,
            previous_affinity: 99,
            new_affinity: MAX_AFFINITY,
            delta: 901,
        }))
    );

    assert_eq!(
        memory.record_interaction(1, 11, i16::MIN),
        Some(Some(AffinityChangeRecord {
            target_id: 1,
            previous_affinity: MAX_AFFINITY,
            new_affinity: MIN_AFFINITY,
            delta: -2_000,
        }))
    );
}

#[test]
fn record_interaction_reports_entering_and_leaving_bands() {
    let cases = [
        (-200, -1, -201, AffinityBand::Hostile),
        (-201, 1, -200, AffinityBand::Ordinary),
        (99, 1, 100, AffinityBand::Bonded),
        (100, -1, 99, AffinityBand::Ordinary),
    ];

    for (previous, requested_delta, expected, expected_band) in cases {
        let mut known = known_entity(1);
        known.affinity = previous;
        let mut memory = Memory::default();
        memory.known_entities.push(known);

        let change = memory
            .record_interaction(1, 10, requested_delta)
            .flatten()
            .expect("boundary crossing should be reported");
        assert_eq!(change.previous_affinity, previous);
        assert_eq!(change.new_affinity, expected);
        assert_eq!(change.delta, requested_delta);
        assert_eq!(affinity_band(change.new_affinity), expected_band);
    }
}

#[test]
fn decay_relationships_reports_only_band_crossings() {
    let mut bonded = known_entity(1);
    bonded.affinity = 100;
    let mut hostile = known_entity(2);
    hostile.affinity = -201;
    let mut ordinary = known_entity(3);
    ordinary.affinity = 50;
    let mut memory = Memory::default();
    memory.known_entities = vec![bonded, hostile, ordinary];

    let changes = memory.decay_relationships(RELATIONSHIP_DECAY_START_TICKS);
    assert_eq!(
        changes,
        vec![
            AffinityChangeRecord {
                target_id: 1,
                previous_affinity: 100,
                new_affinity: 99,
                delta: -1,
            },
            AffinityChangeRecord {
                target_id: 2,
                previous_affinity: -201,
                new_affinity: -200,
                delta: 1,
            },
        ]
    );
    assert_eq!(memory.known_entities[2].affinity, 49);
}

#[test]
fn remembered_chunks_are_counted_once() {
    let mut memory = Memory::default();
    assert!(memory.remember_chunk(7));
    assert!(memory.remember_chunk(3));
    assert!(!memory.remember_chunk(7));
    assert_eq!(memory.known_chunk_count(), 2);
    assert!(memory.knows_chunk(3));
    assert!(!memory.knows_chunk(4));
}

#[test]
fn failed_exploration_cools_down_and_is_pruned() {
    let mut memory = Memory::default();
    memory.mark_exploration_failed(5, 100);
    assert!(memory.exploration_on_cooldown(5, 339));
    assert!(!memory.exploration_on_cooldown(5, 340));
    memory.mark_exploration_failed(5, 200);
    assert_eq!(memory.failed_exploration_count(), 1);
    memory.prune_exploration_failures(439);
    assert_eq!(memory.failed_exploration_count(), 1);
    memory.prune_exploration_failures(440);
    assert_eq!(memory.failed_exploration_count(), 0);
}

#[test]
fn unreachable_and_refreshed_resources_update_memory() {
    let mut memory = Memory::default();
    memory.known_resources.push(food_at(3, 4, 10));
    memory.mark_unreachable((3, 4), 20);
    assert_eq!(memory.known_resources[0].failed_attempts, 1);
    assert_eq!(memory.known_resources[0].avoid_until_tick, 140);
    memory.update_known_amount((3, 4), ResourceKind::Food, 12, 30);
    assert_eq!(memory.known_resources[0].estimated_amount, 12);
    assert_eq!(memory.known_resources[0].avoid_until_tick, 0);
    memory.update_known_amount((3, 4), ResourceKind::Food, 0, 40);
    assert!(memory.known_resources.is_empty());
}

#[test]
fn goal_and_action_labels() {
    assert_eq!(Goal::ShareFood.label(), "Share Food");
    assert_eq!(nexus_engine::mind::Action::MoveTo(1, 2).destination(), Some((1, 2)));
    assert_eq!(nexus_engine::mind::Action::Interact(4).target_entity_id(), Some(4));
    assert_eq!(nexus_engine::mind::Action::Wait.destination(), None);
}
