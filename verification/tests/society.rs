use nexus_engine::dependents::{
    caregiver_priority, clear_graduated_caregivers, find_nearest_caregiver, reassign_orphaned_dependents,
    snap_infants_to_caregivers,
};
use nexus_engine::census::household_counts;
use nexus_engine::conflicts::{conflict_order, HouseholdConflictAttempt};
use nexus_engine::planning::acting_members;
use nexus_engine::entity::LifeStage;
use nexus_engine::households::HouseholdInheritance;
use nexus_engine::events::{RecentEventHistory, SimulationEventCause, SimulationEventDetails, SimulationEventKind};
use nexus_engine::mind::AffinityChangeRecord;
use nexus_engine::records::{record_affinity_change, record_food_consumptions, record_resource_discoveries};
use nexus_engine::perception::ResourceDiscovery;
use nexus_engine::sharing::{food_share_inputs, settle_food_share, FoodShareAttempt, FoodShareOutcome, ShareInputs};
use nexus_engine::social::{
    record_social_interaction, record_social_interactions, run_daily_relationship_decay, PairCompatibility,
    SocialInteraction,
};
use nexus_engine::ties::CloseRelationshipRole;
use nexus_engine::world::ResourceKind;
use nexus_engine::time::TICKS_PER_DAY;
use nexus_engine::genealogy::Genealogy;
use nexus_engine::households::{Household, Member, DEFAULT_HOUSEHOLD_STORAGE_CAPACITY};
use nexus_engine::inventory::{Inventory, ItemKind};
use nexus_engine::mind::{Goal, KnownEntity, Memory};
use nexus_engine::partnerships::{
    clear_missing_partners, dissolve_unhealthy, try_dissolve, try_form, PartnershipDissolution, PartnershipFormation,
};
use nexus_engine::perception::EntityPosition;
use nexus_engine::social::{
    apply_social_interactions, interaction_due, pending_interaction, social_pair_candidates, SocialPair,
};
use nexus_engine::time::TICKS_PER_YEAR;
use nexus_engine::transfers::{deposit_to_household, transfer_item, withdraw_from_household};
use nexus_engine::world::{Grid, Region, Terrain, Tile};

const ADULT: u64 = 25 * TICKS_PER_YEAR;
const ELDER: u64 = 70 * TICKS_PER_YEAR;
const CHILD: u64 = 5 * TICKS_PER_YEAR;
const INFANT: u64 = TICKS_PER_YEAR;

fn person(id: u32, x: u32, y: u32) -> Member {
    Member {
        id,
        x,
        y,
        alive: true,
        age_ticks: ADULT,
        partner_id: None,
        household_id: None,
        caregiver_id: None,
        mother_id: None,
        father_id: None,
        inventory: Inventory::new(50),
        memory: Memory::default(),
        visible_entities: Vec::new(),
        current_goal: None,
    }
}

fn acquaintance(id: u32, affinity: i16, interactions: u32) -> KnownEntity {
    KnownEntity {
        id,
        first_seen_tick: 0,
        last_seen_tick: 0,
        last_seen_x: 0,
        last_seen_y: 0,
        observed_ticks: 1,
        affinity,
        last_interaction_tick: 0,
        interaction_count: interactions,
        seek_retry_after_tick: None,
    }
}

fn plain_grid(width: u32, height: u32) -> Grid {
    Grid {
        width,
        height,
        tiles: (0..width * height).map(|_| Tile { terrain: Terrain::Plains }).collect(),
        region_ids: Vec::new(),
        regions: Vec::<Region>::new(),
        resources: vec![None; (width * height) as usize],
        renewable_resources: Vec::new(),
    }
}

fn fond_pair(affinity: i16, interactions: u32) -> Vec<Member> {
    let mut a = person(1, 0, 0);
    let mut b = person(2, 1, 0);
    a.memory.known_entities.push(acquaintance(2, affinity, interactions));
    b.memory.known_entities.push(acquaintance(1, affinity, interactions));
    vec![a, b]
}

#[test]
fn fond_unrelated_adults_form_a_partnership() {
    let mut members = fond_pair(260, 3);
    let genealogy = Genealogy::new();
    let formed = try_form(&mut members, &genealogy, 1, 2, 50, 500);
    assert_eq!(
        formed,
        Some(PartnershipFormation { actor_id: 1, target_id: 2, actor_affinity: 260, target_affinity: 260, compatibility_per_mille: 500 })
    );
    assert_eq!(members[0].partner_id, Some(2));
    assert_eq!(members[1].partner_id, Some(1));
}

#[test]
fn partnership_needs_affinity_above_the_discounted_threshold() {
    let mut members = fond_pair(260, 3);
    let genealogy = Genealogy::new();
    assert_eq!(try_form(&mut members, &genealogy, 1, 2, 30, 300), None);
    assert_eq!(members[0].partner_id, None);
}

#[test]
fn partnership_needs_repeated_interactions() {
    let mut members = fond_pair(900, 2);
    let genealogy = Genealogy::new();
    assert_eq!(try_form(&mut members, &genealogy, 1, 2, 0, 0), None);
}

#[test]
fn children_and_the_dead_do_not_form_partnerships() {
    let genealogy = Genealogy::new();
    let mut members = fond_pair(900, 5);
    members[1].age_ticks = CHILD;
    assert_eq!(try_form(&mut members, &genealogy, 1, 2, 0, 0), None);
    let mut members = fond_pair(900, 5);
    members[1].alive = false;
    assert_eq!(try_form(&mut members, &genealogy, 1, 2, 0, 0), None);
}

#[test]
fn siblings_do_not_form_partnerships() {
    let mut genealogy = Genealogy::new();
    genealogy.register(1, Some(10), Some(11));
    genealogy.register(2, Some(10), Some(11));
    let mut members = fond_pair(900, 5);
    assert_eq!(try_form(&mut members, &genealogy, 1, 2, 0, 0), None);
    assert_eq!(members[0].partner_id, None);
}

#[test]
fn partnership_dissolves_when_one_side_is_no_longer_fond() {
    let mut members = fond_pair(100, 5);
    members[0].partner_id = Some(2);
    members[1].partner_id = Some(1);
    assert_eq!(try_dissolve(&mut members, 1, 2), None);

    members[1].memory.known_entities[0].affinity = 0;
    assert_eq!(
        try_dissolve(&mut members, 1, 2),
        Some(PartnershipDissolution { actor_id: 1, target_id: 2, actor_affinity: 100, target_affinity: 0 })
    );
    assert_eq!(members[0].partner_id, None);
    assert_eq!(members[1].partner_id, None);
}

#[test]
fn dissolve_unhealthy_visits_each_partnership_once() {
    let mut members = fond_pair(-5, 5);
    members[0].partner_id = Some(2);
    members[1].partner_id = Some(1);
    let ended = dissolve_unhealthy(&mut members);
    assert_eq!(ended.len(), 1);
    assert_eq!(ended[0].actor_id, 1);
    assert_eq!(ended[0].target_id, 2);
}

#[test]
fn partners_who_left_the_list_are_forgotten() {
    let mut members = vec![person(1, 0, 0), person(3, 0, 0)];
    members[0].partner_id = Some(2);
    members[1].partner_id = Some(1);
    clear_missing_partners(&mut members);
    assert_eq!(members[0].partner_id, None);
    assert_eq!(members[1].partner_id, Some(1));
}

#[test]
fn transfer_moves_what_the_source_holds_and_the_target_can_carry() {
    let mut members = vec![person(1, 0, 0), person(2, 0, 0)];
    members[0].inventory.add(ItemKind::Food, 30);
    members[1].inventory.add(ItemKind::Stone, 40);
    assert_eq!(transfer_item(&mut members, 1, 2, ItemKind::Food, 25), 10);
    assert_eq!(members[0].inventory.amount(ItemKind::Food), 20);
    assert_eq!(members[1].inventory.amount(ItemKind::Food), 10);
    assert_eq!(transfer_item(&mut members, 1, 1, ItemKind::Food, 5), 0);
    assert_eq!(transfer_item(&mut members, 1, 9, ItemKind::Food, 5), 0);
    assert_eq!(transfer_item(&mut members, 1, 2, ItemKind::Food, 0), 0);
}

fn home(id: u32, x: u32, y: u32) -> Household {
    Household {
        id,
        formed_tick: 0,
        dissolved_tick: None,
        inheritance: None,
        migration: None,
        residence_x: x,
        residence_y: y,
        storage: Inventory::new(DEFAULT_HOUSEHOLD_STORAGE_CAPACITY),
    }
}

#[test]
fn storage_is_used_only_at_an_active_residence() {
    let mut members = vec![person(1, 4, 4)];
    members[0].household_id = Some(7);
    members[0].inventory.add(ItemKind::Food, 12);
    let mut households = vec![home(7, 4, 4)];

    assert_eq!(deposit_to_household(&mut members, &mut households, 1, ItemKind::Food, 20), 12);
    assert_eq!(households[0].storage.amount(ItemKind::Food), 12);
    assert_eq!(withdraw_from_household(&mut members, &mut households, 1, ItemKind::Food, 5), 5);
    assert_eq!(members[0].inventory.amount(ItemKind::Food), 5);

    members[0].x = 5;
    assert_eq!(withdraw_from_household(&mut members, &mut households, 1, ItemKind::Food, 5), 0);
    members[0].x = 4;
    households[0].dissolved_tick = Some(3);
    assert_eq!(deposit_to_household(&mut members, &mut households, 1, ItemKind::Food, 5), 0);
}

#[test]
fn infants_ride_with_their_living_caregiver() {
    let mut members = vec![person(1, 9, 9), person(2, 0, 0), person(3, 5, 5)];
    members[1].age_ticks = INFANT;
    members[1].caregiver_id = Some(1);
    members[2].age_ticks = INFANT;
    members[2].caregiver_id = Some(4);
    snap_infants_to_caregivers(&mut members);
    assert_eq!((members[1].x, members[1].y), (9, 9));
    assert_eq!((members[2].x, members[2].y), (5, 5));

    members[0].alive = false;
    members[0].x = 1;
    snap_infants_to_caregivers(&mut members);
    assert_eq!((members[1].x, members[1].y), (9, 9));
}

#[test]
fn grown_dependents_are_released_and_stop_following() {
    let mut members = vec![person(1, 0, 0), person(2, 0, 0), person(3, 0, 0)];
    members[0].caregiver_id = Some(9);
    members[0].current_goal = Some(Goal::Follow);
    members[1].caregiver_id = Some(9);
    members[1].current_goal = Some(Goal::Eat);
    members[2].age_ticks = CHILD;
    members[2].caregiver_id = Some(9);
    let stopped = clear_graduated_caregivers(&mut members);
    assert_eq!(stopped, vec![0]);
    assert_eq!(members[0].caregiver_id, None);
    assert_eq!(members[0].current_goal, None);
    assert_eq!(members[1].caregiver_id, None);
    assert_eq!(members[1].current_goal, Some(Goal::Eat));
    assert_eq!(members[2].caregiver_id, Some(9));
}

#[test]
fn the_nearest_adult_comes_before_a_nearer_elder() {
    let world = plain_grid(20, 20);
    let mut members = vec![person(1, 9, 9), person(2, 3, 3), person(3, 2, 2), person(4, 1, 1)];
    members[1].age_ticks = ELDER;
    members[2].age_ticks = CHILD;
    assert_eq!(caregiver_priority(LifeStage::Adult), Some(0));
    assert_eq!(caregiver_priority(LifeStage::Elder), Some(1));
    assert_eq!(caregiver_priority(LifeStage::Child), None);
    assert_eq!(find_nearest_caregiver(&members, (2, 2), &world), Some(4));
    members[3].alive = false;
    assert_eq!(find_nearest_caregiver(&members, (2, 2), &world), Some(1));
}

#[test]
fn orphans_get_the_nearest_caregiver_and_drop_their_plan() {
    let world = plain_grid(20, 20);
    let mut members = vec![person(1, 9, 9), person(2, 1, 1), person(3, 2, 2)];
    members[2].age_ticks = CHILD;
    members[2].caregiver_id = Some(8);
    members[2].current_goal = Some(Goal::Follow);
    let changed = reassign_orphaned_dependents(&mut members, &world);
    assert_eq!(changed, vec![2]);
    assert_eq!(members[2].caregiver_id, Some(2));
    assert_eq!(members[2].current_goal, None);
    assert!(reassign_orphaned_dependents(&mut members, &world).is_empty());
}

#[test]
fn mutual_sightings_within_reach_make_one_pair() {
    let mut members = vec![person(1, 0, 0), person(2, 1, 0), person(3, 9, 9)];
    members[0].visible_entities = vec![2, 3];
    members[1].visible_entities = vec![1];
    members[2].visible_entities = vec![1];
    let population: Vec<EntityPosition> =
        members.iter().map(|m| EntityPosition { id: m.id, x: m.x, y: m.y }).collect();
    let pairs = social_pair_candidates(&members, &population);
    assert_eq!(
        pairs,
        vec![SocialPair {
            actor_index: 0,
            target_index: 1,
            actor_id: 1,
            target_id: 2,
            actor_location: (0, 0),
            target_location: (1, 0),
            last_interaction: 0,
        }]
    );
}

#[test]
fn interactions_wait_for_the_interval() {
    assert!(interaction_due(0, 5, 72));
    assert!(!interaction_due(100, 150, 72));
    assert!(interaction_due(100, 172, 72));
}

#[test]
fn both_sides_remember_an_interaction() {
    let mut members = fond_pair(95, 0);
    let pair = SocialPair {
        actor_index: 0,
        target_index: 1,
        actor_id: 1,
        target_id: 2,
        actor_location: (0, 0),
        target_location: (1, 0),
        last_interaction: 0,
    };
    let pending = vec![pending_interaction(pair, 40, 12, 6, -2).unwrap()];
    let done = apply_social_interactions(&mut members, &pending, 40);
    assert_eq!(done.len(), 1);
    assert_eq!(members[0].memory.known_entities[0].affinity, 101);
    assert_eq!(members[1].memory.known_entities[0].affinity, 93);
    assert_eq!(members[0].memory.known_entities[0].last_interaction_tick, 40);
    assert_eq!(members[1].memory.known_entities[0].interaction_count, 1);
    let crossing = done[0].actor_affinity_change.unwrap();
    assert_eq!((crossing.previous_affinity, crossing.new_affinity, crossing.delta), (95, 101, 6));
    assert_eq!(done[0].target_affinity_change, None);
}

#[test]
fn meals_are_recorded_where_the_eater_stands() {
    let members = vec![person(1, 3, 4), person(2, 5, 6)];
    let mut history = RecentEventHistory::new();
    record_food_consumptions(&mut history, &members, &vec![(1, 10), (2, 0), (9, 5), (2, 7)], 40);
    assert_eq!(history.len(), 2);
    let first = history.get(0);
    assert_eq!(first.kind, SimulationEventKind::Consumption);
    assert_eq!(first.cause, SimulationEventCause::AteFood);
    assert_eq!((first.location.x, first.location.y), (3, 4));
    assert_eq!(first.details, SimulationEventDetails::Consumption { amount: 10 });
    assert_eq!(history.get(1).actor_id, 2);
    assert_eq!(history.get(1).related_entity_ids, vec![2]);
}

#[test]
fn discoveries_are_recorded_in_order() {
    let mut history = RecentEventHistory::new();
    let found = vec![
        ResourceDiscovery { entity_id: 4, x: 1, y: 2, kind: ResourceKind::Stone, amount: 30 },
        ResourceDiscovery { entity_id: 5, x: 7, y: 8, kind: ResourceKind::Food, amount: 9 },
    ];
    record_resource_discoveries(&mut history, &found, 3);
    assert_eq!(history.len(), 2);
    assert_eq!(history.get(1).details, SimulationEventDetails::ResourceDiscovery { kind: ResourceKind::Food, amount: 9 });
    assert_eq!(history.get(0).id.get() + 1, history.get(1).id.get());
}

#[test]
fn affinity_changes_name_their_cause() {
    let mut history = RecentEventHistory::new();
    let change = AffinityChangeRecord { target_id: 8, previous_affinity: 95, new_affinity: 101, delta: 6 };
    let first = record_affinity_change(&mut history, 3, (1, 1), change, SimulationEventCause::MutualSocialContact, None, 9);
    let second =
        record_affinity_change(&mut history, 8, (2, 2), change, SimulationEventCause::FoodShared, Some(first), 9);
    assert_eq!(history.get(1).caused_by_event_id, Some(first));
    assert_eq!(history.get(1).id, second);
    assert_eq!(history.get(0).related_entity_ids, vec![3, 8]);
}

#[test]
fn share_inputs_read_dependency_affinity_and_role() {
    let mut members = fond_pair(250, 1);
    members[1].caregiver_id = Some(1);
    members[0].partner_id = Some(2);
    let attempt = FoodShareAttempt { actor_id: 1, target_id: 2, actor_location: (0, 0), amount: 5 };
    assert_eq!(
        food_share_inputs(&members, attempt),
        Some(ShareInputs { target_is_dependent: true, affinity: 250, role: CloseRelationshipRole::CurrentPartner })
    );
    let stranger = FoodShareAttempt { actor_id: 1, target_id: 7, actor_location: (0, 0), amount: 5 };
    assert_eq!(food_share_inputs(&members, stranger), None);
}

#[test]
fn a_willing_share_moves_food_and_earns_gratitude() {
    let mut members = fond_pair(90, 1);
    members[0].inventory.add(ItemKind::Food, 8);
    let mut history = RecentEventHistory::new();
    let attempt = FoodShareAttempt { actor_id: 1, target_id: 2, actor_location: (0, 0), amount: 5 };
    let outcome = settle_food_share(&mut members, &mut history, attempt, true, 12);
    assert_eq!(outcome, Some(FoodShareOutcome { attempt, willing: true, moved: 5 }));
    assert_eq!(members[1].inventory.amount(ItemKind::Food), 5);
    assert_eq!(members[1].memory.known_entities[0].affinity, 110);
    assert_eq!(history.len(), 2);
    assert_eq!(history.get(0).kind, SimulationEventKind::FoodShared);
    assert_eq!(history.get(1).kind, SimulationEventKind::AffinityChange);
    assert_eq!(history.get(1).caused_by_event_id, Some(history.get(0).id));
}

#[test]
fn a_refusal_breeds_resentment_and_can_end_a_partnership() {
    let mut members = fond_pair(10, 1);
    members[0].partner_id = Some(2);
    members[1].partner_id = Some(1);
    let mut history = RecentEventHistory::new();
    let attempt = FoodShareAttempt { actor_id: 1, target_id: 2, actor_location: (0, 0), amount: 5 };
    let outcome = settle_food_share(&mut members, &mut history, attempt, false, 12);
    assert_eq!(outcome, Some(FoodShareOutcome { attempt, willing: false, moved: 0 }));
    assert_eq!(members[1].memory.known_entities[0].affinity, -5);
    assert_eq!(members[0].partner_id, None);
    assert_eq!(members[1].partner_id, None);
    assert_eq!(history.get(0).kind, SimulationEventKind::FoodShareRefused);
    assert_eq!(history.get(history.len() - 1).kind, SimulationEventKind::PartnershipDissolved);
    assert_eq!(
        history.get(history.len() - 1).details,
        SimulationEventDetails::PartnershipDissolved { actor_affinity: -5, target_affinity: 10 }
    );
}

fn contact(actor_id: u32, target_id: u32) -> SocialInteraction {
    SocialInteraction {
        actor_id,
        target_id,
        location: (0, 0),
        actor_location: (0, 0),
        target_location: (1, 0),
        actor_affinity_delta: 4,
        target_affinity_delta: 4,
        actor_affinity_change: None,
        target_affinity_change: None,
    }
}

#[test]
fn an_interaction_between_fond_adults_forms_a_household() {
    let mut members = fond_pair(400, 5);
    let mut households: Vec<Household> = Vec::new();
    let mut next_household_id = 1;
    let genealogy = Genealogy::new();
    let mut history = RecentEventHistory::new();
    record_social_interaction(
        &mut members,
        &mut households,
        &mut next_household_id,
        &genealogy,
        &mut history,
        contact(1, 2),
        PairCompatibility { discount: 40, per_mille: 400 },
        77,
    );
    assert_eq!(members[0].partner_id, Some(2));
    assert_eq!(members[0].household_id, Some(1));
    assert_eq!(members[1].household_id, Some(1));
    assert_eq!(households.len(), 1);
    assert_eq!(next_household_id, 2);
    assert_eq!(history.len(), 2);
    assert_eq!(history.get(0).kind, SimulationEventKind::Interaction);
    assert_eq!(history.get(1).kind, SimulationEventKind::PartnershipFormed);
    assert_eq!(history.get(1).cause, SimulationEventCause::MutualCommitment);
    assert_eq!(
        history.get(1).details,
        SimulationEventDetails::PartnershipFormed { actor_affinity: 400, target_affinity: 400, compatibility_per_mille: 400 }
    );
}

#[test]
fn interactions_are_recorded_in_turn() {
    let mut members = fond_pair(50, 1);
    let mut households: Vec<Household> = Vec::new();
    let mut next_household_id = 1;
    let genealogy = Genealogy::new();
    let mut history = RecentEventHistory::new();
    let compat = vec![PairCompatibility { discount: 0, per_mille: 0 }; 2];
    record_social_interactions(
        &mut members,
        &mut households,
        &mut next_household_id,
        &genealogy,
        &mut history,
        &vec![contact(1, 2), contact(2, 1)],
        &compat,
        5,
    );
    assert_eq!(history.len(), 2);
    assert_eq!(members[0].partner_id, None);
}

#[test]
fn daily_decay_cools_old_bonds_and_ends_cold_partnerships() {
    let mut members = fond_pair(1, 5);
    members[0].partner_id = Some(2);
    members[1].partner_id = Some(1);
    let mut history = RecentEventHistory::new();
    run_daily_relationship_decay(&mut members, &mut history, TICKS_PER_DAY * 40 + 1);
    assert_eq!(members[0].memory.known_entities[0].affinity, 1);
    assert_eq!(history.len(), 0);

    run_daily_relationship_decay(&mut members, &mut history, TICKS_PER_DAY * 40);
    assert_eq!(members[0].memory.known_entities[0].affinity, 0);
    assert_eq!(members[1].memory.known_entities[0].affinity, 0);
    assert_eq!(members[0].partner_id, None);
    assert_eq!(history.len(), 1);
    assert_eq!(history.get(0).kind, SimulationEventKind::PartnershipDissolved);
    assert_eq!(history.get(0).cause, SimulationEventCause::RelationshipDecay);
}

#[test]
fn household_counts_tally_active_and_dissolved_households() {
    let mut members = vec![person(1, 0, 0), person(2, 0, 0), person(3, 0, 0), person(4, 0, 0)];
    members[0].household_id = Some(1);
    members[1].household_id = Some(1);
    members[1].age_ticks = CHILD;
    members[2].household_id = Some(2);
    members[3].household_id = Some(3);
    let mut households = vec![home(1, 0, 0), home(2, 0, 0), home(3, 0, 0)];
    households[0].formed_tick = 10;
    households[0].storage.add(ItemKind::Food, 7);
    households[2].formed_tick = 5;
    households[2].dissolved_tick = Some(25);
    households[2].inheritance =
        Some(HouseholdInheritance { resolved_tick: 25, decedent_id: 9, heir_id: None, destination_household_id: None });

    let counts = household_counts(&members, &households, 110);
    assert_eq!(counts.total_households, 3);
    assert_eq!(counts.active_households, 2);
    assert_eq!(counts.dissolved_households, 1);
    assert_eq!(counts.housed_entities, 3);
    assert_eq!(counts.unhoused_entities, 1);
    assert_eq!(counts.largest_active_household_size, 2);
    assert_eq!(counts.single_member_households, 1);
    assert_eq!(counts.households_with_dependents, 1);
    assert_eq!(counts.active_storage_capacity, 2 * DEFAULT_HOUSEHOLD_STORAGE_CAPACITY as u64);
    assert_eq!(counts.active_food_stored, 7);
    assert_eq!(counts.active_storage_used, 7);
    assert_eq!(counts.settled_inheritances, 1);
    assert_eq!(counts.inheritances_without_heir, 1);
    assert_eq!(counts.active_member_total, 3);
    assert_eq!(counts.active_age_total, 100 + 110);
    assert_eq!(counts.dissolved_lifetime_total, 20);
}

fn attempt(actor_id: u32, target_id: u32) -> HouseholdConflictAttempt {
    HouseholdConflictAttempt { actor_id, target_id, actor_x: 0, actor_y: 0 }
}

#[test]
fn conflicts_are_settled_once_per_pair_in_pair_order() {
    let mut a = person(1, 0, 0);
    a.memory.known_entities.push(acquaintance(2, -50, 1));
    let mut b = person(2, 0, 0);
    b.memory.known_entities.push(acquaintance(1, -80, 1));
    let c = person(3, 0, 0);
    let members = vec![a, b, c];
    let attempts = vec![attempt(3, 2), attempt(1, 2), attempt(2, 1), attempt(2, 3)];
    let order = conflict_order(&members, attempts);
    assert_eq!(order, vec![attempt(2, 1), attempt(2, 3)]);
}

#[test]
fn equal_conflict_attempts_keep_the_earliest() {
    let members = vec![person(1, 0, 0), person(2, 0, 0)];
    let first = HouseholdConflictAttempt { actor_id: 1, target_id: 2, actor_x: 4, actor_y: 4 };
    let second = HouseholdConflictAttempt { actor_id: 1, target_id: 2, actor_x: 9, actor_y: 9 };
    assert_eq!(conflict_order(&members, vec![first, second]), vec![first]);
    assert!(conflict_order(&members, Vec::new()).is_empty());
}

#[test]
fn only_the_living_past_infancy_take_a_turn() {
    let mut baby = person(2, 0, 0);
    baby.age_ticks = 0;
    let mut dead = person(3, 0, 0);
    dead.alive = false;
    let members = vec![person(1, 0, 0), baby, dead, person(4, 0, 0)];
    assert_eq!(acting_members(&members), vec![0, 3]);
}
