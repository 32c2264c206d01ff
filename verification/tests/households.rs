use nexus_engine::genealogy::Genealogy;
use nexus_engine::ties::DeathContext;
use nexus_engine::households::{
    settle_basic_inheritances, HouseholdInheritanceSettlement,
    assign_newborn, dissolve_empty_households, form_for_partnership, members_of, migration_proposal_is_better,
    plan_daily_household_migrations, set_member_household, settle_completed_migrations, transfer_inventory,
    Household, HouseholdDissolution, HouseholdMembershipChange, HouseholdMigration, Member, MigrationProposal,
    DEFAULT_HOUSEHOLD_STORAGE_CAPACITY,
};
use nexus_engine::inventory::{Inventory, ItemKind};
use nexus_engine::mind::{KnownResource, Memory};
use nexus_engine::state_hash::StateHasher;
use nexus_engine::time::TICKS_PER_YEAR;
use nexus_engine::world::{Grid, Region, ResourceKind, Terrain, Tile};

const ADULT: u64 = 25 * TICKS_PER_YEAR;
const CHILD: u64 = 5 * TICKS_PER_YEAR;

fn member(id: u32, x: u32, y: u32, household_id: Option<u32>) -> Member {
    Member {
        id,
        x,
        y,
        alive: true,
        age_ticks: ADULT,
        partner_id: None,
        household_id,
        caregiver_id: None,
        mother_id: None,
        father_id: None,
        inventory: Inventory::new(50),
        memory: Memory::default(),
        visible_entities: Vec::new(),
        current_goal: None,
    }
}

fn household(id: u32, x: u32, y: u32) -> Household {
    Household {
        id,
        formed_tick: 0,
        dissolved_tick: None,
        inheritance: None,
        migration: None,
        residence_x: x,
        residence_y: y,
        storage: Inventory::new(DEFAULT_HOUSEHOLD_STORAGE_CAPACITY),
    }
}

fn food_memory(x: u32, y: u32, amount: u16, last_seen_tick: u64) -> KnownResource {
    KnownResource {
        x,
        y,
        kind: ResourceKind::Food,
        last_seen_tick,
        estimated_amount: amount,
        failed_attempts: 0,
        avoid_until_tick: 0,
    }
}

fn plains(width: u32, height: u32) -> Grid {
    Grid {
        width,
        height,
        tiles: vec![Tile { terrain: Terrain::Plains }; (width * height) as usize],
        region_ids: Vec::new(),
        regions: Vec::<Region>::new(),
        resources: vec![None; (width * height) as usize],
        renewable_resources: Vec::new(),
    }
}

#[test]
fn partners_found_a_household_at_the_lower_id() {
    let mut members = vec![member(3, 4, 5, None), member(8, 9, 9, None)];
    members[0].partner_id = Some(8);
    members[1].partner_id = Some(3);
    let mut households = Vec::new();
    let mut next_id = 1;
    assert_eq!(form_for_partnership(&mut members, &mut households, &mut next_id, 8, 3, 77), Some(1));
    assert_eq!(next_id, 2);
    assert_eq!(households.len(), 1);
    assert_eq!((households[0].residence_x, households[0].residence_y), (4, 5));
    assert_eq!(households[0].formed_tick, 77);
    assert_eq!(households[0].storage.capacity(), DEFAULT_HOUSEHOLD_STORAGE_CAPACITY);
    assert_eq!(members[0].household_id, Some(1));
    assert_eq!(members[1].household_id, Some(1));
    assert_eq!(form_for_partnership(&mut members, &mut households, &mut next_id, 3, 8, 80), Some(1));
    assert_eq!(households.len(), 1);
}

#[test]
fn a_partner_joins_the_other_household() {
    let mut members = vec![member(1, 0, 0, Some(4)), member(2, 1, 1, None)];
    members[0].partner_id = Some(2);
    members[1].partner_id = Some(1);
    let mut households = vec![household(4, 0, 0)];
    let mut next_id = 5;
    assert_eq!(form_for_partnership(&mut members, &mut households, &mut next_id, 1, 2, 3), Some(4));
    assert_eq!(members[1].household_id, Some(4));
    assert_eq!(next_id, 5);
}

#[test]
fn partnership_needs_mutual_partners() {
    let mut members = vec![member(1, 0, 0, None), member(2, 1, 1, None)];
    members[0].partner_id = Some(2);
    let mut households = Vec::new();
    let mut next_id = 1;
    assert_eq!(form_for_partnership(&mut members, &mut households, &mut next_id, 1, 2, 3), None);
    assert!(households.is_empty());
    assert_eq!(form_for_partnership(&mut members, &mut households, &mut next_id, 1, 1, 3), None);
}

#[test]
fn membership_changes_need_an_active_target() {
    let mut members = vec![member(1, 0, 0, None), member(2, 0, 0, Some(7))];
    let mut households = vec![household(7, 0, 0), household(9, 0, 0)];
    households[1].dissolved_tick = Some(5);
    assert_eq!(set_member_household(&mut members, &households, 1, Some(9)), None);
    assert_eq!(set_member_household(&mut members, &households, 1, Some(8)), None);
    assert_eq!(set_member_household(&mut members, &households, 3, Some(7)), None);
    assert_eq!(set_member_household(&mut members, &households, 2, Some(7)), None);
    assert_eq!(
        set_member_household(&mut members, &households, 1, Some(7)),
        Some(HouseholdMembershipChange { entity_id: 1, previous_household_id: None, new_household_id: Some(7) })
    );
    assert_eq!(
        set_member_household(&mut members, &households, 2, None),
        Some(HouseholdMembershipChange { entity_id: 2, previous_household_id: Some(7), new_household_id: None })
    );
    assert_eq!(members_of(&members, 7), vec![1]);
}

#[test]
fn newborns_join_their_caregivers_household() {
    let mut members = vec![member(1, 0, 0, Some(3)), member(2, 0, 0, None), member(5, 0, 0, None)];
    members[2].age_ticks = 0;
    let households = vec![household(3, 0, 0)];
    assert_eq!(assign_newborn(&mut members, &households, 5, 1), Some(3));
    assert_eq!(members[2].household_id, Some(3));
    assert_eq!(assign_newborn(&mut members, &households, 5, 2), None);
}

#[test]
fn households_without_members_dissolve() {
    let members = vec![member(1, 0, 0, Some(2))];
    let mut households = vec![household(2, 0, 0), household(4, 0, 0), household(6, 0, 0)];
    households[2].dissolved_tick = Some(1);
    let dissolved = dissolve_empty_households(&members, &mut households, 40);
    assert_eq!(dissolved, vec![HouseholdDissolution { household_id: 4, dissolved_tick: 40 }]);
    assert_eq!(households[0].dissolved_tick, None);
    assert_eq!(households[1].dissolved_tick, Some(40));
    assert_eq!(households[2].dissolved_tick, Some(1));
}

#[test]
fn transfers_fill_the_destination_kind_by_kind() {
    let mut source = Inventory::new(100);
    source.add(ItemKind::Food, 30);
    source.add(ItemKind::Timber, 20);
    source.add(ItemKind::Iron, 5);
    let mut destination = Inventory::new(40);
    destination.add(ItemKind::Stone, 5);
    let mut moved = [0u16; 4];
    transfer_inventory(&mut source, &mut destination, &mut moved);
    assert_eq!(moved, [30, 5, 0, 0]);
    assert_eq!(source.amounts(), &[0, 15, 0, 5]);
    assert_eq!(destination.amounts(), &[30, 5, 5, 0]);
}

#[test]
fn migration_completes_when_everyone_arrived() {
    let mut households = vec![household(1, 0, 0), household(2, 0, 0)];
    households[0].migration = Some(HouseholdMigration {
        started_tick: 5,
        proposer_id: 10,
        target_x: 20,
        target_y: 20,
        completed_tick: None,
    });
    households[1].migration = households[0].migration;
    let members = vec![
        member(10, 20, 21, Some(1)),
        member(11, 19, 20, Some(1)),
        member(12, 20, 20, Some(2)),
        member(13, 10, 10, Some(2)),
    ];
    settle_completed_migrations(&members, &mut households, 90);
    assert_eq!((households[0].residence_x, households[0].residence_y), (20, 20));
    assert_eq!(households[0].migration.unwrap().completed_tick, Some(90));
    assert_eq!((households[1].residence_x, households[1].residence_y), (0, 0));
    assert_eq!(households[1].active_migration_target(), Some((20, 20)));
}

#[test]
fn hungry_households_move_toward_the_best_far_food() {
    let world = plains(40, 40);
    let mut households = vec![household(1, 2, 2)];
    let mut adult = member(10, 2, 2, Some(1));
    adult.memory.known_resources = vec![food_memory(30, 2, 50, 7), food_memory(2, 25, 80, 6), food_memory(4, 4, 5, 9)];
    let mut child = member(11, 2, 3, Some(1));
    child.age_ticks = CHILD;
    child.memory.known_resources = vec![food_memory(12, 2, 50, 3)];
    let members = vec![adult, child];

    plan_daily_household_migrations(&members, &mut households, &world, 23);
    assert_eq!(households[0].migration, None);

    plan_daily_household_migrations(&members, &mut households, &world, 24);
    assert_eq!(
        households[0].migration,
        Some(HouseholdMigration { started_tick: 24, proposer_id: 10, target_x: 2, target_y: 25, completed_tick: None })
    );
}

#[test]
fn households_with_food_or_nearby_food_stay() {
    let world = plains(40, 40);
    let mut stocked = household(1, 2, 2);
    stocked.storage.add(ItemKind::Food, 20);
    let mut households = vec![stocked, household(2, 30, 30)];
    let mut first = member(10, 2, 2, Some(1));
    first.memory.known_resources = vec![food_memory(30, 2, 50, 7)];
    let mut second = member(11, 2, 3, Some(1));
    second.memory.known_resources = vec![food_memory(30, 3, 50, 7)];
    let mut third = member(12, 30, 30, Some(2));
    third.memory.known_resources = vec![food_memory(36, 30, 50, 7), food_memory(5, 5, 50, 7)];
    let members = vec![first, second, third];
    plan_daily_household_migrations(&members, &mut households, &world, 48);
    assert_eq!(households[0].migration, None);
    assert_eq!(households[1].migration, None);
}

#[test]
fn proposals_prefer_near_then_plentiful_then_fresh() {
    let base = MigrationProposal { distance: 10, amount: 20, last_seen_tick: 5, proposer_id: 3, target: (4, 4) };
    assert!(migration_proposal_is_better(MigrationProposal { distance: 9, ..base }, base));
    assert!(migration_proposal_is_better(MigrationProposal { amount: 21, ..base }, base));
    assert!(migration_proposal_is_better(MigrationProposal { last_seen_tick: 6, ..base }, base));
    assert!(migration_proposal_is_better(MigrationProposal { proposer_id: 2, ..base }, base));
    assert!(migration_proposal_is_better(MigrationProposal { target: (3, 9), ..base }, base));
    assert!(!migration_proposal_is_better(base, base));
}

#[test]
fn household_hash_covers_storage_and_migration() {
    let plain = household(1, 0, 0);
    let mut stocked = plain;
    stocked.storage.add(ItemKind::Food, 1);
    let mut moving = plain;
    moving.migration = Some(HouseholdMigration {
        started_tick: 0,
        proposer_id: 1,
        target_x: 0,
        target_y: 0,
        completed_tick: None,
    });
    let digest = |h: &Household| {
        let mut hasher = StateHasher::new();
        h.hash_state(&mut hasher);
        hasher.finish()
    };
    assert_ne!(digest(&plain), digest(&stocked));
    assert_ne!(digest(&plain), digest(&moving));
    assert_eq!(digest(&plain), digest(&household(1, 0, 0)));
}

#[test]
fn estates_pass_to_the_surviving_partner_household() {
    let mut genealogy = Genealogy::new();
    genealogy.register(1, None, None);
    genealogy.register(2, None, None);
    genealogy.register(3, Some(1), Some(2));
    genealogy.register(4, None, None);

    let mut members = vec![member(2, 0, 0, Some(20)), member(3, 0, 0, None)];
    let mut households = vec![household(10, 0, 0), household(20, 0, 0), household(30, 0, 0), household(40, 0, 0)];
    households[0].dissolved_tick = Some(100);
    households[0].storage.add(ItemKind::Food, 30);
    households[0].storage.add(ItemKind::Stone, 4);
    households[1].storage.add(ItemKind::Timber, 190);
    households[2].dissolved_tick = Some(100);
    households[3].dissolved_tick = Some(100);
    let deaths = vec![
        DeathContext { entity_id: 1, household_id: Some(10), partner_id: Some(2), caregiver_id: None },
        DeathContext { entity_id: 4, household_id: Some(30), partner_id: None, caregiver_id: None },
        DeathContext { entity_id: 9, household_id: Some(40), partner_id: None, caregiver_id: None },
    ];
    let dissolutions = vec![
        HouseholdDissolution { household_id: 10, dissolved_tick: 100 },
        HouseholdDissolution { household_id: 30, dissolved_tick: 100 },
    ];
    let settled = settle_basic_inheritances(&mut members, &mut households, &genealogy, &deaths, &dissolutions, 100);
    assert_eq!(
        settled,
        vec![
            HouseholdInheritanceSettlement {
                household_id: 10,
                decedent_id: 1,
                heir_id: Some(2),
                destination_household_id: Some(20),
                transferred: [10, 0, 0, 0],
            },
            HouseholdInheritanceSettlement {
                household_id: 30,
                decedent_id: 4,
                heir_id: None,
                destination_household_id: None,
                transferred: [0, 0, 0, 0],
            },
        ]
    );
    assert_eq!(households[0].storage.amounts(), &[20, 0, 4, 0]);
    assert_eq!(households[1].storage.amounts(), &[10, 190, 0, 0]);
    assert_eq!(households[0].inheritance.unwrap().heir_id, Some(2));
    assert_eq!(households[2].inheritance.unwrap().decedent_id, 4);
    assert_eq!(households[3].inheritance, None);
}

#[test]
fn an_unhoused_child_carries_the_estate() {
    let mut genealogy = Genealogy::new();
    genealogy.register(1, None, None);
    genealogy.register(5, Some(1), None);
    genealogy.register(6, None, None);
    genealogy.register(7, Some(6), Some(1));
    let mut members = vec![member(5, 0, 0, None), member(7, 0, 0, None)];
    members[0].inventory = Inventory::new(12);
    let mut households = vec![household(10, 0, 0)];
    households[0].dissolved_tick = Some(8);
    households[0].storage.add(ItemKind::Iron, 9);
    households[0].storage.add(ItemKind::Food, 9);
    let deaths = vec![DeathContext { entity_id: 1, household_id: Some(10), partner_id: None, caregiver_id: None }];
    let dissolutions = vec![HouseholdDissolution { household_id: 10, dissolved_tick: 8 }];
    let settled = settle_basic_inheritances(&mut members, &mut households, &genealogy, &deaths, &dissolutions, 8);
    assert_eq!(settled.len(), 1);
    assert_eq!(settled[0].heir_id, Some(5));
    assert_eq!(settled[0].destination_household_id, None);
    assert_eq!(settled[0].transferred, [9, 0, 0, 3]);
    assert_eq!(members[0].inventory.amounts(), &[9, 0, 0, 3]);
    assert_eq!(households[0].storage.amounts(), &[0, 0, 0, 6]);
}
