//! Persistent households: who belongs where, shared storage, dissolution when nobody is
//! left, inheritance of the stores, and daily migration toward known food.
use vstd::prelude::*;
use crate::inventory::{spec_item_index, spec_total, Inventory, ItemKind};
use crate::mind::{spec_manhattan, Goal, KnownResource, Memory};
use crate::entity::{spec_life_stage, LifeStage};
use crate::world::{Grid, ResourceKind};
use crate::action::FOOD_CONSUMED_PER_MEAL;
use crate::state_hash::{absorb, absorb_all, lemma_absorb_concat, opt_u32_words, opt_u64_words, StateHasher};
use crate::time::TICKS_PER_DAY;
use crate::idset::IdSet;
use crate::genealogy::{Genealogy, LineageRecord};
use crate::kinship::{
    capped_generation, descendants_of, generation_distance, lineage_of, lists_relatives, parent_of, reachable, siblings_of,
    spec_siblings,
};
use crate::ties::DeathContext;

verus! {

pub const DEFAULT_HOUSEHOLD_STORAGE_CAPACITY: u16 = 200;
/// Food remembered this close to the residence counts as local.
pub const HOUSEHOLD_LOCAL_FOOD_RADIUS: u32 = 8;
/// A household waits a week after arriving before it considers moving again.
pub const HOUSEHOLD_MIGRATION_COOLDOWN_TICKS: u64 = 168;
/// Members this close to the target have arrived.
pub const HOUSEHOLD_MIGRATION_ARRIVAL_RADIUS: u32 = 2;

/// A move of the household toward remembered food.
#[derive(Clone, Copy, Debug, PartialEq, Eq, Structural)]
pub struct HouseholdMigration {
    pub started_tick: u64,
    pub proposer_id: u32,
    pub target_x: u32,
    pub target_y: u32,
    pub completed_tick: Option<u64>,
}

/// How the stores of a dissolved household were passed on.
#[derive(Clone, Copy, Debug, PartialEq, Eq, Structural)]
pub struct HouseholdInheritance {
    pub resolved_tick: u64,
    pub decedent_id: u32,
    pub heir_id: Option<u32>,
    pub destination_household_id: Option<u32>,
}

#[derive(Clone, Copy, Debug, PartialEq, Eq)]
pub struct Household {
    pub id: u32,
    pub formed_tick: u64,
    pub dissolved_tick: Option<u64>,
    pub inheritance: Option<HouseholdInheritance>,
    pub migration: Option<HouseholdMigration>,
    pub residence_x: u32,
    pub residence_y: u32,
    pub storage: Inventory,
}

/// The migration still under way, if any.
pub open spec fn spec_active_migration_target(household: Household) -> Option<(u32, u32)> {
    match household.migration {
        Some(migration) => if migration.completed_tick is None {
            Some((migration.target_x, migration.target_y))
        } else {
            None
        },
        None => None,
    }
}

/// The words of a household's identity, age, residence and storage.
pub open spec fn header_words(household: Household) -> Seq<u64> {
    let amounts = household.storage.spec_amounts();
    seq![household.id as u64, household.formed_tick] + opt_u64_words(household.dissolved_tick) + seq![
        household.residence_x as u64,
        household.residence_y as u64,
        household.storage.spec_capacity() as u64,
        amounts[0] as u64,
        amounts[1] as u64,
        amounts[2] as u64,
        amounts[3] as u64,
    ]
}

pub open spec fn migration_words(migration: Option<HouseholdMigration>) -> Seq<u64> {
    match migration {
        Some(m) => seq![1u64, m.started_tick, m.proposer_id as u64, m.target_x as u64, m.target_y as u64]
            + opt_u64_words(m.completed_tick),
        None => seq![0u64],
    }
}

pub open spec fn inheritance_words(inheritance: Option<HouseholdInheritance>) -> Seq<u64> {
    match inheritance {
        Some(i) => seq![1u64, i.resolved_tick, i.decedent_id as u64] + opt_u32_words(i.heir_id) + opt_u32_words(
            i.destination_household_id,
        ),
        None => seq![0u64],
    }
}

/// The words one household contributes to the state hash.
pub open spec fn household_words(household: Household) -> Seq<u64> {
    header_words(household) + migration_words(household.migration) + inheritance_words(household.inheritance)
}

proof fn lemma_absorb_push(start: u64, words: Seq<u64>, w: u64)
    ensures
        absorb_all(start, words.push(w)) == absorb(absorb_all(start, words), w),
{
    assert(words.push(w).drop_last() =~= words);
}

impl Household {
    pub fn is_active(&self) -> (r: bool)
        ensures
            r == (self.dissolved_tick is None),
    {
        self.dissolved_tick.is_none()
    }

    pub fn active_migration_target(&self) -> (r: Option<(u32, u32)>)
        ensures
            r == spec_active_migration_target(*self),
    {
        match self.migration {
            Some(migration) => if migration.completed_tick.is_none() {
                Some((migration.target_x, migration.target_y))
            } else {
                None
            },
            None => None,
        }
    }

    fn hash_header(&self, hasher: &mut StateHasher)
        ensures
            final(hasher).spec_state() == absorb_all(old(hasher).spec_state(), header_words(*self)),
    {
        let ghost start = hasher.spec_state();
        let ghost mut words: Seq<u64> = Seq::empty();
        hasher.write_u32(self.id);
        proof {
            lemma_absorb_push(start, words, self.id as u64);
            words = words.push(self.id as u64);
        }
        hasher.write_u64(self.formed_tick);
        proof {
            lemma_absorb_push(start, words, self.formed_tick);
            words = words.push(self.formed_tick);
        }
        hasher.write_opt_u64(self.dissolved_tick);
        proof {
            lemma_absorb_concat(start, words, opt_u64_words(self.dissolved_tick));
            words = words + opt_u64_words(self.dissolved_tick);
        }
        hasher.write_u32(self.residence_x);
        proof {
            lemma_absorb_push(start, words, self.residence_x as u64);
            words = words.push(self.residence_x as u64);
        }
        hasher.write_u32(self.residence_y);
        proof {
            lemma_absorb_push(start, words, self.residence_y as u64);
            words = words.push(self.residence_y as u64);
        }
        hasher.write_u16(self.storage.capacity());
        proof {
            lemma_absorb_push(start, words, self.storage.spec_capacity() as u64);
            words = words.push(self.storage.spec_capacity() as u64);
        }
        let amounts = self.storage.amounts();
        proof {
            self.storage.lemma_one_slot_per_kind();
        }
        let mut i: usize = 0;
        while i < 4
            invariant
                0 <= i <= 4,
                amounts@ == self.storage.spec_amounts(),
                amounts@.len() == 4,
                hasher.spec_state() == absorb_all(start, words),
                words == seq![self.id as u64, self.formed_tick] + opt_u64_words(self.dissolved_tick) + seq![
                    self.residence_x as u64,
                    self.residence_y as u64,
                    self.storage.spec_capacity() as u64,
                ] + Seq::new(i as nat, |k: int| amounts@[k] as u64),
            decreases 4 - i,
        {
            hasher.write_u16(amounts[i]);
            proof {
                lemma_absorb_push(start, words, amounts@[i as int] as u64);
                assert(Seq::new((i + 1) as nat, |k: int| amounts@[k] as u64) =~= Seq::new(
                    i as nat,
                    |k: int| amounts@[k] as u64,
                ).push(amounts@[i as int] as u64));
                words = words.push(amounts@[i as int] as u64);
            }
            i += 1;
        }
        proof {
            let a = self.storage.spec_amounts();
            assert(Seq::new(4, |k: int| amounts@[k] as u64) =~= seq![a[0] as u64, a[1] as u64, a[2] as u64, a[3] as u64]);
            assert(words =~= header_words(*self));
        }
    }

    fn hash_migration(migration: Option<HouseholdMigration>, hasher: &mut StateHasher)
        ensures
            final(hasher).spec_state() == absorb_all(old(hasher).spec_state(), migration_words(migration)),
    {
        let ghost start = hasher.spec_state();
        let ghost mut words: Seq<u64> = Seq::empty();
        match migration {
            Some(m) => {
                hasher.write_bool(true);
                proof {
                    lemma_absorb_push(start, words, 1u64);
                    words = words.push(1u64);
                }
                hasher.write_u64(m.started_tick);
                proof {
                    lemma_absorb_push(start, words, m.started_tick);
                    words = words.push(m.started_tick);
                }
                hasher.write_u32(m.proposer_id);
                proof {
                    lemma_absorb_push(start, words, m.proposer_id as u64);
                    words = words.push(m.proposer_id as u64);
                }
                hasher.write_u32(m.target_x);
                proof {
                    lemma_absorb_push(start, words, m.target_x as u64);
                    words = words.push(m.target_x as u64);
                }
                hasher.write_u32(m.target_y);
                proof {
                    lemma_absorb_push(start, words, m.target_y as u64);
                    words = words.push(m.target_y as u64);
                }
                hasher.write_opt_u64(m.completed_tick);
                proof {
                    lemma_absorb_concat(start, words, opt_u64_words(m.completed_tick));
                    words = words + opt_u64_words(m.completed_tick);
                    assert(words =~= migration_words(migration));
                }
            },
            None => {
                hasher.write_bool(false);
                proof {
                    lemma_absorb_push(start, words, 0u64);
                    words = words.push(0u64);
                    assert(words =~= migration_words(migration));
                }
            },
        }
    }

    fn hash_inheritance(inheritance: Option<HouseholdInheritance>, hasher: &mut StateHasher)
        ensures
            final(hasher).spec_state() == absorb_all(old(hasher).spec_state(), inheritance_words(inheritance)),
    {
        let ghost start = hasher.spec_state();
        let ghost mut words: Seq<u64> = Seq::empty();
        match inheritance {
            Some(i) => {
                hasher.write_bool(true);
                proof {
                    lemma_absorb_push(start, words, 1u64);
                    words = words.push(1u64);
                }
                hasher.write_u64(i.resolved_tick);
                proof {
                    lemma_absorb_push(start, words, i.resolved_tick);
                    words = words.push(i.resolved_tick);
                }
                hasher.write_u32(i.decedent_id);
                proof {
                    lemma_absorb_push(start, words, i.decedent_id as u64);
                    words = words.push(i.decedent_id as u64);
                }
                hasher.write_opt_u32(i.heir_id);
                proof {
                    lemma_absorb_concat(start, words, opt_u32_words(i.heir_id));
                    words = words + opt_u32_words(i.heir_id);
                }
                hasher.write_opt_u32(i.destination_household_id);
                proof {
                    lemma_absorb_concat(start, words, opt_u32_words(i.destination_household_id));
                    words = words + opt_u32_words(i.destination_household_id);
                    assert(words =~= inheritance_words(inheritance));
                }
            },
            None => {
                hasher.write_bool(false);
                proof {
                    lemma_absorb_push(start, words, 0u64);
                    words = words.push(0u64);
                    assert(words =~= inheritance_words(inheritance));
                }
            },
        }
    }

    /// Absorbs the household: identity, age, residence, storage, migration and
    /// inheritance.
    pub fn hash_state(&self, hasher: &mut StateHasher)
        ensures
            final(hasher).spec_state() == absorb_all(old(hasher).spec_state(), household_words(*self)),
    {
        let ghost start = hasher.spec_state();
        self.hash_header(hasher);
        Self::hash_migration(self.migration, hasher);
        proof {
            lemma_absorb_concat(start, header_words(*self), migration_words(self.migration));
        }
        Self::hash_inheritance(self.inheritance, hasher);
        proof {
            lemma_absorb_concat(
                start,
                header_words(*self) + migration_words(self.migration),
                inheritance_words(self.inheritance),
            );
        }
    }
}

/// What the rules of households, partnerships, care and shared food read and change of
/// one individual; bodily state kept in floating point stays with the caller, which
/// reports it as `alive`.
pub struct Member {
    pub id: u32,
    pub x: u32,
    pub y: u32,
    /// Health above zero.
    pub alive: bool,
    pub age_ticks: u64,
    pub partner_id: Option<u32>,
    pub household_id: Option<u32>,
    pub caregiver_id: Option<u32>,
    pub mother_id: Option<u32>,
    pub father_id: Option<u32>,
    pub inventory: Inventory,
    pub memory: Memory,
    /// Ids of the others in view, in increasing order.
    pub visible_entities: Vec<u32>,
    /// The goal being pursued, if any; the plan and path that serve it stay with the
    /// caller.
    pub current_goal: Option<Goal>,
}

/// Individuals listed in strictly increasing id order.
pub open spec fn members_by_id(members: Seq<Member>) -> bool {
    forall|i: int, j: int| 0 <= i < j < members.len() ==> members[i].id < members[j].id
}

/// Households listed in strictly increasing id order.
pub open spec fn households_by_id(households: Seq<Household>) -> bool {
    forall|i: int, j: int| 0 <= i < j < households.len() ==> households[i].id < households[j].id
}

/// The index of the individual with `id`.
pub open spec fn member_index(members: Seq<Member>, id: u32) -> Option<int> {
    if exists|i: int| 0 <= i < members.len() && #[trigger] members[i].id == id {
        Some(choose|i: int| 0 <= i < members.len() && #[trigger] members[i].id == id)
    } else {
        None
    }
}

/// The index of the household with `id`.
pub open spec fn household_index(households: Seq<Household>, id: u32) -> Option<int> {
    if exists|i: int| 0 <= i < households.len() && #[trigger] households[i].id == id {
        Some(choose|i: int| 0 <= i < households.len() && #[trigger] households[i].id == id)
    } else {
        None
    }
}

/// A household with this id exists and has not been dissolved.
pub open spec fn household_active(households: Seq<Household>, id: u32) -> bool {
    household_index(households, id) matches Some(i) && households[i].dissolved_tick is None
}

pub(crate) fn find_member(members: &Vec<Member>, id: u32) -> (r: Option<usize>)
    requires
        members_by_id(members@),
    ensures
        r matches Some(i) ==> member_index(members@, id) == Some(i as int),
        r is None ==> member_index(members@, id) is None,
{
    let mut lo: usize = 0;
    let mut hi: usize = members.len();
    while lo < hi
        invariant
            members_by_id(members@),
            0 <= lo <= hi <= members@.len(),
            forall|j: int| 0 <= j < lo ==> members@[j].id < id,
            forall|j: int| hi <= j < members@.len() ==> members@[j].id > id,
        decreases hi - lo,
    {
        let mid = lo + (hi - lo) / 2;
        let found = members[mid].id;
        if found == id {
            proof {
                let k = choose|i: int| 0 <= i < members@.len() && #[trigger] members@[i].id == id;
                if k < mid {
                    assert(members@[k].id < members@[mid as int].id);
                } else if k > mid {
                    assert(members@[mid as int].id < members@[k].id);
                }
            }
            return Some(mid);
        } else if found < id {
            proof {
                assert forall|j: int| 0 <= j < mid + 1 implies members@[j].id < id by {
                    if j < mid {
                        assert(members@[j].id < members@[mid as int].id);
                    }
                }
            }
            lo = mid + 1;
        } else {
            proof {
                assert forall|j: int| mid <= j < members@.len() implies members@[j].id > id by {
                    if j > mid {
                        assert(members@[mid as int].id < members@[j].id);
                    }
                }
            }
            hi = mid;
        }
    }
    None
}

pub(crate) fn find_household(households: &Vec<Household>, id: u32) -> (r: Option<usize>)
    requires
        households_by_id(households@),
    ensures
        r matches Some(i) ==> household_index(households@, id) == Some(i as int),
        r is None ==> household_index(households@, id) is None,
{
    let mut lo: usize = 0;
    let mut hi: usize = households.len();
    while lo < hi
        invariant
            households_by_id(households@),
            0 <= lo <= hi <= households@.len(),
            forall|j: int| 0 <= j < lo ==> households@[j].id < id,
            forall|j: int| hi <= j < households@.len() ==> households@[j].id > id,
        decreases hi - lo,
    {
        let mid = lo + (hi - lo) / 2;
        let found = households[mid].id;
        if found == id {
            proof {
                let k = choose|i: int| 0 <= i < households@.len() && #[trigger] households@[i].id == id;
                if k < mid {
                    assert(households@[k].id < households@[mid as int].id);
                } else if k > mid {
                    assert(households@[mid as int].id < households@[k].id);
                }
            }
            return Some(mid);
        } else if found < id {
            proof {
                assert forall|j: int| 0 <= j < mid + 1 implies households@[j].id < id by {
                    if j < mid {
                        assert(households@[j].id < households@[mid as int].id);
                    }
                }
            }
            lo = mid + 1;
        } else {
            proof {
                assert forall|j: int| mid <= j < households@.len() implies households@[j].id > id by {
                    if j > mid {
                        assert(households@[mid as int].id < households@[j].id);
                    }
                }
            }
            hi = mid;
        }
    }
    None
}

/// A change of household membership.
#[derive(Clone, Copy, Debug, PartialEq, Eq, Structural)]
pub struct HouseholdMembershipChange {
    pub entity_id: u32,
    pub previous_household_id: Option<u32>,
    pub new_household_id: Option<u32>,
}

/// Moving `entity_id` into `target` (or out of any household): refused when the target
/// household is missing or dissolved, when nobody has that id, or when nothing would
/// change.
pub open spec fn membership_change_allowed(
    members: Seq<Member>,
    households: Seq<Household>,
    entity_id: u32,
    target: Option<u32>,
) -> bool {
    &&& (target matches Some(h) ==> household_active(households, h))
    &&& member_index(members, entity_id) matches Some(i) && members[i].household_id != target
}

/// Moves `entity_id` into the household `target_household_id` (or out of every household
/// for `None`) and reports the change; `None`, with nothing changed, when the target
/// household is missing or dissolved, when nobody has that id, or when the individual
/// already belongs there.
pub fn set_member_household(
    members: &mut Vec<Member>,
    households: &Vec<Household>,
    entity_id: u32,
    target_household_id: Option<u32>,
) -> (r: Option<HouseholdMembershipChange>)
    requires
        members_by_id(old(members)@),
        households_by_id(households@),
    ensures
        members_by_id(final(members)@),
        !membership_change_allowed(old(members)@, households@, entity_id, target_household_id) ==> r is None
            && final(members)@ == old(members)@,
        membership_change_allowed(old(members)@, households@, entity_id, target_household_id) ==> {
            let i = member_index(old(members)@, entity_id).unwrap();
            &&& r == Some(
                HouseholdMembershipChange {
                    entity_id,
                    previous_household_id: old(members)@[i].household_id,
                    new_household_id: target_household_id,
                },
            )
            &&& final(members)@.len() == old(members)@.len()
            &&& forall|j: int| 0 <= j < old(members)@.len() && j != i ==> final(members)@[j] == old(members)@[j]
            &&& final(members)@[i] == Member { household_id: target_household_id, ..old(members)@[i] }
        },
{
    if let Some(household_id) = target_household_id {
        match find_household(households, household_id) {
            Some(index) => {
                if !households[index].is_active() {
                    return None;
                }
            },
            None => {
                return None;
            },
        }
    }
    let entity_index = match find_member(members, entity_id) {
        Some(index) => index,
        None => {
            return None;
        },
    };
    let previous_household_id = members[entity_index].household_id;
    let same = match (previous_household_id, target_household_id) {
        (Some(a), Some(b)) => a == b,
        (None, None) => true,
        _ => false,
    };
    if same {
        return None;
    }
    members[entity_index].household_id = target_household_id;
    Some(HouseholdMembershipChange { entity_id, previous_household_id, new_household_id: target_household_id })
}

/// Places a newborn in the household of its caregiver and reports that household;
/// `None` when the caregiver is unknown, unhoused or in a dissolved household, or when
/// the newborn cannot be moved there.
pub fn assign_newborn(members: &mut Vec<Member>, households: &Vec<Household>, child_id: u32, caregiver_id: u32) -> (r:
    Option<u32>)
    requires
        members_by_id(old(members)@),
        households_by_id(households@),
    ensures
        members_by_id(final(members)@),
        ({
            let target = match member_index(old(members)@, caregiver_id) {
                Some(c) => old(members)@[c].household_id,
                None => None,
            };
            if target matches Some(h) && household_active(households@, h) && membership_change_allowed(
                old(members)@,
                households@,
                child_id,
                target,
            ) {
                let i = member_index(old(members)@, child_id).unwrap();
                &&& r == target
                &&& final(members)@.len() == old(members)@.len()
                &&& forall|j: int| 0 <= j < old(members)@.len() && j != i ==> final(members)@[j] == old(members)@[j]
                &&& final(members)@[i] == Member { household_id: target, ..old(members)@[i] }
            } else {
                r is None && final(members)@ == old(members)@
            }
        }),
{
    let caregiver_index = match find_member(members, caregiver_id) {
        Some(index) => index,
        None => {
            return None;
        },
    };
    let household_id = match members[caregiver_index].household_id {
        Some(id) => id,
        None => {
            return None;
        },
    };
    match find_household(households, household_id) {
        Some(index) => {
            if !households[index].is_active() {
                return None;
            }
        },
        None => {
            return None;
        },
    }
    match set_member_household(members, households, child_id, Some(household_id)) {
        Some(_) => Some(household_id),
        None => None,
    }
}

/// The two individuals name each other as partners.
pub open spec fn mutual_partners(members: Seq<Member>, first_id: u32, second_id: u32) -> bool {
    &&& member_index(members, first_id) matches Some(f)
    &&& member_index(members, second_id) matches Some(s)
    &&& first_id != second_id
    &&& members[f].partner_id == Some(second_id)
    &&& members[s].partner_id == Some(first_id)
}

/// Every household id lies below `next_id`.
pub open spec fn ids_below(households: Seq<Household>, next_id: u32) -> bool {
    forall|i: int| 0 <= i < households.len() ==> #[trigger] households[i].id < next_id
}

/// `after` is `before` with the individual at `i` moved into `household`.
pub open spec fn moved_into(before: Seq<Member>, after: Seq<Member>, i: int, household: Option<u32>) -> bool {
    &&& after.len() == before.len()
    &&& forall|j: int| 0 <= j < before.len() && j != i ==> after[j] == before[j]
    &&& after[i] == Member { household_id: household, ..before[i] }
}

/// What giving two partners a shared household does (see `form_for_partnership`):
/// `r` is the household they end up sharing, if any.
pub open spec fn household_formation(
    members: Seq<Member>,
    households: Seq<Household>,
    next_id: u32,
    members_after: Seq<Member>,
    households_after: Seq<Household>,
    next_id_after: u32,
    first_id: u32,
    second_id: u32,
    tick: u64,
    r: Option<u32>,
) -> bool {
    &&& (!mutual_partners(members, first_id, second_id) ==> r is None && members_after == members
            && households_after == households && next_id_after == next_id)
    &&& (mutual_partners(members, first_id, second_id) ==> {
            let f = member_index(members, first_id).unwrap();
            let s = member_index(members, second_id).unwrap();
            let first = members[f];
            let second = members[s];
            match (first.household_id, second.household_id) {
                (Some(a), Some(b)) => {
                    &&& r == (if a == b && household_active(households, a) { Some(a) } else { None })
                    &&& members_after == members
                    &&& households_after == households
                    &&& next_id_after == next_id
                },
                (Some(h), None) => {
                    &&& households_after == households
                    &&& next_id_after == next_id
                    &&& if household_active(households, h) {
                        r == Some(h) && moved_into(members, members_after, s, Some(h))
                    } else {
                        r is None && members_after == members
                    }
                },
                (None, Some(h)) => {
                    &&& households_after == households
                    &&& next_id_after == next_id
                    &&& if household_active(households, h) {
                        r == Some(h) && moved_into(members, members_after, f, Some(h))
                    } else {
                        r is None && members_after == members
                    }
                },
                (None, None) => if next_id == u32::MAX {
                    &&& r is None
                    &&& members_after == members
                    &&& households_after == households
                    &&& next_id_after == next_id
                } else {
                    let id = next_id;
                    let founder = if first_id < second_id { first } else { second };
                    &&& r == Some(id)
                    &&& next_id_after == id + 1
                    &&& households_after.len() == households.len() + 1
                    &&& households_after.drop_last() == households
                    &&& households_after.last().id == id
                    &&& households_after.last().formed_tick == tick
                    &&& households_after.last().dissolved_tick is None
                    &&& households_after.last().inheritance is None
                    &&& households_after.last().migration is None
                    &&& households_after.last().residence_x == founder.x
                    &&& households_after.last().residence_y == founder.y
                    &&& households_after.last().storage.spec_capacity() == DEFAULT_HOUSEHOLD_STORAGE_CAPACITY
                    &&& households_after.last().storage.spec_amounts() == seq![0u16, 0u16, 0u16, 0u16]
                    &&& members_after.len() == members.len()
                    &&& forall|j: int| 0 <= j < members.len() && j != f && j != s ==> members_after[j] == members[j]
                    &&& members_after[f] == Member { household_id: Some(id), ..first }
                    &&& members_after[s] == Member { household_id: Some(id), ..second }
                },
            }
        })
}

/// Gives two mutual partners a shared household and reports it: the one they already
/// share if it is still active; the household of the one who has one, which the other
/// joins; or, when neither has one, a new household at the position of the partner with
/// the lower id, with empty storage. `None`, with nothing changed, when they are not
/// mutual partners, belong to different households, share a dissolved one, or the
/// household ids are exhausted.
pub fn form_for_partnership(
    members: &mut Vec<Member>,
    households: &mut Vec<Household>,
    next_household_id: &mut u32,
    first_id: u32,
    second_id: u32,
    tick: u64,
) -> (r: Option<u32>)
    requires
        members_by_id(old(members)@),
        households_by_id(old(households)@),
        ids_below(old(households)@, *old(next_household_id)),
    ensures
        members_by_id(final(members)@),
        households_by_id(final(households)@),
        ids_below(final(households)@, *final(next_household_id)),
        household_formation(
            old(members)@,
            old(households)@,
            *old(next_household_id),
            final(members)@,
            final(households)@,
            *final(next_household_id),
            first_id,
            second_id,
            tick,
            r,
        ),
{
    let first_index = match find_member(members, first_id) {
        Some(index) => index,
        None => {
            return None;
        },
    };
    let second_index = match find_member(members, second_id) {
        Some(index) => index,
        None => {
            return None;
        },
    };
    let first_names_second = match members[first_index].partner_id {
        Some(p) => p == second_id,
        None => false,
    };
    let second_names_first = match members[second_index].partner_id {
        Some(p) => p == first_id,
        None => false,
    };
    if first_index == second_index || !first_names_second || !second_names_first {
        return None;
    }
    match (members[first_index].household_id, members[second_index].household_id) {
        (Some(first_household), Some(second_household)) => {
            if first_household != second_household {
                return None;
            }
            let household_index = match find_household(households, first_household) {
                Some(index) => index,
                None => {
                    return None;
                },
            };
            if households[household_index].is_active() {
                return Some(first_household);
            } else {
                return None;
            }
        },
        (Some(household_id), None) => {
            return match set_member_household(members, households, second_id, Some(household_id)) {
                Some(_) => Some(household_id),
                None => None,
            };
        },
        (None, Some(household_id)) => {
            return match set_member_household(members, households, first_id, Some(household_id)) {
                Some(_) => Some(household_id),
                None => None,
            };
        },
        (None, None) => {},
    }
    let id = *next_household_id;
    let (residence_x, residence_y) = if first_id < second_id {
        (members[first_index].x, members[first_index].y)
    } else {
        (members[second_index].x, members[second_index].y)
    };
    if id == u32::MAX {
        return None;
    }
    *next_household_id = id + 1;
    let ghost before = households@;
    households.push(
        Household {
            id,
            formed_tick: tick,
            dissolved_tick: None,
            inheritance: None,
            migration: None,
            residence_x,
            residence_y,
            storage: Inventory::new(DEFAULT_HOUSEHOLD_STORAGE_CAPACITY),
        },
    );
    proof {
        assert(households@.drop_last() =~= before);
        assert(households@[before.len() as int].id == id);
        assert(household_index(households@, id) == Some(before.len() as int)) by {
            let k = choose|i: int| 0 <= i < households@.len() && #[trigger] households@[i].id == id;
            if k < before.len() {
                assert(before[k].id < id);
            }
        }
    }
    let ghost members_before = members@;
    let first_change = set_member_household(members, households, first_id, Some(id));
    let second_change = set_member_household(members, households, second_id, Some(id));
    proof {
        assert(members_before[second_index as int].household_id is None);
    }
    Some(id)
}

/// Ids of the individuals in the household, in list order.
pub open spec fn spec_members_of(members: Seq<Member>, household_id: u32) -> Seq<u32>
    decreases members.len(),
{
    if members.len() == 0 {
        Seq::empty()
    } else if members.last().household_id == Some(household_id) {
        spec_members_of(members.drop_last(), household_id).push(members.last().id)
    } else {
        spec_members_of(members.drop_last(), household_id)
    }
}

pub fn members_of(members: &Vec<Member>, household_id: u32) -> (r: Vec<u32>)
    ensures
        r@ == spec_members_of(members@, household_id),
{
    let mut out: Vec<u32> = Vec::new();
    let mut i: usize = 0;
    while i < members.len()
        invariant
            0 <= i <= members@.len(),
            out@ == spec_members_of(members@.take(i as int), household_id),
        decreases members@.len() - i,
    {
        proof {
            assert(members@.take(i + 1).drop_last() =~= members@.take(i as int));
        }
        let belongs = match members[i].household_id {
            Some(h) => h == household_id,
            None => false,
        };
        if belongs {
            out.push(members[i].id);
        }
        i += 1;
    }
    proof {
        assert(members@.take(members@.len() as int) =~= members@);
    }
    out
}

/// A household that nobody belongs to any more was dissolved at this tick.
#[derive(Clone, Copy, Debug, PartialEq, Eq, Structural)]
pub struct HouseholdDissolution {
    pub household_id: u32,
    pub dissolved_tick: u64,
}

/// Somebody still belongs to the household.
pub open spec fn referenced(members: Seq<Member>, household_id: u32) -> bool {
    exists|i: int| 0 <= i < members.len() && #[trigger] members[i].household_id == Some(household_id)
}

/// An active household that nobody belongs to.
pub open spec fn left_empty(members: Seq<Member>, household: Household) -> bool {
    household.dissolved_tick is None && !referenced(members, household.id)
}

/// The dissolutions of the first `k` households, in order.
pub open spec fn dissolutions(members: Seq<Member>, households: Seq<Household>, tick: u64, k: int) -> Seq<
    HouseholdDissolution,
>
    decreases k,
{
    if k <= 0 {
        Seq::empty()
    } else if left_empty(members, households[k - 1]) {
        dissolutions(members, households, tick, k - 1).push(
            HouseholdDissolution { household_id: households[k - 1].id, dissolved_tick: tick },
        )
    } else {
        dissolutions(members, households, tick, k - 1)
    }
}

/// Dissolves, at `tick`, every active household that nobody belongs to, and reports each.
pub fn dissolve_empty_households(members: &Vec<Member>, households: &mut Vec<Household>, tick: u64) -> (r: Vec<
    HouseholdDissolution,
>)
    ensures
        r@ == dissolutions(members@, old(households)@, tick, old(households)@.len() as int),
        final(households)@.len() == old(households)@.len(),
        forall|i: int|
            0 <= i < old(households)@.len() ==> #[trigger] final(households)@[i] == if left_empty(
                members@,
                old(households)@[i],
            ) {
                Household { dissolved_tick: Some(tick), ..old(households)@[i] }
            } else {
                old(households)@[i]
            },
{
    let mut referenced_ids = IdSet::new();
    let mut m: usize = 0;
    while m < members.len()
        invariant
            referenced_ids.wf(),
            0 <= m <= members@.len(),
            forall|h: u32| #[trigger] referenced_ids@.contains(h) <==> exists|i: int|
                0 <= i < m && #[trigger] members@[i].household_id == Some(h),
        decreases members@.len() - m,
    {
        if let Some(h) = members[m].household_id {
            referenced_ids.insert(h);
        }
        proof {
            assert forall|h: u32| #[trigger] referenced_ids@.contains(h) <==> exists|i: int|
                0 <= i < m + 1 && #[trigger] members@[i].household_id == Some(h) by {
                if referenced_ids@.contains(h) && members@[m as int].household_id != Some(h) {
                    let i = choose|i: int| 0 <= i < m && #[trigger] members@[i].household_id == Some(h);
                }
                if exists|i: int| 0 <= i < m + 1 && #[trigger] members@[i].household_id == Some(h) {
                    let i = choose|i: int| 0 <= i < m + 1 && #[trigger] members@[i].household_id == Some(h);
                    if i < m {
                        assert(exists|i: int| 0 <= i < m && #[trigger] members@[i].household_id == Some(h));
                    }
                }
            }
        }
        m += 1;
    }
    let ghost original = households@;
    let mut out: Vec<HouseholdDissolution> = Vec::new();
    let mut i: usize = 0;
    while i < households.len()
        invariant
            referenced_ids.wf(),
            forall|h: u32| #[trigger] referenced_ids@.contains(h) <==> referenced(members@, h),
            households@.len() == original.len(),
            0 <= i <= original.len(),
            out@ == dissolutions(members@, original, tick, i as int),
            forall|j: int|
                0 <= j < i ==> #[trigger] households@[j] == if left_empty(members@, original[j]) {
                    Household { dissolved_tick: Some(tick), ..original[j] }
                } else {
                    original[j]
                },
            forall|j: int| i <= j < original.len() ==> #[trigger] households@[j] == original[j],
        decreases original.len() - i,
    {
        let household = households[i];
        if household.is_active() && !referenced_ids.contains(household.id) {
            households[i].dissolved_tick = Some(tick);
            out.push(HouseholdDissolution { household_id: household.id, dissolved_tick: tick });
        }
        i += 1;
    }
    out
}

/// Members of the household stand within the arrival radius of `target`, and there is
/// at least one of them.
pub open spec fn all_arrived(members: Seq<Member>, household_id: u32, target: (u32, u32)) -> bool {
    &&& referenced(members, household_id)
    &&& forall|i: int|
        0 <= i < members.len() && #[trigger] members[i].household_id == Some(household_id) ==> crate::mind::spec_manhattan(
            (members[i].x, members[i].y),
            target,
        ) <= HOUSEHOLD_MIGRATION_ARRIVAL_RADIUS
}

/// A household after the arrival check: once every member has reached the target of the
/// migration under way, the residence moves there and the migration is complete.
pub open spec fn settled(members: Seq<Member>, household: Household, tick: u64) -> Household {
    match spec_active_migration_target(household) {
        Some(target) => if all_arrived(members, household.id, target) {
            Household {
                residence_x: target.0,
                residence_y: target.1,
                migration: Some(HouseholdMigration { completed_tick: Some(tick), ..household.migration.unwrap() }),
                ..household
            }
        } else {
            household
        },
        None => household,
    }
}

fn close_to(position: (u32, u32), target: (u32, u32)) -> (r: bool)
    ensures
        r == (crate::mind::spec_manhattan(position, target) <= HOUSEHOLD_MIGRATION_ARRIVAL_RADIUS),
{
    let dx = if position.0 >= target.0 { position.0 - target.0 } else { target.0 - position.0 };
    let dy = if position.1 >= target.1 { position.1 - target.1 } else { target.1 - position.1 };
    dx as u64 + dy as u64 <= HOUSEHOLD_MIGRATION_ARRIVAL_RADIUS as u64
}

/// Completes every migration whose household has gathered at the target.
pub fn settle_completed_migrations(members: &Vec<Member>, households: &mut Vec<Household>, tick: u64)
    ensures
        final(households)@.len() == old(households)@.len(),
        forall|i: int|
            0 <= i < old(households)@.len() ==> #[trigger] final(households)@[i] == settled(
                members@,
                old(households)@[i],
                tick,
            ),
{
    let ghost original = households@;
    let mut i: usize = 0;
    while i < households.len()
        invariant
            households@.len() == original.len(),
            0 <= i <= original.len(),
            forall|j: int| 0 <= j < i ==> #[trigger] households@[j] == settled(members@, original[j], tick),
            forall|j: int| i <= j < original.len() ==> #[trigger] households@[j] == original[j],
        decreases original.len() - i,
    {
        let household = households[i];
        if let Some(target) = household.active_migration_target() {
            let mut count: usize = 0;
            let mut arrived = true;
            let mut m: usize = 0;
            while m < members.len()
                invariant
                    0 <= m <= members@.len(),
                    count == 0 <==> !exists|j: int| 0 <= j < m && #[trigger] members@[j].household_id == Some(household.id),
                    count <= m,
                    arrived <==> forall|j: int|
                        0 <= j < m && #[trigger] members@[j].household_id == Some(household.id)
                            ==> crate::mind::spec_manhattan((members@[j].x, members@[j].y), target)
                            <= HOUSEHOLD_MIGRATION_ARRIVAL_RADIUS,
                decreases members@.len() - m,
            {
                let belongs = match members[m].household_id {
                    Some(h) => h == household.id,
                    None => false,
                };
                if belongs {
                    count += 1;
                    if !close_to((members[m].x, members[m].y), target) {
                        arrived = false;
                    }
                }
                m += 1;
            }
            if count > 0 && arrived {
                let migration = household.migration.unwrap();
                households[i].residence_x = target.0;
                households[i].residence_y = target.1;
                households[i].migration = Some(
                    HouseholdMigration {
                        started_tick: migration.started_tick,
                        proposer_id: migration.proposer_id,
                        target_x: migration.target_x,
                        target_y: migration.target_y,
                        completed_tick: Some(tick),
                    },
                );
            }
        }
        i += 1;
    }
}

/// Sum of the first `k` amounts.
pub open spec fn amount_sum(amounts: Seq<u16>, k: int) -> int
    decreases k,
{
    if k <= 0 {
        0
    } else {
        amount_sum(amounts, k - 1) + amounts[k - 1]
    }
}

/// What moves, kind by kind in slot order, from stores holding `source` into stores with
/// `room` free: each kind as much as is held and still fits.
pub open spec fn transfer_amounts(source: Seq<u16>, room: int, k: int) -> Seq<u16>
    decreases k,
{
    if k <= 0 {
        Seq::empty()
    } else {
        let previous = transfer_amounts(source, room, k - 1);
        let left = room - amount_sum(previous, k - 1);
        previous.push((if source[k - 1] <= left { source[k - 1] as int } else { left }) as u16)
    }
}

proof fn lemma_transfer_len(source: Seq<u16>, room: int, k: int)
    requires
        0 <= k,
    ensures
        transfer_amounts(source, room, k).len() == k,
    decreases k,
{
    if k > 0 {
        lemma_transfer_len(source, room, k - 1);
    }
}

proof fn lemma_transfer_len_all(source: Seq<u16>)
    ensures
        forall|room: int, k: int| 0 <= k ==> (#[trigger] transfer_amounts(source, room, k)).len() == k,
{
    assert forall|room: int, k: int| 0 <= k implies (#[trigger] transfer_amounts(source, room, k)).len() == k by {
        lemma_transfer_len(source, room, k);
    }
}

/// Moves everything that fits from `source` into `destination`, kind by kind, and
/// records how much of each kind moved.
pub fn transfer_inventory(source: &mut Inventory, destination: &mut Inventory, transferred: &mut [u16; 4])
    ensures
        ({
            let moved = transfer_amounts(
                old(source).spec_amounts(),
                old(destination).spec_capacity() - spec_total(old(destination).spec_amounts()),
                4,
            );
            &&& final(transferred)@ == moved
            &&& final(source).spec_capacity() == old(source).spec_capacity()
            &&& final(destination).spec_capacity() == old(destination).spec_capacity()
            &&& forall|k: int| 0 <= k < 4 ==> #[trigger] final(source).spec_amounts()[k] == old(source).spec_amounts()[k] - moved[k]
            &&& forall|k: int|
                0 <= k < 4 ==> #[trigger] final(destination).spec_amounts()[k] == old(destination).spec_amounts()[k] + moved[k]
        }),
{
    let ghost src0 = source.spec_amounts();
    let ghost dst0 = destination.spec_amounts();
    let ghost room = destination.spec_capacity() - spec_total(dst0);
    proof {
        source.lemma_one_slot_per_kind();
        destination.lemma_one_slot_per_kind();
    }
    let kinds = ItemKind::all();
    let mut k: usize = 0;
    while k < 4
        invariant
            0 <= k <= 4,
            kinds@ == seq![ItemKind::Food, ItemKind::Timber, ItemKind::Stone, ItemKind::Iron],
            src0.len() == 4 && dst0.len() == 4,
            source.spec_amounts().len() == 4,
            destination.spec_amounts().len() == 4,
            room == old(destination).spec_capacity() - spec_total(dst0),
            src0 == old(source).spec_amounts(),
            dst0 == old(destination).spec_amounts(),
            source.spec_capacity() == old(source).spec_capacity(),
            destination.spec_capacity() == old(destination).spec_capacity(),
            transfer_amounts(src0, room, k as int).len() == k,
            forall|j: int| 0 <= j < k ==> #[trigger] transferred@[j] == transfer_amounts(src0, room, k as int)[j],
            spec_total(destination.spec_amounts()) == spec_total(dst0) + amount_sum(transfer_amounts(src0, room, k as int), k as int),
            forall|j: int| 0 <= j < k ==> #[trigger] source.spec_amounts()[j] == src0[j] - transfer_amounts(src0, room, k as int)[j],
            forall|j: int| 0 <= j < k ==> #[trigger] destination.spec_amounts()[j] == dst0[j] + transfer_amounts(src0, room, k as int)[j],
            forall|j: int| k <= j < 4 ==> #[trigger] source.spec_amounts()[j] == src0[j],
            forall|j: int| k <= j < 4 ==> #[trigger] destination.spec_amounts()[j] == dst0[j],
        decreases 4 - k,
    {
        let kind = kinds[k];
        assert(spec_item_index(kind) == k);
        let held = source.amount(kind);
        let accepted = destination.add(kind, held);
        source.remove(kind, accepted);
        transferred[k] = accepted;
        proof {
            lemma_transfer_len(src0, room, k as int);
            let previous = transfer_amounts(src0, room, k as int);
            let next = transfer_amounts(src0, room, k + 1);
            assert(next == previous.push(accepted));
            assert(next.take(k as int) =~= previous);
            assert forall|j: int| 0 <= j < k implies #[trigger] next[j] == previous[j] by {}
            assert(amount_sum(next, k + 1) == amount_sum(previous, k as int) + accepted) by {
                assert forall|t: int| 0 <= t <= k implies amount_sum(next, t) == amount_sum(previous, t) by {
                    lemma_amount_sum_prefix(next, previous, t);
                }
            }
        }
        k += 1;
    }
    proof {
        assert(transferred@ =~= transfer_amounts(src0, room, 4));
    }
}

proof fn lemma_amount_sum_prefix(a: Seq<u16>, b: Seq<u16>, t: int)
    requires
        0 <= t <= b.len(),
        t <= a.len(),
        forall|j: int| 0 <= j < t ==> a[j] == b[j],
    ensures
        amount_sum(a, t) == amount_sum(b, t),
    decreases t,
{
    if t > 0 {
        lemma_amount_sum_prefix(a, b, t - 1);
    }
}

/// A proposed move toward remembered food.
#[derive(Clone, Copy, Debug, PartialEq, Eq)]
pub struct MigrationProposal {
    pub distance: u32,
    pub amount: u16,
    pub last_seen_tick: u64,
    pub proposer_id: u32,
    pub target: (u32, u32),
}

/// Nearer first, then more food, then seen more recently, then the lower proposer id,
/// then the lower target.
pub open spec fn proposal_better(candidate: MigrationProposal, best: MigrationProposal) -> bool {
    candidate.distance < best.distance || (candidate.distance == best.distance && (candidate.amount > best.amount || (
    candidate.amount == best.amount && (candidate.last_seen_tick > best.last_seen_tick || (candidate.last_seen_tick
        == best.last_seen_tick && (candidate.proposer_id < best.proposer_id || (candidate.proposer_id
        == best.proposer_id && (candidate.target.0 < best.target.0 || (candidate.target.0 == best.target.0
        && candidate.target.1 < best.target.1)))))))))
}

pub fn migration_proposal_is_better(candidate: MigrationProposal, best: MigrationProposal) -> (r: bool)
    ensures
        r == proposal_better(candidate, best),
{
    candidate.distance < best.distance || (candidate.distance == best.distance && (candidate.amount > best.amount || (
    candidate.amount == best.amount && (candidate.last_seen_tick > best.last_seen_tick || (candidate.last_seen_tick
        == best.last_seen_tick && (candidate.proposer_id < best.proposer_id || (candidate.proposer_id
        == best.proposer_id && (candidate.target.0 < best.target.0 || (candidate.target.0 == best.target.0
        && candidate.target.1 < best.target.1)))))))))
}

/// Neither of two different proposals fails to beat the other: the order is total.
pub proof fn lemma_proposal_order_total(a: MigrationProposal, b: MigrationProposal)
    ensures
        a != b ==> proposal_better(a, b) || proposal_better(b, a),
        !(proposal_better(a, b) && proposal_better(b, a)),
        !proposal_better(a, a),
{
}

/// The household looks for a new home today: it is active and not already moving.
pub open spec fn plans_migration(household: Household) -> bool {
    household.dissolved_tick is None && spec_active_migration_target(household) is None
}

pub open spec fn residence(household: Household) -> (u32, u32) {
    (household.residence_x, household.residence_y)
}

pub open spec fn is_grown(member: Member) -> bool {
    spec_life_stage(member.age_ticks) == LifeStage::Adult || spec_life_stage(member.age_ticks) == LifeStage::Elder
}

/// A remembered food deposit worth a meal that is not being avoided.
pub open spec fn usable_sighting(known: KnownResource, tick: u64) -> bool {
    known.kind == ResourceKind::Food && known.estimated_amount >= FOOD_CONSUMED_PER_MEAL && tick >= known.avoid_until_tick
}

pub open spec fn sighting_distance(known: KnownResource, home: (u32, u32)) -> int {
    spec_manhattan(home, (known.x, known.y))
}

/// A far sighting the household could move to: walkable, and in the same region as the
/// residence when the residence has one.
pub open spec fn reachable_sighting(world: Grid, known: KnownResource, home: (u32, u32)) -> bool {
    &&& world.walkable(known.x as int, known.y as int)
    &&& (world.spec_region_id_at(home.0 as int, home.1 as int) is Some ==> world.spec_region_id_at(
        known.x as int,
        known.y as int,
    ) == world.spec_region_id_at(home.0 as int, home.1 as int))
}

pub open spec fn proposal_from(member: Member, known: KnownResource, home: (u32, u32)) -> MigrationProposal {
    MigrationProposal {
        distance: sighting_distance(known, home) as u32,
        amount: known.estimated_amount,
        last_seen_tick: known.last_seen_tick,
        proposer_id: member.id,
        target: (known.x, known.y),
    }
}

/// Some grown member of the household remembers usable food near the residence.
pub open spec fn local_food_known(members: Seq<Member>, household: Household, tick: u64) -> bool {
    exists|i: int, k: int|
        0 <= i < members.len() && #[trigger] members[i].household_id == Some(household.id) && is_grown(members[i])
            && 0 <= k < members[i].memory.known_resources@.len() && usable_sighting(
            #[trigger] members[i].memory.known_resources@[k],
            tick,
        ) && sighting_distance(members[i].memory.known_resources@[k], residence(household)) <= HOUSEHOLD_LOCAL_FOOD_RADIUS
}

/// `proposal` comes from a grown member's memory of usable, far, reachable food.
pub open spec fn proposed(members: Seq<Member>, world: Grid, household: Household, tick: u64, proposal: MigrationProposal) -> bool {
    exists|i: int, k: int|
        0 <= i < members.len() && #[trigger] members[i].household_id == Some(household.id) && is_grown(members[i])
            && 0 <= k < members[i].memory.known_resources@.len() && usable_sighting(
            #[trigger] members[i].memory.known_resources@[k],
            tick,
        ) && sighting_distance(members[i].memory.known_resources@[k], residence(household)) > HOUSEHOLD_LOCAL_FOOD_RADIUS
            && reachable_sighting(world, members[i].memory.known_resources@[k], residence(household)) && proposal
            == proposal_from(members[i], members[i].memory.known_resources@[k], residence(household))
}

/// `proposal` is the best one made for the household.
pub open spec fn best_proposal(members: Seq<Member>, world: Grid, household: Household, tick: u64, proposal: MigrationProposal) -> bool {
    &&& proposed(members, world, household, tick, proposal)
    &&& forall|other: MigrationProposal| #[trigger] proposed(members, world, household, tick, other) ==> !proposal_better(other, proposal)
}

/// How many individuals belong to the household.
pub open spec fn member_count(members: Seq<Member>, household_id: u32) -> int
    decreases members.len(),
{
    if members.len() == 0 {
        0
    } else {
        member_count(members.drop_last(), household_id) + if members.last().household_id == Some(household_id) {
            1int
        } else {
            0
        }
    }
}

/// Food carried by the individuals of the household.
pub open spec fn carried_food(members: Seq<Member>, household_id: u32) -> int
    decreases members.len(),
{
    if members.len() == 0 {
        0
    } else {
        carried_food(members.drop_last(), household_id) + if members.last().household_id == Some(household_id) {
            members.last().inventory.spec_amounts()[0] as int
        } else {
            0
        }
    }
}

/// The household may move again: it never moved, or its last move completed a week ago.
pub open spec fn cooldown_over(household: Household, tick: u64) -> bool {
    match household.migration {
        None => true,
        Some(migration) => match migration.completed_tick {
            Some(completed) => tick >= (if completed + HOUSEHOLD_MIGRATION_COOLDOWN_TICKS > u64::MAX {
                u64::MAX as int
            } else {
                completed + HOUSEHOLD_MIGRATION_COOLDOWN_TICKS
            }),
            None => false,
        },
    }
}

/// A household starts to migrate when, at the start of a day, it plans, has members,
/// holds less than a meal each in storage and on their persons, knows no food nearby, has
/// waited out its cooldown, and a move has been proposed.
pub open spec fn starts_migration(members: Seq<Member>, world: Grid, household: Household, tick: u64) -> bool {
    &&& tick % TICKS_PER_DAY == 0
    &&& plans_migration(household)
    &&& member_count(members, household.id) > 0
    &&& household.storage.spec_amounts()[0] + carried_food(members, household.id) < member_count(members, household.id)
        * FOOD_CONSUMED_PER_MEAL
    &&& !local_food_known(members, household, tick)
    &&& cooldown_over(household, tick)
    &&& exists|p: MigrationProposal| proposed(members, world, household, tick, p)
}

/// The `k`-th memory of `member` is usable food near `home`.
pub open spec fn member_local(member: Member, home: (u32, u32), tick: u64, k: int) -> bool {
    0 <= k < member.memory.known_resources@.len() && usable_sighting(member.memory.known_resources@[k], tick) && sighting_distance(
        member.memory.known_resources@[k],
        home,
    ) <= HOUSEHOLD_LOCAL_FOOD_RADIUS
}

/// The `k`-th memory of `member` proposes `proposal` for a household living at `home`.
pub open spec fn member_proposes(member: Member, world: Grid, home: (u32, u32), tick: u64, k: int, proposal: MigrationProposal) -> bool {
    &&& 0 <= k < member.memory.known_resources@.len()
    &&& usable_sighting(member.memory.known_resources@[k], tick)
    &&& sighting_distance(member.memory.known_resources@[k], home) > HOUSEHOLD_LOCAL_FOOD_RADIUS
    &&& reachable_sighting(world, member.memory.known_resources@[k], home)
    &&& proposal == proposal_from(member, member.memory.known_resources@[k], home)
}

proof fn lemma_extend_summaries(members: Seq<Member>, world: Grid, household: Household, tick: u64, m: int)
    requires
        0 <= m < members.len(),
    ensures
        member_count(members.take(m + 1), household.id) == member_count(members.take(m), household.id) + if members[m].household_id
            == Some(household.id) {
            1int
        } else {
            0
        },
        carried_food(members.take(m + 1), household.id) == carried_food(members.take(m), household.id) + if members[m].household_id
            == Some(household.id) {
            members[m].inventory.spec_amounts()[0] as int
        } else {
            0
        },
        local_food_known(members.take(m + 1), household, tick) == (local_food_known(members.take(m), household, tick) || (
        members[m].household_id == Some(household.id) && is_grown(members[m]) && exists|k: int|
            member_local(members[m], residence(household), tick, k))),
        forall|p: MigrationProposal|
            #![trigger proposed(members.take(m + 1), world, household, tick, p)]
            #![trigger proposed(members.take(m), world, household, tick, p)]
            proposed(members.take(m + 1), world, household, tick, p) == (proposed(members.take(m), world, household, tick, p) || (
            members[m].household_id == Some(household.id) && is_grown(members[m]) && exists|k: int|
                member_proposes(members[m], world, residence(household), tick, k, p))),
{
    let before = members.take(m);
    let after = members.take(m + 1);
    assert(after.drop_last() =~= before);
    assert(after.last() == members[m]);
    let home = residence(household);
    if local_food_known(after, household, tick) {
        let (i, k) = choose|i: int, k: int|
            0 <= i < after.len() && #[trigger] after[i].household_id == Some(household.id) && is_grown(after[i]) && 0 <= k
                < after[i].memory.known_resources@.len() && usable_sighting(#[trigger] after[i].memory.known_resources@[k], tick)
                && sighting_distance(after[i].memory.known_resources@[k], home) <= HOUSEHOLD_LOCAL_FOOD_RADIUS;
        if i < m {
            assert(before[i] == after[i]);
            assert(local_food_known(before, household, tick));
        } else {
            assert(member_local(members[m], home, tick, k));
        }
    }
    if local_food_known(before, household, tick) {
        let (i, k) = choose|i: int, k: int|
            0 <= i < before.len() && #[trigger] before[i].household_id == Some(household.id) && is_grown(before[i]) && 0 <= k
                < before[i].memory.known_resources@.len() && usable_sighting(#[trigger] before[i].memory.known_resources@[k], tick)
                && sighting_distance(before[i].memory.known_resources@[k], home) <= HOUSEHOLD_LOCAL_FOOD_RADIUS;
        assert(after[i] == before[i]);
        assert(local_food_known(after, household, tick));
    }
    if members[m].household_id == Some(household.id) && is_grown(members[m]) && exists|k: int|
        member_local(members[m], home, tick, k) {
        let k = choose|k: int| member_local(members[m], home, tick, k);
        assert(after[m] == members[m]);
        assert(usable_sighting(after[m].memory.known_resources@[k], tick));
        assert(local_food_known(after, household, tick));
    }
    assert forall|p: MigrationProposal|
        proposed(after, world, household, tick, p) == (proposed(before, world, household, tick, p) || (
        members[m].household_id == Some(household.id) && is_grown(members[m]) && exists|k: int|
            member_proposes(members[m], world, home, tick, k, p))) by {
        if proposed(after, world, household, tick, p) {
            let (i, k) = choose|i: int, k: int|
                0 <= i < after.len() && #[trigger] after[i].household_id == Some(household.id) && is_grown(after[i]) && 0
                    <= k < after[i].memory.known_resources@.len() && usable_sighting(#[trigger] after[i].memory.known_resources@[k], tick)
                    && sighting_distance(after[i].memory.known_resources@[k], home) > HOUSEHOLD_LOCAL_FOOD_RADIUS
                    && reachable_sighting(world, after[i].memory.known_resources@[k], home) && p == proposal_from(
                    after[i],
                    after[i].memory.known_resources@[k],
                    home,
                );
            if i < m {
                assert(before[i] == after[i]);
                assert(proposed(before, world, household, tick, p));
            } else {
                assert(member_proposes(members[m], world, home, tick, k, p));
            }
        }
        if proposed(before, world, household, tick, p) {
            let (i, k) = choose|i: int, k: int|
                0 <= i < before.len() && #[trigger] before[i].household_id == Some(household.id) && is_grown(before[i])
                    && 0 <= k < before[i].memory.known_resources@.len() && usable_sighting(
                    #[trigger] before[i].memory.known_resources@[k],
                    tick,
                ) && sighting_distance(before[i].memory.known_resources@[k], home) > HOUSEHOLD_LOCAL_FOOD_RADIUS
                    && reachable_sighting(world, before[i].memory.known_resources@[k], home) && p == proposal_from(
                    before[i],
                    before[i].memory.known_resources@[k],
                    home,
                );
            assert(after[i] == before[i]);
            assert(proposed(after, world, household, tick, p));
        }
        if members[m].household_id == Some(household.id) && is_grown(members[m]) && exists|k: int|
            member_proposes(members[m], world, home, tick, k, p) {
            let k = choose|k: int| member_proposes(members[m], world, home, tick, k, p);
            assert(after[m] == members[m]);
            assert(usable_sighting(after[m].memory.known_resources@[k], tick));
            assert(proposed(after, world, household, tick, p));
        }
    }
}

/// "Not better than" chains: the order on proposals is transitive.
proof fn lemma_not_better_chain(a: MigrationProposal, b: MigrationProposal, c: MigrationProposal)
    requires
        !proposal_better(a, b),
        !proposal_better(b, c),
    ensures
        !proposal_better(a, c),
{
}

fn sighting_distance_exec(known: &KnownResource, home: (u32, u32)) -> (r: u64)
    ensures
        r == sighting_distance(*known, home),
{
    (if home.0 >= known.x { home.0 - known.x } else { known.x - home.0 }) as u64 + (if home.1 >= known.y {
        home.1 - known.y
    } else {
        known.y - home.1
    }) as u64
}

/// Scans one grown member's memories for food near `home` and for the best far
/// proposal, folding them into what was found so far.
fn scan_member(
    member: &Member,
    world: &Grid,
    home: (u32, u32),
    tick: u64,
    local: &mut bool,
    best: &mut Option<MigrationProposal>,
)
    ensures
        *final(local) == (*old(local) || exists|k: int| member_local(*member, home, tick, k)),
        *final(best) is None <==> (*old(best) is None && !exists|k: int, p: MigrationProposal|
            member_proposes(*member, *world, home, tick, k, p)),
        *final(best) matches Some(b) ==> (*old(best) == Some(b) || exists|k: int| member_proposes(*member, *world, home, tick, k, b)),
        *final(best) matches Some(b) ==> (*old(best) matches Some(o) ==> !proposal_better(o, b)),
        *final(best) matches Some(b) ==> forall|k: int, p: MigrationProposal|
            member_proposes(*member, *world, home, tick, k, p) ==> !proposal_better(p, b),
{
    let home_region = world.region_id_at(home.0, home.1);
    let ghost local0 = *local;
    let ghost best0 = *best;
    let mut k: usize = 0;
    while k < member.memory.known_resources.len()
        invariant
            0 <= k <= member.memory.known_resources@.len(),
            home_region == world.spec_region_id_at(home.0 as int, home.1 as int),
            *local == (local0 || exists|j: int| j < k && member_local(*member, home, tick, j)),
            *best is None <==> (best0 is None && !exists|j: int, p: MigrationProposal|
                j < k && member_proposes(*member, *world, home, tick, j, p)),
            *best matches Some(b) ==> (best0 == Some(b) || exists|j: int| j < k && member_proposes(*member, *world, home, tick, j, b)),
            *best matches Some(b) ==> (best0 matches Some(o) ==> !proposal_better(o, b)),
            *best matches Some(b) ==> forall|j: int, p: MigrationProposal|
                j < k && member_proposes(*member, *world, home, tick, j, p) ==> !proposal_better(p, b),
        decreases member.memory.known_resources@.len() - k,
    {
        let known = member.memory.known_resources[k];
        let ghost before = *best;
        if known.kind == ResourceKind::Food && known.estimated_amount >= FOOD_CONSUMED_PER_MEAL && tick >= known.avoid_until_tick {
            let distance = sighting_distance_exec(&known, home);
            if distance <= HOUSEHOLD_LOCAL_FOOD_RADIUS as u64 {
                *local = true;
                proof {
                    assert(member_local(*member, home, tick, k as int));
                    assert forall|j: int, p: MigrationProposal| j < k + 1 && member_proposes(*member, *world, home, tick, j, p)
                        implies j < k by {}
                }
            } else {
                let reachable = world.is_walkable_at(known.x, known.y) && (match home_region {
                    Some(region) => match world.region_id_at(known.x, known.y) {
                        Some(other) => other == region,
                        None => false,
                    },
                    None => true,
                });
                proof {
                    assert(reachable == reachable_sighting(*world, known, home));
                }
                if reachable {
                    let candidate = MigrationProposal {
                        distance: distance as u32,
                        amount: known.estimated_amount,
                        last_seen_tick: known.last_seen_tick,
                        proposer_id: member.id,
                        target: (known.x, known.y),
                    };
                    proof {
                        assert(member_proposes(*member, *world, home, tick, k as int, candidate));
                    }
                    let replace = match *best {
                        None => true,
                        Some(current) => migration_proposal_is_better(candidate, current),
                    };
                    if replace {
                        *best = Some(candidate);
                        proof {
                            if let Some(b) = before {
                                assert(!proposal_better(b, candidate));
                                if let Some(o) = best0 {
                                    lemma_not_better_chain(o, b, candidate);
                                }
                                assert forall|j: int, p: MigrationProposal|
                                    j < k + 1 && member_proposes(*member, *world, home, tick, j, p) implies !proposal_better(
                                    p,
                                    candidate,
                                ) by {
                                    if j < k {
                                        lemma_not_better_chain(p, b, candidate);
                                    } else {
                                        assert(p == candidate);
                                    }
                                }
                            } else {
                                assert forall|j: int, p: MigrationProposal|
                                    j < k + 1 && member_proposes(*member, *world, home, tick, j, p) implies !proposal_better(
                                    p,
                                    candidate,
                                ) by {
                                    if j < k {
                                        assert(false);
                                    } else {
                                        assert(p == candidate);
                                    }
                                }
                            }
                        }
                    } else {
                        proof {
                            let b = before.unwrap();
                            assert forall|j: int, p: MigrationProposal|
                                j < k + 1 && member_proposes(*member, *world, home, tick, j, p) implies !proposal_better(p, b) by {
                                if j == k {
                                    assert(p == candidate);
                                }
                            }
                        }
                    }
                } else {
                    proof {
                        assert forall|j: int, p: MigrationProposal| j < k + 1 && member_proposes(*member, *world, home, tick, j, p)
                            implies j < k by {}
                    }
                }
            }
        } else {
            proof {
                assert forall|j: int, p: MigrationProposal| j < k + 1 && member_proposes(*member, *world, home, tick, j, p)
                    implies j < k by {}
            }
        }
        k += 1;
    }
}

/// The household after the daily migration check.
pub open spec fn migrated(members: Seq<Member>, world: Grid, household: Household, tick: u64) -> Household {
    if starts_migration(members, world, household, tick) {
        let p = choose|p: MigrationProposal| best_proposal(members, world, household, tick, p);
        Household {
            migration: Some(
                HouseholdMigration {
                    started_tick: tick,
                    proposer_id: p.proposer_id,
                    target_x: p.target.0,
                    target_y: p.target.1,
                    completed_tick: None,
                },
            ),
            ..household
        }
    } else {
        household
    }
}

proof fn lemma_best_unique(members: Seq<Member>, world: Grid, household: Household, tick: u64, p: MigrationProposal, q: MigrationProposal)
    requires
        best_proposal(members, world, household, tick, p),
        best_proposal(members, world, household, tick, q),
    ensures
        p == q,
{
    lemma_proposal_order_total(p, q);
}

#[derive(Clone, Copy)]
struct PlanningState {
    members: u64,
    food: u128,
    local: bool,
    best: Option<MigrationProposal>,
}

/// What the member list up to `m` tells about a household that plans to move.
spec fn state_matches(members: Seq<Member>, world: Grid, household: Household, tick: u64, m: int, state: PlanningState) -> bool {
    &&& state.members == member_count(members.take(m), household.id)
    &&& state.food == household.storage.spec_amounts()[0] + carried_food(members.take(m), household.id)
    &&& state.local == local_food_known(members.take(m), household, tick)
    &&& state.best is None <==> !exists|p: MigrationProposal| proposed(members.take(m), world, household, tick, p)
    &&& state.best matches Some(b) ==> best_proposal(members.take(m), world, household, tick, b)
}

proof fn lemma_count_bounds(members: Seq<Member>, household_id: u32)
    ensures
        0 <= member_count(members, household_id) <= members.len(),
        0 <= carried_food(members, household_id) <= members.len() * 0xffff,
    decreases members.len(),
{
    if members.len() > 0 {
        lemma_count_bounds(members.drop_last(), household_id);
    }
}

/// The household, among those planning a move, that `household_id` names.
fn planning_household_of(households: &Vec<Household>, household_id: Option<u32>) -> (r: Option<usize>)
    requires
        households_by_id(households@),
    ensures
        r matches Some(i) ==> i < households@.len() && household_id == Some(households@[i as int].id) && plans_migration(
            households@[i as int],
        ),
        r is None ==> forall|j: int|
            0 <= j < households@.len() && plans_migration(#[trigger] households@[j]) ==> household_id != Some(households@[j].id),
{
    let id = match household_id {
        Some(id) => id,
        None => {
            return None;
        },
    };
    match find_household(households, id) {
        Some(index) => {
            proof {
                let k = choose|i: int| 0 <= i < households@.len() && #[trigger] households@[i].id == id;
                assert(households@[index as int].id == id);
            }
            if households[index].is_active() && households[index].active_migration_target().is_none() {
                Some(index)
            } else {
                proof {
                    assert forall|j: int| 0 <= j < households@.len() && plans_migration(#[trigger] households@[j]) implies household_id
                        != Some(households@[j].id) by {
                        if households@[j].id == id && j != index {
                            if j < index {
                                assert(households@[j].id < households@[index as int].id);
                            } else {
                                assert(households@[index as int].id < households@[j].id);
                            }
                        }
                    }
                }
                None
            }
        },
        None => None,
    }
}

/// At the start of each day, sets every household that runs short of food, knows none
/// nearby and may move again, on its way toward the best far food its grown members
/// remember: nearest first, then the most food, the freshest sighting, the lowest
/// proposer id and the lowest target.
pub fn plan_daily_household_migrations(members: &Vec<Member>, households: &mut Vec<Household>, world: &Grid, tick: u64)
    requires
        households_by_id(old(households)@),
    ensures
        final(households)@.len() == old(households)@.len(),
        forall|i: int|
            0 <= i < old(households)@.len() ==> #[trigger] final(households)@[i] == migrated(
                members@,
                *world,
                old(households)@[i],
                tick,
            ),
{
    if tick % TICKS_PER_DAY != 0 {
        return;
    }
    let ghost hs = households@;
    let mut states: Vec<PlanningState> = Vec::new();
    let mut i: usize = 0;
    while i < households.len()
        invariant
            households@ == hs,
            0 <= i <= hs.len(),
            states@.len() == i,
            forall|j: int| 0 <= j < i ==> state_matches(members@, *world, hs[j], tick, 0, #[trigger] states@[j]),
        decreases hs.len() - i,
    {
        proof {
            households@[i as int].storage.lemma_one_slot_per_kind();
        }
        let food = households[i].storage.amount(ItemKind::Food);
        let state = PlanningState { members: 0, food: food as u128, local: false, best: None };
        proof {
            let h = hs[i as int];
            assert(members@.take(0) =~= Seq::<Member>::empty());
            assert(!local_food_known(members@.take(0), h, tick));
            assert(!exists|p: MigrationProposal| proposed(members@.take(0), *world, h, tick, p));
        }
        let ghost previous = states@;
        states.push(state);
        proof {
            assert forall|j: int| 0 <= j < i + 1 implies state_matches(members@, *world, hs[j], tick, 0, #[trigger] states@[j]) by {
                if j < i {
                    assert(states@[j] == previous[j]);
                }
            }
        }
        i += 1;
    }
    let mut m: usize = 0;
    while m < members.len()
        invariant
            households@ == hs,
            households_by_id(hs),
            states@.len() == hs.len(),
            0 <= m <= members@.len(),
            forall|j: int| 0 <= j < hs.len() && plans_migration(hs[j]) ==> state_matches(members@, *world, hs[j], tick, m as int, #[trigger] states@[j]),
        decreases members@.len() - m,
    {
        let member = &members[m];
        let ghost before = states@;
        let target = planning_household_of(households, member.household_id);
        match target {
            Some(index) => {
                let mut state = states[index];
                proof {
                    assert(plans_migration(hs[index as int]));
                    assert(state == before[index as int]);
                    assert(state_matches(members@, *world, hs[index as int], tick, m as int, before[index as int]));
                    assert(*member == members@[m as int]);
                    lemma_count_bounds(members@.take(m as int), hs[index as int].id);
                    member.inventory.lemma_one_slot_per_kind();
                    hs[index as int].storage.lemma_one_slot_per_kind();
                }
                state.members = state.members + 1;
                state.food = state.food + member.inventory.amount(ItemKind::Food) as u128;
                let grown = match LifeStage::from_age_ticks(member.age_ticks) {
                    LifeStage::Adult | LifeStage::Elder => true,
                    _ => false,
                };
                let home = (households[index].residence_x, households[index].residence_y);
                let ghost old_best = state.best;
                if grown {
                    scan_member(member, world, home, tick, &mut state.local, &mut state.best);
                }
                states.set(index, state);
                proof {
                    let h = hs[index as int];
                    lemma_extend_summaries(members@, *world, h, tick, m as int);
                    if grown {
                        assert forall|p: MigrationProposal| #[trigger] proposed(members@.take(m + 1), *world, h, tick, p)
                            && state.best matches Some(b) implies !proposal_better(p, state.best.unwrap()) by {
                            let b = state.best.unwrap();
                            if proposed(members@.take(m as int), *world, h, tick, p) {
                                let o = old_best.unwrap();
                                assert(!proposal_better(p, o));
                                lemma_not_better_chain(p, o, b);
                            } else {
                                let k = choose|k: int| member_proposes(members@[m as int], *world, residence(h), tick, k, p);
                            }
                        }
                        if let Some(b) = state.best {
                            if old_best == Some(b) {
                                assert(proposed(members@.take(m as int), *world, h, tick, b));
                            } else {
                                let k = choose|k: int| member_proposes(*member, *world, home, tick, k, b);
                            }
                            assert(proposed(members@.take(m + 1), *world, h, tick, b));
                        }
                        if state.best is None {
                            assert(old_best is None);
                            assert forall|p: MigrationProposal| !#[trigger] proposed(members@.take(m + 1), *world, h, tick, p) by {
                                assert(!proposed(members@.take(m as int), *world, h, tick, p));
                                if exists|k: int| member_proposes(members@[m as int], *world, residence(h), tick, k, p) {
                                    let k = choose|k: int| member_proposes(members@[m as int], *world, residence(h), tick, k, p);
                                    assert(member_proposes(*member, *world, home, tick, k, p));
                                }
                            }
                        }
                    }
                    assert forall|j: int| 0 <= j < hs.len() && plans_migration(hs[j]) implies state_matches(
                        members@,
                        *world,
                        hs[j],
                        tick,
                        m + 1,
                        #[trigger] states@[j],
                    ) by {
                        lemma_extend_summaries(members@, *world, hs[j], tick, m as int);
                        if j != index {
                            assert(states@[j] == before[j]);
                            if j < index {
                                assert(hs[j].id < hs[index as int].id);
                            } else {
                                assert(hs[index as int].id < hs[j].id);
                            }
                        }
                    }
                }
            },
            None => {
                proof {
                    assert forall|j: int| 0 <= j < hs.len() && plans_migration(hs[j]) implies state_matches(
                        members@,
                        *world,
                        hs[j],
                        tick,
                        m + 1,
                        #[trigger] states@[j],
                    ) by {
                        lemma_extend_summaries(members@, *world, hs[j], tick, m as int);
                    }
                }
            },
        }
        m += 1;
    }
    proof {
        assert(members@.take(members@.len() as int) =~= members@);
    }
    let mut i: usize = 0;
    while i < households.len()
        invariant
            households@.len() == hs.len(),
            states@.len() == hs.len(),
            0 <= i <= hs.len(),
            tick % TICKS_PER_DAY == 0,
            members@.take(members@.len() as int) == members@,
            forall|j: int| 0 <= j < hs.len() && plans_migration(hs[j]) ==> state_matches(members@, *world, hs[j], tick, members@.len() as int, #[trigger] states@[j]),
            forall|j: int| 0 <= j < i ==> #[trigger] households@[j] == migrated(members@, *world, hs[j], tick),
            forall|j: int| i <= j < hs.len() ==> #[trigger] households@[j] == hs[j],
        decreases hs.len() - i,
    {
        let household = households[i];
        let state = states[i];
        let planning = household.is_active() && household.active_migration_target().is_none();
        let cooldown_ready = match household.migration {
            None => true,
            Some(migration) => match migration.completed_tick {
                Some(completed) => {
                    let ready_at = if completed <= u64::MAX - HOUSEHOLD_MIGRATION_COOLDOWN_TICKS {
                        completed + HOUSEHOLD_MIGRATION_COOLDOWN_TICKS
                    } else {
                        u64::MAX
                    };
                    tick >= ready_at
                },
                None => false,
            },
        };
        proof {
            assert(cooldown_ready == cooldown_over(household, tick));
        }
        if planning && state.members > 0 && state.food < state.members as u128 * FOOD_CONSUMED_PER_MEAL as u128
            && !state.local && cooldown_ready {
            if let Some(proposal) = state.best {
                households[i].migration = Some(
                    HouseholdMigration {
                        started_tick: tick,
                        proposer_id: proposal.proposer_id,
                        target_x: proposal.target.0,
                        target_y: proposal.target.1,
                        completed_tick: None,
                    },
                );
                proof {
                    let h = hs[i as int];
                    assert(starts_migration(members@, *world, h, tick));
                    let p = choose|p: MigrationProposal| best_proposal(members@, *world, h, tick, p);
                    lemma_best_unique(members@, *world, h, tick, p, proposal);
                }
            }
        }
        i += 1;
    }
}

/// How the stores of one dissolved household were passed on.
#[derive(Clone, Copy, Debug, PartialEq, Eq)]
pub struct HouseholdInheritanceSettlement {
    pub household_id: u32,
    pub decedent_id: u32,
    pub heir_id: Option<u32>,
    pub destination_household_id: Option<u32>,
    pub transferred: [u16; 4],
}

/// Somebody with this id is alive.
pub open spec fn living(members: Seq<Member>, id: u32) -> bool {
    member_index(members, id) is Some
}

/// A claim on an estate: the rank of the claim (partner, descendant, parent, sibling),
/// the generation of a descendant, the decedent, and the heir.
pub type HeirClaim = (u8, u16, u32, u32);

/// Claims are ranked by rank, then generation, then decedent, then heir.
pub open spec fn claim_le(a: HeirClaim, b: HeirClaim) -> bool {
    a.0 < b.0 || (a.0 == b.0 && (a.1 < b.1 || (a.1 == b.1 && (a.2 < b.2 || (a.2 == b.2 && a.3 <= b.3)))))
}

/// A living individual's claim on the estate of `death`: as partner, as a descendant (at
/// its generation), as a parent, or as a sibling.
pub open spec fn claim_from(records: Seq<LineageRecord>, members: Seq<Member>, death: DeathContext, claim: HeirClaim) -> bool {
    let d = death.entity_id;
    &&& claim.2 == d
    &&& living(members, claim.3)
    &&& {
        ||| claim.0 == 0 && claim.1 == 0 && death.partner_id == Some(claim.3)
        ||| claim.0 == 1 && claim.3 != d && reachable(records, false, d, claim.3) && claim.1 == capped_generation(
            generation_distance(records, false, d, claim.3),
        )
        ||| claim.0 == 2 && claim.1 == 0 && parent_of(records, d, claim.3)
        ||| claim.0 == 3 && claim.1 == 0 && (lineage_of(records, d) matches Some(r) && spec_siblings(
            records,
            d,
            r.mother_id,
            r.father_id,
        ).contains(claim.3))
    }
}

/// A claim on the estate of a household, through one of its members who died.
pub open spec fn household_claim(records: Seq<LineageRecord>, members: Seq<Member>, deaths: Seq<DeathContext>, household_id: u32, claim: HeirClaim) -> bool {
    exists|j: int|
        0 <= j < deaths.len() && (#[trigger] deaths[j]).household_id == Some(household_id) && claim_from(
            records,
            members,
            deaths[j],
            claim,
        )
}

/// The claim that wins: ranked first among all claims on the household's estate.
pub open spec fn winning_claim(records: Seq<LineageRecord>, members: Seq<Member>, deaths: Seq<DeathContext>, household_id: u32, claim: HeirClaim) -> bool {
    &&& household_claim(records, members, deaths, household_id, claim)
    &&& forall|other: HeirClaim| #[trigger] household_claim(records, members, deaths, household_id, other) ==> claim_le(claim, other)
}

/// The lowest id among the household's deaths.
pub open spec fn first_decedent(deaths: Seq<DeathContext>, household_id: u32, id: u32) -> bool {
    &&& exists|j: int| 0 <= j < deaths.len() && (#[trigger] deaths[j]).household_id == Some(household_id) && deaths[j].entity_id == id
    &&& forall|j: int| 0 <= j < deaths.len() && (#[trigger] deaths[j]).household_id == Some(household_id) ==> id <= deaths[j].entity_id
}

/// A household whose estate is settled in this pass: it was just dissolved, at this very
/// tick, has no settlement yet, and one of its members died.
pub open spec fn estate_open(
    household: Household,
    inheritance: Option<HouseholdInheritance>,
    dissolutions: Seq<HouseholdDissolution>,
    deaths: Seq<DeathContext>,
    tick: u64,
) -> bool {
    &&& exists|d: int| 0 <= d < dissolutions.len() && (#[trigger] dissolutions[d]).household_id == household.id
    &&& household.dissolved_tick == Some(tick)
    &&& inheritance is None
    &&& exists|j: int| 0 <= j < deaths.len() && (#[trigger] deaths[j]).household_id == Some(household.id)
}

pub open spec fn minus(a: Seq<u16>, moved: Seq<u16>) -> Seq<u16> {
    Seq::new(4, |k: int| (a[k] - moved[k]) as u16)
}

pub open spec fn plus(a: Seq<u16>, moved: Seq<u16>) -> Seq<u16> {
    Seq::new(4, |k: int| (a[k] + moved[k]) as u16)
}

pub open spec fn total_of(a: Seq<u16>) -> int {
    a[0] + a[1] + a[2] + a[3]
}

/// The state of an inheritance pass: the amounts in every household's storage, every
/// household's settlement, the amounts every individual carries, and the settlements so
/// far.
pub struct EstateState {
    pub storage: Seq<Seq<u16>>,
    pub inheritance: Seq<Option<HouseholdInheritance>>,
    pub carried: Seq<Seq<u16>>,
    pub settlements: Seq<HouseholdInheritanceSettlement>,
}

pub open spec fn initial_estates(households: Seq<Household>, members: Seq<Member>) -> EstateState {
    EstateState {
        storage: Seq::new(households.len(), |i: int| households[i].storage.spec_amounts()),
        inheritance: Seq::new(households.len(), |i: int| households[i].inheritance),
        carried: Seq::new(members.len(), |i: int| members[i].inventory.spec_amounts()),
        settlements: Seq::empty(),
    }
}

/// One household's estate settled: the winning claim names the decedent and the heir
/// (without one, the lowest id among its dead is the decedent); the heir's active
/// household receives the stores, else the heir carries them, as far as there is room.
pub open spec fn settle_one(
    households: Seq<Household>,
    members: Seq<Member>,
    records: Seq<LineageRecord>,
    deaths: Seq<DeathContext>,
    tick: u64,
    state: EstateState,
    source: int,
) -> EstateState {
    let h = households[source];
    let has_claim = exists|c: HeirClaim| household_claim(records, members, deaths, h.id, c);
    let claim = choose|c: HeirClaim| winning_claim(records, members, deaths, h.id, c);
    let decedent = if has_claim { claim.2 } else { choose|id: u32| first_decedent(deaths, h.id, id) };
    let heir = if has_claim { Some(claim.3) } else { None };
    let heir_household = match heir {
        Some(e) => match member_index(members, e) {
            Some(mi) => members[mi].household_id,
            None => None,
        },
        None => None,
    };
    let destination = match heir_household {
        Some(t) => if household_active(households, t) { Some(t) } else { None },
        None => None,
    };
    let (storage, carried, moved) = match (heir, destination) {
        (Some(e), Some(t)) => {
            let ti = household_index(households, t).unwrap();
            let moved = transfer_amounts(
                state.storage[source],
                households[ti].storage.spec_capacity() - total_of(state.storage[ti]),
                4,
            );
            (
                state.storage.update(source, minus(state.storage[source], moved)).update(ti, plus(state.storage[ti], moved)),
                state.carried,
                moved,
            )
        },
        (Some(e), None) => match member_index(members, e) {
            Some(mi) => {
                let moved = transfer_amounts(
                    state.storage[source],
                    members[mi].inventory.spec_capacity() - total_of(state.carried[mi]),
                    4,
                );
                (
                    state.storage.update(source, minus(state.storage[source], moved)),
                    state.carried.update(mi, plus(state.carried[mi], moved)),
                    moved,
                )
            },
            None => (state.storage, state.carried, seq![0u16, 0u16, 0u16, 0u16]),
        },
        _ => (state.storage, state.carried, seq![0u16, 0u16, 0u16, 0u16]),
    };
    EstateState {
        storage,
        carried,
        inheritance: state.inheritance.update(
            source,
            Some(
                HouseholdInheritance {
                    resolved_tick: tick,
                    decedent_id: decedent,
                    heir_id: heir,
                    destination_household_id: destination,
                },
            ),
        ),
        settlements: state.settlements.push(
            HouseholdInheritanceSettlement {
                household_id: h.id,
                decedent_id: decedent,
                heir_id: heir,
                destination_household_id: destination,
                transferred: [moved[0], moved[1], moved[2], moved[3]],
            },
        ),
    }
}

/// The inheritance pass over the first `k` households, in order.
pub open spec fn estates_after(
    households: Seq<Household>,
    members: Seq<Member>,
    records: Seq<LineageRecord>,
    deaths: Seq<DeathContext>,
    dissolutions: Seq<HouseholdDissolution>,
    tick: u64,
    k: int,
) -> EstateState
    decreases k,
{
    if k <= 0 {
        initial_estates(households, members)
    } else {
        let state = estates_after(households, members, records, deaths, dissolutions, tick, k - 1);
        if estate_open(households[k - 1], state.inheritance[k - 1], dissolutions, deaths, tick) {
            settle_one(households, members, records, deaths, tick, state, k - 1)
        } else {
            state
        }
    }
}

fn claim_le_exec(a: HeirClaim, b: HeirClaim) -> (r: bool)
    ensures
        r == claim_le(a, b),
{
    a.0 < b.0 || (a.0 == b.0 && (a.1 < b.1 || (a.1 == b.1 && (a.2 < b.2 || (a.2 == b.2 && a.3 <= b.3)))))
}

fn is_living(members: &Vec<Member>, id: u32) -> (r: bool)
    requires
        members_by_id(members@),
    ensures
        r == living(members@, id),
{
    find_member(members, id).is_some()
}

/// Keeps the better of the best claim so far and a new claim.
fn keep_best(best: Option<HeirClaim>, claim: HeirClaim) -> (r: Option<HeirClaim>)
    ensures
        r matches Some(b) && (b == claim || best == Some(b)),
        claim_le(r.unwrap(), claim),
        best matches Some(o) ==> claim_le(r.unwrap(), o),
{
    match best {
        None => Some(claim),
        Some(current) => if claim_le_exec(current, claim) {
            Some(current)
        } else {
            Some(claim)
        },
    }
}

/// The best claim on the estate of one death.
fn best_claim_of_death(genealogy: &Genealogy, members: &Vec<Member>, death: DeathContext) -> (r: Option<HeirClaim>)
    requires
        genealogy.wf(),
        members_by_id(members@),
    ensures
        r is None <==> !exists|c: HeirClaim| claim_from(genealogy.spec_records(), members@, death, c),
        r matches Some(c) ==> claim_from(genealogy.spec_records(), members@, death, c) && forall|o: HeirClaim|
            claim_from(genealogy.spec_records(), members@, death, o) ==> claim_le(c, o),
{
    let ghost records = genealogy.spec_records();
    let d = death.entity_id;
    let mut best: Option<HeirClaim> = None;
    if let Some(partner) = death.partner_id {
        if is_living(members, partner) {
            best = keep_best(best, (0u8, 0u16, d, partner));
        }
    }
    let descendants = descendants_of(genealogy, d);
    let mut i: usize = 0;
    while i < descendants.len()
        invariant
            records == genealogy.spec_records(),
            d == death.entity_id,
            lists_relatives(records, false, d, descendants@),
            members_by_id(members@),
            0 <= i <= descendants@.len(),
            best matches Some(b) ==> claim_from(records, members@, death, b),
            best is None ==> (death.partner_id matches Some(p) ==> !living(members@, p)),
            best is None ==> forall|j: int| 0 <= j < i ==> !living(members@, #[trigger] descendants@[j].entity_id),
            best matches Some(b) ==> (death.partner_id matches Some(p) ==> (living(members@, p) ==> claim_le(b, (0u8, 0u16, d, p)))),
            best matches Some(b) ==> forall|j: int|
                0 <= j < i && living(members@, #[trigger] descendants@[j].entity_id) ==> claim_le(
                    b,
                    (1u8, descendants@[j].generation, d, descendants@[j].entity_id),
                ),
        decreases descendants@.len() - i,
    {
        let relative = descendants[i];
        if is_living(members, relative.entity_id) {
            proof {
                assert(descendants@[i as int] == relative);
                let g = generation_distance(records, false, d, relative.entity_id);
                assert(crate::kinship::at_distance(records, false, d, relative.entity_id, g));
                assert(crate::kinship::within(records, false, d, g).contains(relative.entity_id));
                assert(reachable(records, false, d, relative.entity_id));
                assert(claim_from(records, members@, death, (1u8, relative.generation, d, relative.entity_id)));
            }
            best = keep_best(best, (1u8, relative.generation, d, relative.entity_id));
        }
        i += 1;
    }
    let mut parents: [Option<u32>; 2] = [None, None];
    match genealogy.get(d) {
        Some(record) => {
            parents = [record.mother_id, record.father_id];
            proof {
                genealogy.lemma_records_increasing();
                let i = choose|i: int| 0 <= i < records.len() && records[i] == *record;
                assert(records[i].entity_id == d);
                assert forall|i2: int| 0 <= i2 < records.len() && (#[trigger] records[i2]).entity_id == d implies records[i2] == *record by {
                    if i2 < i {
                        assert(records[i2].entity_id < records[i].entity_id);
                    } else if i2 > i {
                        assert(records[i].entity_id < records[i2].entity_id);
                    }
                }
            }
        },
        None => {},
    }
    let ghost after_descendants = best;
    let mut p: usize = 0;
    while p < 2
        invariant
            records == genealogy.spec_records(),
            d == death.entity_id,
            members_by_id(members@),
            0 <= p <= 2,
            best matches Some(b) ==> claim_from(records, members@, death, b),
            after_descendants matches Some(b) ==> best is Some && claim_le(best.unwrap(), b),
            after_descendants is None ==> (best is None <==> forall|j: int| 0 <= j < p ==> !((#[trigger] parents@[j]) matches Some(q) && living(members@, q))),
            forall|j: int| 0 <= j < p ==> ((#[trigger] parents@[j]) matches Some(q) ==> (living(members@, q) ==> best is Some && claim_le(best.unwrap(), (2u8, 0u16, d, q)))),
            forall|j: int| 0 <= j < 2 ==> ((#[trigger] parents@[j]) matches Some(q) ==> parent_of(records, d, q)),
        decreases 2 - p,
    {
        if let Some(parent) = parents[p] {
            if is_living(members, parent) {
                assert(parents@[p as int] == Some(parent));
                assert(parent_of(records, d, parent));
                assert(claim_from(records, members@, death, (2u8, 0u16, d, parent)));
                best = keep_best(best, (2u8, 0u16, d, parent));
            }
        }
        p += 1;
    }
    let siblings = siblings_of(genealogy, d);
    let ghost after_parents = best;
    let mut k: usize = 0;
    while k < siblings.len()
        invariant
            records == genealogy.spec_records(),
            d == death.entity_id,
            members_by_id(members@),
            0 <= k <= siblings@.len(),
            siblings@ == match lineage_of(records, d) {
                Some(record) => spec_siblings(records, d, record.mother_id, record.father_id),
                None => Seq::empty(),
            },
            best matches Some(b) ==> claim_from(records, members@, death, b),
            after_parents matches Some(b) ==> best is Some && claim_le(best.unwrap(), b),
            after_parents is None ==> (best is None <==> forall|j: int| 0 <= j < k ==> !living(members@, #[trigger] siblings@[j])),
            forall|j: int| 0 <= j < k && living(members@, #[trigger] siblings@[j]) ==> best is Some && claim_le(best.unwrap(), (3u8, 0u16, d, siblings@[j])),
        decreases siblings@.len() - k,
    {
        let sibling = siblings[k];
        if is_living(members, sibling) {
            proof {
                assert(siblings@[k as int] == sibling);
                assert(lineage_of(records, d) is Some);
                assert(siblings@.contains(sibling));
            }
            best = keep_best(best, (3u8, 0u16, d, sibling));
        }
        k += 1;
    }
    proof {
        genealogy.lemma_records_increasing();
        assert forall|o: HeirClaim| claim_from(records, members@, death, o) implies best is Some && claim_le(best.unwrap(), o) by {
            if o.0 == 0 {
                let q = o.3;
                assert(after_descendants is Some);
                lemma_claim_le_transitive(best.unwrap(), after_parents.unwrap(), after_descendants.unwrap());
                lemma_claim_le_transitive(best.unwrap(), after_descendants.unwrap(), o);
            } else if o.0 == 1 {
                let e = o.3;
                let k = choose|k: nat| #[trigger] crate::kinship::within(records, false, d, k).contains(e);
                assert(crate::kinship::within(records, false, d, k).contains(e) && e != d);
                let j = choose|j: int| 0 <= j < descendants@.len() && descendants@[j].entity_id == e;
                assert(living(members@, descendants@[j].entity_id));
                assert(descendants@[j].generation == o.1);
                lemma_claim_le_transitive(best.unwrap(), after_parents.unwrap(), after_descendants.unwrap());
                lemma_claim_le_transitive(best.unwrap(), after_descendants.unwrap(), o);
            } else if o.0 == 2 {
                let q = o.3;
                let i = choose|i: int| 0 <= i < records.len() && (#[trigger] records[i]).entity_id == d && crate::genealogy::has_parent(records[i], q);
                assert(parents@[0] == Some(q) || parents@[1] == Some(q)) by {
                    if exists|i: int| 0 <= i < records.len() && (#[trigger] records[i]).entity_id == d {
                        let r = choose|r: LineageRecord| records.contains(r) && r.entity_id == d;
                    }
                }
                if parents@[0] == Some(q) {
                    assert(parents@[0] matches Some(q2) && living(members@, q2));
                } else {
                    assert(parents@[1] matches Some(q2) && living(members@, q2));
                }
                lemma_claim_le_transitive(best.unwrap(), after_parents.unwrap(), o);
            } else {
                let q = o.3;
                let j = choose|j: int| 0 <= j < siblings@.len() && siblings@[j] == q;
                assert(living(members@, siblings@[j]));
            }
        }
    }
    best
}

proof fn lemma_claim_le_transitive(a: HeirClaim, b: HeirClaim, c: HeirClaim)
    requires
        claim_le(a, b),
        claim_le(b, c),
    ensures
        claim_le(a, c),
{
}

proof fn lemma_claim_le_antisymmetric(a: HeirClaim, b: HeirClaim)
    requires
        claim_le(a, b),
        claim_le(b, a),
    ensures
        a == b,
{
}

/// The best claim on the estate of a household, over all of its dead.
fn best_household_claim(genealogy: &Genealogy, members: &Vec<Member>, deaths: &Vec<DeathContext>, household_id: u32) -> (r:
    Option<HeirClaim>)
    requires
        genealogy.wf(),
        members_by_id(members@),
    ensures
        r is None <==> !exists|c: HeirClaim| household_claim(genealogy.spec_records(), members@, deaths@, household_id, c),
        r matches Some(c) ==> winning_claim(genealogy.spec_records(), members@, deaths@, household_id, c),
{
    let ghost records = genealogy.spec_records();
    let mut best: Option<HeirClaim> = None;
    let mut j: usize = 0;
    while j < deaths.len()
        invariant
            genealogy.wf(),
            records == genealogy.spec_records(),
            members_by_id(members@),
            0 <= j <= deaths@.len(),
            best is None ==> forall|i: int, c: HeirClaim|
                0 <= i < j && deaths@[i].household_id == Some(household_id) ==> !#[trigger] claim_from(records, members@, deaths@[i], c),
            best matches Some(b) ==> household_claim(records, members@, deaths@, household_id, b),
            best matches Some(b) ==> forall|i: int, c: HeirClaim|
                0 <= i < j && deaths@[i].household_id == Some(household_id) && #[trigger] claim_from(records, members@, deaths@[i], c)
                    ==> claim_le(b, c),
        decreases deaths@.len() - j,
    {
        let death = deaths[j];
        let belongs = match death.household_id {
            Some(h) => h == household_id,
            None => false,
        };
        if belongs {
            match best_claim_of_death(genealogy, members, death) {
                Some(claim) => {
                    let ghost previous = best;
                    best = keep_best(best, claim);
                    proof {
                        assert(deaths@[j as int] == death);
                        assert(household_claim(records, members@, deaths@, household_id, claim));
                        let b = best.unwrap();
                        assert forall|i: int, c: HeirClaim|
                            0 <= i < j + 1 && deaths@[i].household_id == Some(household_id) && #[trigger] claim_from(records, members@, deaths@[i], c)
                                implies claim_le(b, c) by {
                            if i == j {
                                lemma_claim_le_transitive(b, claim, c);
                            } else {
                                lemma_claim_le_transitive(b, previous.unwrap(), c);
                            }
                        }
                    }
                },
                None => {
                    proof {
                        assert(deaths@[j as int] == death);
                    }
                },
            }
        }
        j += 1;
    }
    proof {
        if best is None {
            assert forall|c: HeirClaim| !household_claim(records, members@, deaths@, household_id, c) by {
                if household_claim(records, members@, deaths@, household_id, c) {
                    let i = choose|i: int| 0 <= i < deaths@.len() && (#[trigger] deaths@[i]).household_id == Some(household_id)
                        && claim_from(records, members@, deaths@[i], c);
                }
            }
        } else {
            let b = best.unwrap();
            assert forall|c: HeirClaim| #[trigger] household_claim(records, members@, deaths@, household_id, c) implies claim_le(b, c) by {
                let i = choose|i: int| 0 <= i < deaths@.len() && (#[trigger] deaths@[i]).household_id == Some(household_id)
                    && claim_from(records, members@, deaths@[i], c);
            }
        }
    }
    best
}

/// The lowest id among the household's dead, if any died.
fn first_death_id(deaths: &Vec<DeathContext>, household_id: u32) -> (r: Option<u32>)
    ensures
        r is None <==> !exists|j: int| 0 <= j < deaths@.len() && (#[trigger] deaths@[j]).household_id == Some(household_id),
        r matches Some(id) ==> first_decedent(deaths@, household_id, id),
{
    let mut best: Option<u32> = None;
    let mut j: usize = 0;
    while j < deaths.len()
        invariant
            0 <= j <= deaths@.len(),
            best is None <==> !exists|i: int| 0 <= i < j && (#[trigger] deaths@[i]).household_id == Some(household_id),
            best matches Some(id) ==> exists|i: int| 0 <= i < j && (#[trigger] deaths@[i]).household_id == Some(household_id) && deaths@[i].entity_id == id,
            best matches Some(id) ==> forall|i: int| 0 <= i < j && (#[trigger] deaths@[i]).household_id == Some(household_id) ==> id <= deaths@[i].entity_id,
        decreases deaths@.len() - j,
    {
        let death = deaths[j];
        let belongs = match death.household_id {
            Some(h) => h == household_id,
            None => false,
        };
        if belongs {
            best = match best {
                None => Some(death.entity_id),
                Some(id) => if death.entity_id < id { Some(death.entity_id) } else { Some(id) },
            };
        }
        proof {
            assert(deaths@[j as int] == death);
        }
        j += 1;
    }
    best
}

/// Same ids in the same places find the same individual.
proof fn lemma_same_ids(a: Seq<Member>, b: Seq<Member>, id: u32)
    requires
        members_by_id(a),
        a.len() == b.len(),
        forall|i: int| 0 <= i < a.len() ==> #[trigger] a[i].id == b[i].id,
    ensures
        members_by_id(b),
        member_index(a, id) == member_index(b, id),
{
    assert forall|i: int, j: int| 0 <= i < j < b.len() implies b[i].id < b[j].id by {
        assert(a[i].id == b[i].id && a[j].id == b[j].id);
    }
    if exists|i: int| 0 <= i < a.len() && #[trigger] a[i].id == id {
        let ia = choose|i: int| 0 <= i < a.len() && #[trigger] a[i].id == id;
        assert(b[ia].id == id);
        let ib = choose|i: int| 0 <= i < b.len() && #[trigger] b[i].id == id;
        assert(a[ib].id == id);
        if ia < ib {
            assert(a[ia].id < a[ib].id);
        } else if ib < ia {
            assert(a[ib].id < a[ia].id);
        }
    } else {
        assert forall|i: int| 0 <= i < b.len() implies #[trigger] b[i].id != id by {
            assert(a[i].id == b[i].id);
        }
    }
}

/// Same ids in the same places find the same household.
proof fn lemma_same_household_ids(a: Seq<Household>, b: Seq<Household>, id: u32)
    requires
        households_by_id(a),
        a.len() == b.len(),
        forall|i: int| 0 <= i < a.len() ==> #[trigger] a[i].id == b[i].id,
    ensures
        households_by_id(b),
        household_index(a, id) == household_index(b, id),
{
    assert forall|i: int, j: int| 0 <= i < j < b.len() implies b[i].id < b[j].id by {
        assert(a[i].id == b[i].id && a[j].id == b[j].id);
    }
    if exists|i: int| 0 <= i < a.len() && #[trigger] a[i].id == id {
        let ia = choose|i: int| 0 <= i < a.len() && #[trigger] a[i].id == id;
        assert(b[ia].id == id);
        let ib = choose|i: int| 0 <= i < b.len() && #[trigger] b[i].id == id;
        assert(a[ib].id == id);
        if ia < ib {
            assert(a[ia].id < a[ib].id);
        } else if ib < ia {
            assert(a[ib].id < a[ia].id);
        }
    } else {
        assert forall|i: int| 0 <= i < b.len() implies #[trigger] b[i].id != id by {
            assert(a[i].id == b[i].id);
        }
    }
}

proof fn lemma_estates_shape(
    households: Seq<Household>,
    members: Seq<Member>,
    records: Seq<LineageRecord>,
    deaths: Seq<DeathContext>,
    dissolutions: Seq<HouseholdDissolution>,
    tick: u64,
    k: int,
)
    requires
        0 <= k <= households.len(),
    ensures
        estates_after(households, members, records, deaths, dissolutions, tick, k).storage.len() == households.len(),
        estates_after(households, members, records, deaths, dissolutions, tick, k).inheritance.len() == households.len(),
        estates_after(households, members, records, deaths, dissolutions, tick, k).carried.len() == members.len(),
        forall|i: int|
            0 <= i < households.len() ==> (#[trigger] estates_after(households, members, records, deaths, dissolutions, tick, k).storage[i]).len() == 4,
        forall|i: int|
            0 <= i < members.len() ==> (#[trigger] estates_after(households, members, records, deaths, dissolutions, tick, k).carried[i]).len() == 4,
        forall|i: int|
            k <= i < households.len() ==> #[trigger] estates_after(households, members, records, deaths, dissolutions, tick, k).inheritance[i]
                == households[i].inheritance,
    decreases k,
{
    if k == 0 {
        assert forall|i: int| 0 <= i < households.len() implies (#[trigger] initial_estates(households, members).storage[i]).len() == 4 by {
            households[i].storage.lemma_one_slot_per_kind();
        }
        assert forall|i: int| 0 <= i < members.len() implies (#[trigger] initial_estates(households, members).carried[i]).len() == 4 by {
            members[i].inventory.lemma_one_slot_per_kind();
        }
    } else {
        lemma_estates_shape(households, members, records, deaths, dissolutions, tick, k - 1);
        let state = estates_after(households, members, records, deaths, dissolutions, tick, k - 1);
        if estate_open(households[k - 1], state.inheritance[k - 1], dissolutions, deaths, tick) {
            lemma_transfer_len_all(state.storage[k - 1]);
        }
    }
}

fn recently_dissolved(dissolutions: &Vec<HouseholdDissolution>, household_id: u32) -> (r: bool)
    ensures
        r == exists|d: int| 0 <= d < dissolutions@.len() && (#[trigger] dissolutions@[d]).household_id == household_id,
{
    let mut d: usize = 0;
    while d < dissolutions.len()
        invariant
            0 <= d <= dissolutions@.len(),
            forall|j: int| 0 <= j < d ==> (#[trigger] dissolutions@[j]).household_id != household_id,
        decreases dissolutions@.len() - d,
    {
        if dissolutions[d].household_id == household_id {
            return true;
        }
        d += 1;
    }
    false
}

/// The households and individuals carry what the estate state says, and nothing else
/// about them changed.
pub open spec fn corresponds(
    households: Seq<Household>,
    members: Seq<Member>,
    original_households: Seq<Household>,
    original_members: Seq<Member>,
    state: EstateState,
) -> bool {
    &&& households.len() == original_households.len()
    &&& members.len() == original_members.len()
    &&& forall|i: int|
        0 <= i < original_households.len() ==> #[trigger] households[i] == (Household {
            storage: households[i].storage,
            inheritance: state.inheritance[i],
            ..original_households[i]
        }) && households[i].storage.spec_amounts() == state.storage[i] && households[i].storage.spec_capacity()
            == original_households[i].storage.spec_capacity()
    &&& forall|i: int|
        0 <= i < original_members.len() ==> #[trigger] members[i] == (Member { inventory: members[i].inventory, ..original_members[i] })
            && members[i].inventory.spec_amounts() == state.carried[i] && members[i].inventory.spec_capacity()
            == original_members[i].inventory.spec_capacity()
}

/// Settles the estate of the `k`-th household.
fn settle_estate(
    members: &mut Vec<Member>,
    households: &mut Vec<Household>,
    genealogy: &Genealogy,
    deaths: &Vec<DeathContext>,
    k: usize,
    tick: u64,
    Ghost(hs): Ghost<Seq<Household>>,
    Ghost(ms): Ghost<Seq<Member>>,
    Ghost(state): Ghost<EstateState>,
) -> (settlement: HouseholdInheritanceSettlement)
    requires
        genealogy.wf(),
        members_by_id(ms),
        households_by_id(hs),
        k < hs.len(),
        state.storage.len() == hs.len(),
        state.inheritance.len() == hs.len(),
        state.carried.len() == ms.len(),
        forall|i: int| 0 <= i < hs.len() ==> (#[trigger] state.storage[i]).len() == 4,
        forall|i: int| 0 <= i < ms.len() ==> (#[trigger] state.carried[i]).len() == 4,
        corresponds(old(households)@, old(members)@, hs, ms, state),
        exists|j: int| 0 <= j < deaths@.len() && (#[trigger] deaths@[j]).household_id == Some(hs[k as int].id),
        hs[k as int].dissolved_tick is Some,
    ensures
        corresponds(
            final(households)@,
            final(members)@,
            hs,
            ms,
            settle_one(hs, ms, genealogy.spec_records(), deaths@, tick, state, k as int),
        ),
        settle_one(hs, ms, genealogy.spec_records(), deaths@, tick, state, k as int).settlements == state.settlements.push(
            settlement,
        ),
{
    let ghost records = genealogy.spec_records();
    proof {
        assert forall|i: int| 0 <= i < ms.len() implies #[trigger] ms[i].id == members@[i].id by {
            assert(members@[i] == (Member { inventory: members@[i].inventory, ..ms[i] }));
        }
        assert forall|i: int| 0 <= i < hs.len() implies #[trigger] hs[i].id == households@[i].id by {
            assert(households@[i].id == hs[i].id);
        }
        assert forall|id: u32| member_index(ms, id) == member_index(members@, id) by {
            lemma_same_ids(ms, members@, id);
        }
        assert forall|id: u32| household_index(hs, id) == household_index(households@, id) by {
            lemma_same_household_ids(hs, households@, id);
        }
        lemma_same_ids(ms, members@, 0);
        lemma_same_household_ids(hs, households@, 0);
    }
    let household_id = households[k].id;
    let claim = best_household_claim(genealogy, members, deaths, household_id);
    proof {
        assert forall|c: HeirClaim| household_claim(records, members@, deaths@, household_id, c) == household_claim(records, ms, deaths@, household_id, c) by {
            assert forall|d: DeathContext| claim_from(records, members@, d, c) == claim_from(records, ms, d, c) by {}
        }
    }
    let first = first_death_id(deaths, household_id);
    let decedent = match claim {
        Some(c) => c.2,
        None => match first {
            Some(id) => id,
            None => 0,
        },
    };
    let heir: Option<u32> = match claim {
        Some(c) => Some(c.3),
        None => None,
    };
    proof {
        let h = hs[k as int];
        assert(households@[k as int].id == h.id);
        assert(household_id == h.id);
        let has_claim = exists|c: HeirClaim| household_claim(records, ms, deaths@, h.id, c);
        let spec_claim = choose|c: HeirClaim| winning_claim(records, ms, deaths@, h.id, c);
        if has_claim {
            let c = claim.unwrap();
            assert(household_claim(records, ms, deaths@, h.id, c));
            assert forall|other: HeirClaim| #[trigger] household_claim(records, ms, deaths@, h.id, other) implies claim_le(c, other) by {
                assert(household_claim(records, members@, deaths@, h.id, other));
            }
            assert(winning_claim(records, ms, deaths@, h.id, c));
            assert(winning_claim(records, ms, deaths@, h.id, spec_claim));
            lemma_claim_le_antisymmetric(c, spec_claim);
        } else {
            let spec_first = choose|id: u32| first_decedent(deaths@, h.id, id);
            assert(first is Some);
            if exists|c: HeirClaim| household_claim(records, members@, deaths@, household_id, c) {
                let c = choose|c: HeirClaim| household_claim(records, members@, deaths@, household_id, c);
                assert(household_claim(records, ms, deaths@, household_id, c));
            }
            assert(claim is None);
            assert(decedent == first.unwrap());
            assert(first_decedent(deaths@, h.id, decedent));
            assert(first_decedent(deaths@, h.id, spec_first));
        }
    }
    let mut destination: Option<u32> = None;
    if let Some(e) = heir {
        if let Some(mi) = find_member(members, e) {
            if let Some(t) = members[mi].household_id {
                proof {
                    assert(members@[mi as int] == (Member { inventory: members@[mi as int].inventory, ..ms[mi as int] }));
                }
                if let Some(ti) = find_household(households, t) {
                    if households[ti].is_active() {
                        destination = Some(t);
                    }
                }
            }
        }
    }
    let mut moved: [u16; 4] = [0u16, 0u16, 0u16, 0u16];
    let ghost mut receiving_household: int = -1;
    let ghost mut receiving_member: int = -1;
    let ghost old_households = households@;
    let ghost old_members = members@;
    if let Some(e) = heir {
        match destination {
            Some(t) => {
                if let Some(ti) = find_household(households, t) {
                    let mut source = households[k].storage;
                    let mut target = households[ti].storage;
                    proof {
                        assert(ti != k);
                        assert(target.spec_amounts() == state.storage[ti as int]);
                        assert(source.spec_amounts() == state.storage[k as int]);
                    }
                    transfer_inventory(&mut source, &mut target, &mut moved);
                    households[k].storage = source;
                    households[ti].storage = target;
                    proof {
                        receiving_household = ti as int;
                        source.lemma_one_slot_per_kind();
                        target.lemma_one_slot_per_kind();
                        assert(households@[k as int].storage.spec_amounts() =~= minus(state.storage[k as int], moved@));
                        assert(households@[ti as int].storage.spec_amounts() =~= plus(state.storage[ti as int], moved@));
                    }
                }
            },
            None => {
                if let Some(mi) = find_member(members, e) {
                    let mut source = households[k].storage;
                    let mut carried = members[mi].inventory;
                    proof {
                        assert(members@[mi as int] == (Member { inventory: members@[mi as int].inventory, ..ms[mi as int] }));
                        assert(carried.spec_amounts() == state.carried[mi as int]);
                        assert(source.spec_amounts() == state.storage[k as int]);
                    }
                    transfer_inventory(&mut source, &mut carried, &mut moved);
                    households[k].storage = source;
                    members[mi].inventory = carried;
                    proof {
                        receiving_member = mi as int;
                        source.lemma_one_slot_per_kind();
                        carried.lemma_one_slot_per_kind();
                        assert(households@[k as int].storage.spec_amounts() =~= minus(state.storage[k as int], moved@));
                        assert(members@[mi as int].inventory.spec_amounts() =~= plus(state.carried[mi as int], moved@));
                    }
                }
            },
        }
    }
    households[k].inheritance = Some(
        HouseholdInheritance { resolved_tick: tick, decedent_id: decedent, heir_id: heir, destination_household_id: destination },
    );
    let settlement = HouseholdInheritanceSettlement {
        household_id,
        decedent_id: decedent,
        heir_id: heir,
        destination_household_id: destination,
        transferred: moved,
    };
    proof {
        let next = settle_one(hs, ms, records, deaths@, tick, state, k as int);
        let m = moved@;
        assert(moved@.len() == 4);
        assert(moved =~= [m[0], m[1], m[2], m[3]]);
        assert(next.settlements == state.settlements.push(settlement));
        assert forall|i: int| 0 <= i < hs.len() implies #[trigger] households@[i] == (Household {
            storage: households@[i].storage,
            inheritance: next.inheritance[i],
            ..hs[i]
        }) && households@[i].storage.spec_amounts() == next.storage[i] && households@[i].storage.spec_capacity()
            == hs[i].storage.spec_capacity() by {
            if i != k && i != receiving_household {
                assert(households@[i] == old_households[i]);
            }
        }
        assert forall|i: int| 0 <= i < ms.len() implies #[trigger] members@[i] == (Member {
            inventory: members@[i].inventory,
            ..ms[i]
        }) && members@[i].inventory.spec_amounts() == next.carried[i] && members@[i].inventory.spec_capacity()
            == ms[i].inventory.spec_capacity() by {
            if i != receiving_member {
                assert(members@[i] == old_members[i]);
            }
        }
    }
    settlement
}

/// Settles the estate of every household dissolved at `tick` whose dissolution is
/// reported and that lost a member: the best claim (a surviving partner, then the
/// nearest living descendant, then a living parent, then a living sibling; ties by
/// decedent and heir id) names the decedent and the heir, and the household's stores go,
/// as far as there is room, to the heir's active household or else to the heir.
pub fn settle_basic_inheritances(
    members: &mut Vec<Member>,
    households: &mut Vec<Household>,
    genealogy: &Genealogy,
    deaths: &Vec<DeathContext>,
    dissolutions: &Vec<HouseholdDissolution>,
    tick: u64,
) -> (r: Vec<HouseholdInheritanceSettlement>)
    requires
        genealogy.wf(),
        members_by_id(old(members)@),
        households_by_id(old(households)@),
    ensures
        r@ == estates_after(
            old(households)@,
            old(members)@,
            genealogy.spec_records(),
            deaths@,
            dissolutions@,
            tick,
            old(households)@.len() as int,
        ).settlements,
        corresponds(
            final(households)@,
            final(members)@,
            old(households)@,
            old(members)@,
            estates_after(
                old(households)@,
                old(members)@,
                genealogy.spec_records(),
                deaths@,
                dissolutions@,
                tick,
                old(households)@.len() as int,
            ),
        ),
{
    let ghost hs = households@;
    let ghost ms = members@;
    let ghost records = genealogy.spec_records();
    proof {
        lemma_estates_shape(hs, ms, records, deaths@, dissolutions@, tick, 0);
        assert forall|i: int| 0 <= i < hs.len() implies #[trigger] households@[i] == (Household {
            storage: households@[i].storage,
            inheritance: initial_estates(hs, ms).inheritance[i],
            ..hs[i]
        }) by {}
    }
    let mut out: Vec<HouseholdInheritanceSettlement> = Vec::new();
    let mut k: usize = 0;
    while k < households.len()
        invariant
            genealogy.wf(),
            records == genealogy.spec_records(),
            members_by_id(ms),
            households_by_id(hs),
            households@.len() == hs.len(),
            0 <= k <= hs.len(),
            corresponds(households@, members@, hs, ms, estates_after(hs, ms, records, deaths@, dissolutions@, tick, k as int)),
            out@ == estates_after(hs, ms, records, deaths@, dissolutions@, tick, k as int).settlements,
        decreases hs.len() - k,
    {
        let ghost state = estates_after(hs, ms, records, deaths@, dissolutions@, tick, k as int);
        proof {
            lemma_estates_shape(hs, ms, records, deaths@, dissolutions@, tick, k as int);
        }
        let household = households[k];
        let open = recently_dissolved(dissolutions, household.id) && match household.dissolved_tick {
            Some(t) => t == tick,
            None => false,
        } && household.inheritance.is_none() && first_death_id(deaths, household.id).is_some();
        proof {
            assert(household.id == hs[k as int].id);
            assert(open == estate_open(hs[k as int], state.inheritance[k as int], dissolutions@, deaths@, tick));
        }
        if open {
            let settlement = settle_estate(members, households, genealogy, deaths, k, tick, Ghost(hs), Ghost(ms), Ghost(state));
            out.push(settlement);
        }
        k += 1;
    }
    out
}

/// A transfer never moves more of a kind than the source holds, nor more in all than the
/// destination has room for.
pub proof fn lemma_transfer_bounded(source: Seq<u16>, room: int, k: int)
    requires
        0 <= k <= source.len(),
        room >= 0,
    ensures
        forall|j: int| 0 <= j < k ==> #[trigger] transfer_amounts(source, room, k)[j] <= source[j],
        amount_sum(transfer_amounts(source, room, k), k) <= room,
    decreases k,
{
    if k > 0 {
        lemma_transfer_bounded(source, room, k - 1);
        lemma_transfer_len(source, room, k - 1);
        let previous = transfer_amounts(source, room, k - 1);
        let next = transfer_amounts(source, room, k);
        assert forall|t: int| 0 <= t <= k - 1 implies amount_sum(next, t) == amount_sum(previous, t) by {
            lemma_amount_sum_prefix(next, previous, t);
        }
    }
}

/// After dissolution, every household still active has somebody in it.
pub proof fn lemma_active_households_are_inhabited(members: Seq<Member>, households: Seq<Household>, tick: u64, i: int)
    requires
        0 <= i < households.len(),
    ensures
        ({
            let after = if left_empty(members, households[i]) {
                Household { dissolved_tick: Some(tick), ..households[i] }
            } else {
                households[i]
            };
            after.dissolved_tick is None ==> referenced(members, after.id)
        }),
{
}

} // verus!
