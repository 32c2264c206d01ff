//! Counting households: how many are active or dissolved, who is housed, what the active
//! ones store, and the totals from which average sizes, ages and lifetimes follow.
use vstd::prelude::*;
use crate::households::{
    find_household, household_active, household_index, households_by_id, member_count, Household, Member,
};
use crate::dependents::is_dependent_age;
use crate::entity::LifeStage;
use crate::inventory::{spec_item_index, spec_total, ItemKind};

verus! {

/// The whole-number household statistics; the averages are the totals divided by the
/// active or dissolved counts.
#[derive(Clone, Copy, Debug, PartialEq, Eq)]
pub struct HouseholdCounts {
    pub total_households: u32,
    pub active_households: u32,
    pub dissolved_households: u32,
    pub housed_entities: u32,
    pub unhoused_entities: u32,
    pub largest_active_household_size: u32,
    pub single_member_households: u32,
    pub households_with_dependents: u32,
    pub active_storage_capacity: u64,
    pub active_storage_used: u64,
    pub active_food_stored: u64,
    pub active_timber_stored: u64,
    pub active_stone_stored: u64,
    pub active_iron_stored: u64,
    pub settled_inheritances: u32,
    pub inheritances_without_heir: u32,
    /// Members of active households, summed.
    pub active_member_total: u64,
    /// Ticks since each active household formed, summed.
    pub active_age_total: u64,
    /// Lifetimes of the dissolved households, summed.
    pub dissolved_lifetime_total: u64,
}

/// The individual belongs to an active household.
pub open spec fn housed(households: Seq<Household>, m: Member) -> bool {
    m.household_id matches Some(h) && household_active(households, h)
}

/// How many of the first `n` individuals are housed.
pub open spec fn housed_count(members: Seq<Member>, households: Seq<Household>, n: int) -> int
    decreases n,
{
    if n <= 0 {
        0
    } else {
        housed_count(members, households, n - 1) + if housed(households, members[n - 1]) { 1int } else { 0 }
    }
}

/// Some infant or child belongs to the household.
pub open spec fn has_dependent(members: Seq<Member>, household_id: u32) -> bool {
    exists|i: int| 0 <= i < members.len() && #[trigger] members[i].household_id == Some(household_id) && is_dependent_age(members[i].age_ticks)
}

/// The per-household tallies over the first households.
pub struct Tally {
    pub active: int,
    pub dissolved: int,
    pub largest: int,
    pub single: int,
    pub with_dependents: int,
    pub capacity: int,
    pub used: int,
    pub food: int,
    pub timber: int,
    pub stone: int,
    pub iron: int,
    pub settled: int,
    pub without_heir: int,
    pub member_total: int,
    pub age_total: int,
    pub lifetime_total: int,
}

pub open spec fn stored(h: Household, kind: ItemKind) -> int {
    h.storage.spec_amounts()[spec_item_index(kind)] as int
}

pub open spec fn elapsed(from: u64, to: u64) -> int {
    if to >= from { to - from } else { 0 }
}

/// Tallies of the first `n` households: active ones count their members, storage and
/// age; dissolved ones their lifetime and inheritance.
pub open spec fn tally(members: Seq<Member>, households: Seq<Household>, tick: u64, n: int) -> Tally
    decreases n,
{
    if n <= 0 {
        Tally {
            active: 0,
            dissolved: 0,
            largest: 0,
            single: 0,
            with_dependents: 0,
            capacity: 0,
            used: 0,
            food: 0,
            timber: 0,
            stone: 0,
            iron: 0,
            settled: 0,
            without_heir: 0,
            member_total: 0,
            age_total: 0,
            lifetime_total: 0,
        }
    } else {
        let t = tally(members, households, tick, n - 1);
        let h = households[n - 1];
        if h.dissolved_tick is None {
            let size = member_count(members, h.id);
            Tally {
                active: t.active + 1,
                largest: if size > t.largest { size } else { t.largest },
                single: t.single + if size == 1 { 1int } else { 0 },
                with_dependents: t.with_dependents + if has_dependent(members, h.id) { 1int } else { 0 },
                capacity: t.capacity + h.storage.spec_capacity(),
                used: t.used + spec_total(h.storage.spec_amounts()),
                food: t.food + stored(h, ItemKind::Food),
                timber: t.timber + stored(h, ItemKind::Timber),
                stone: t.stone + stored(h, ItemKind::Stone),
                iron: t.iron + stored(h, ItemKind::Iron),
                member_total: t.member_total + size,
                age_total: t.age_total + elapsed(h.formed_tick, tick),
                ..t
            }
        } else {
            Tally {
                dissolved: t.dissolved + 1,
                lifetime_total: t.lifetime_total + elapsed(h.formed_tick, h.dissolved_tick.unwrap()),
                settled: t.settled + if h.inheritance is Some { 1int } else { 0 },
                without_heir: t.without_heir + if h.inheritance matches Some(i) && i.heir_id is None { 1int } else { 0 },
                ..t
            }
        }
    }
}

/// The statistics `household_counts` reports.
pub open spec fn spec_counts(members: Seq<Member>, households: Seq<Household>, tick: u64) -> HouseholdCounts {
    let t = tally(members, households, tick, households.len() as int);
    let housed_n = housed_count(members, households, members.len() as int);
    HouseholdCounts {
        total_households: households.len() as u32,
        active_households: t.active as u32,
        dissolved_households: t.dissolved as u32,
        housed_entities: housed_n as u32,
        unhoused_entities: (members.len() - housed_n) as u32,
        largest_active_household_size: t.largest as u32,
        single_member_households: t.single as u32,
        households_with_dependents: t.with_dependents as u32,
        active_storage_capacity: t.capacity as u64,
        active_storage_used: t.used as u64,
        active_food_stored: t.food as u64,
        active_timber_stored: t.timber as u64,
        active_stone_stored: t.stone as u64,
        active_iron_stored: t.iron as u64,
        settled_inheritances: t.settled as u32,
        inheritances_without_heir: t.without_heir as u32,
        active_member_total: t.member_total as u64,
        active_age_total: t.age_total as u64,
        dissolved_lifetime_total: t.lifetime_total as u64,
    }
}

proof fn lemma_tally_props(members: Seq<Member>, households: Seq<Household>, tick: u64, n: int)
    requires
        0 <= n <= households.len(),
    ensures
        ({
            let a = tally(members, households, tick, n);
            &&& 0 <= a.active && 0 <= a.dissolved
            &&& a.active + a.dissolved == n
            &&& 0 <= a.single <= a.active
            &&& 0 <= a.with_dependents <= a.active
            &&& 0 <= a.settled <= a.dissolved
            &&& 0 <= a.without_heir <= a.settled
            &&& 0 <= a.capacity <= 65535 * n
            &&& 0 <= a.used <= 4 * 65535 * n
            &&& 0 <= a.food <= 65535 * n
            &&& 0 <= a.timber <= 65535 * n
            &&& 0 <= a.stone <= 65535 * n
            &&& 0 <= a.iron <= 65535 * n
            &&& 0 <= a.member_total
            &&& 0 <= a.age_total
            &&& 0 <= a.lifetime_total
            &&& 0 <= a.largest <= members.len()
        }),
    decreases n,
{
    if n > 0 {
        lemma_tally_props(members, households, tick, n - 1);
        let h = households[n - 1];
        lemma_member_count_nonneg(members, h.id);
        lemma_storage_bounded(h);
        assert(0 <= stored(h, ItemKind::Food) <= 65535);
        assert(0 <= stored(h, ItemKind::Timber) <= 65535);
        assert(0 <= stored(h, ItemKind::Stone) <= 65535);
        assert(0 <= stored(h, ItemKind::Iron) <= 65535);
        assert(0 <= elapsed(h.formed_tick, tick));
        if h.dissolved_tick is Some {
            assert(0 <= elapsed(h.formed_tick, h.dissolved_tick.unwrap()));
        }
        let a = tally(members, households, tick, n);
        assert(a.active + a.dissolved == n);
        assert(0 <= a.single <= a.active);
        assert(0 <= a.with_dependents <= a.active);
        assert(0 <= a.settled <= a.dissolved);
        assert(0 <= a.without_heir <= a.settled);
        assert(0 <= a.capacity <= 65535 * n);
        let t = tally(members, households, tick, n - 1);
        assert(0 <= t.used <= 262140 * (n - 1));
        assert(0 <= spec_total(h.storage.spec_amounts()) <= 262140);
        assert(a.used <= t.used + 262140);
        assert(0 <= a.used <= 4 * 65535 * n);
        assert(0 <= a.food <= 65535 * n);
        assert(0 <= a.largest <= members.len());
    }
}

proof fn lemma_tally_monotone(members: Seq<Member>, households: Seq<Household>, tick: u64, n: int, m: int)
    requires
        0 <= n <= m <= households.len(),
    ensures
        ({
            let a = tally(members, households, tick, n);
            let b = tally(members, households, tick, m);
            &&& a.capacity <= b.capacity
            &&& a.used <= b.used
            &&& a.food <= b.food
            &&& a.timber <= b.timber
            &&& a.stone <= b.stone
            &&& a.iron <= b.iron
            &&& a.member_total <= b.member_total
            &&& a.age_total <= b.age_total
            &&& a.lifetime_total <= b.lifetime_total
            &&& a.active <= b.active
            &&& a.dissolved <= b.dissolved
        }),
    decreases m - n,
{
    if n < m {
        lemma_tally_monotone(members, households, tick, n, m - 1);
        let h = households[m - 1];
        lemma_member_count_nonneg(members, h.id);
        lemma_storage_bounded(h);
        assert(0 <= stored(h, ItemKind::Food) && 0 <= stored(h, ItemKind::Timber));
        assert(0 <= stored(h, ItemKind::Stone) && 0 <= stored(h, ItemKind::Iron));
        assert(0 <= elapsed(h.formed_tick, tick));
        if h.dissolved_tick is Some {
            assert(0 <= elapsed(h.formed_tick, h.dissolved_tick.unwrap()));
        }
    }
}

proof fn lemma_storage_bounded(h: Household)
    ensures
        h.storage.spec_capacity() <= 65535,
        0 <= spec_total(h.storage.spec_amounts()) <= 65535 * 4,
        forall|k: ItemKind| 0 <= #[trigger] stored(h, k) <= 65535,
{
    h.storage.lemma_one_slot_per_kind();
}

proof fn lemma_member_count_nonneg(members: Seq<Member>, id: u32)
    ensures
        0 <= member_count(members, id) <= members.len(),
    decreases members.len(),
{
    if members.len() > 0 {
        lemma_member_count_nonneg(members.drop_last(), id);
    }
}

proof fn lemma_housed_count_bounds(members: Seq<Member>, households: Seq<Household>, n: int)
    requires
        0 <= n <= members.len(),
    ensures
        0 <= housed_count(members, households, n) <= n,
    decreases n,
{
    if n > 0 {
        lemma_housed_count_bounds(members, households, n - 1);
    }
}

proof fn lemma_member_count_step(members: Seq<Member>, id: u32, j: int)
    requires
        0 <= j < members.len(),
    ensures
        member_count(members.subrange(0, j + 1), id) == member_count(members.subrange(0, j), id) + if members[j].household_id
            == Some(id) {
            1int
        } else {
            0
        },
{
    assert(members.subrange(0, j + 1).drop_last() =~= members.subrange(0, j));
}

/// Members of household `id`, and whether one of them is an infant or a child.
fn household_size(members: &Vec<Member>, id: u32) -> (r: (u32, bool))
    requires
        members@.len() <= u32::MAX,
    ensures
        r.0 == member_count(members@, id),
        r.1 == has_dependent(members@, id),
{
    let mut size: u32 = 0;
    let mut dependent = false;
    let mut j: usize = 0;
    while j < members.len()
        invariant
            j <= members@.len() <= u32::MAX,
            size == member_count(members@.subrange(0, j as int), id),
            dependent == exists|i: int| 0 <= i < j && #[trigger] members@[i].household_id == Some(id) && is_dependent_age(members@[i].age_ticks),
        decreases members@.len() - j,
    {
        proof {
            lemma_member_count_step(members@, id, j as int);
            lemma_member_count_nonneg(members@.subrange(0, j as int), id);
        }
        let m = &members[j];
        let belongs = match m.household_id {
            Some(h) => h == id,
            None => false,
        };
        if belongs {
            size = size + 1;
            if matches!(LifeStage::from_age_ticks(m.age_ticks), LifeStage::Infant | LifeStage::Child) {
                dependent = true;
            }
        }
        j += 1;
    }
    proof {
        assert(members@.subrange(0, members@.len() as int) =~= members@);
    }
    (size, dependent)
}

/// Counts households and their members at `tick` (see `spec_counts`).
pub fn household_counts(members: &Vec<Member>, households: &Vec<Household>, tick: u64) -> (r: HouseholdCounts)
    requires
        households_by_id(households@),
        members@.len() <= u32::MAX,
        households@.len() <= u32::MAX,
        tally(members@, households@, tick, households@.len() as int).member_total <= u64::MAX,
        tally(members@, households@, tick, households@.len() as int).age_total <= u64::MAX,
        tally(members@, households@, tick, households@.len() as int).lifetime_total <= u64::MAX,
    ensures
        r == spec_counts(members@, households@, tick),
{
    let ghost ms = members@;
    let ghost hs = households@;
    let mut housed_n: u32 = 0;
    let mut i: usize = 0;
    while i < members.len()
        invariant
            i <= ms.len() <= u32::MAX,
            ms == members@,
            hs == households@,
            households_by_id(hs),
            housed_n == housed_count(ms, hs, i as int),
        decreases ms.len() - i,
    {
        proof {
            lemma_housed_count_bounds(ms, hs, i as int);
        }
        let is_housed = match members[i].household_id {
            Some(h) => match find_household(households, h) {
                Some(k) => households[k].is_active(),
                None => false,
            },
            None => false,
        };
        if is_housed {
            housed_n = housed_n + 1;
        }
        i += 1;
    }
    proof {
        lemma_housed_count_bounds(ms, hs, ms.len() as int);
        lemma_tally_props(ms, hs, tick, hs.len() as int);
    }
    let mut r = HouseholdCounts {
        total_households: households.len() as u32,
        active_households: 0,
        dissolved_households: 0,
        housed_entities: housed_n,
        unhoused_entities: (members.len() as u32) - housed_n,
        largest_active_household_size: 0,
        single_member_households: 0,
        households_with_dependents: 0,
        active_storage_capacity: 0,
        active_storage_used: 0,
        active_food_stored: 0,
        active_timber_stored: 0,
        active_stone_stored: 0,
        active_iron_stored: 0,
        settled_inheritances: 0,
        inheritances_without_heir: 0,
        active_member_total: 0,
        active_age_total: 0,
        dissolved_lifetime_total: 0,
    };
    let mut k: usize = 0;
    while k < households.len()
        invariant
            k <= hs.len() <= u32::MAX,
            ms.len() <= u32::MAX,
            ms == members@,
            hs == households@,
            tally(ms, hs, tick, hs.len() as int).member_total <= u64::MAX,
            tally(ms, hs, tick, hs.len() as int).age_total <= u64::MAX,
            tally(ms, hs, tick, hs.len() as int).lifetime_total <= u64::MAX,
            r.total_households == hs.len() as u32,
            r.housed_entities == housed_count(ms, hs, ms.len() as int),
            r.unhoused_entities == (ms.len() - housed_count(ms, hs, ms.len() as int)) as u32,
            ({
                let t = tally(ms, hs, tick, k as int);
                &&& r.active_households == t.active
                &&& r.dissolved_households == t.dissolved
                &&& r.largest_active_household_size == t.largest
                &&& r.single_member_households == t.single
                &&& r.households_with_dependents == t.with_dependents
                &&& r.active_storage_capacity == t.capacity
                &&& r.active_storage_used == t.used
                &&& r.active_food_stored == t.food
                &&& r.active_timber_stored == t.timber
                &&& r.active_stone_stored == t.stone
                &&& r.active_iron_stored == t.iron
                &&& r.settled_inheritances == t.settled
                &&& r.inheritances_without_heir == t.without_heir
                &&& r.active_member_total == t.member_total
                &&& r.active_age_total == t.age_total
                &&& r.dissolved_lifetime_total == t.lifetime_total
            }),
        decreases hs.len() - k,
    {
        proof {
            lemma_tally_props(ms, hs, tick, k + 1);
            lemma_tally_monotone(ms, hs, tick, k + 1, hs.len() as int);
            assert(262140 * (k + 1) <= 262140 * 4294967296int) by (nonlinear_arith)
                requires
                    k + 1 <= 4294967296int,
            ;
        }
        let h = &households[k];
        if h.is_active() {
            let (size, dependent) = household_size(members, h.id);
            r.active_households = r.active_households + 1;
            if size > r.largest_active_household_size {
                r.largest_active_household_size = size;
            }
            if size == 1 {
                r.single_member_households = r.single_member_households + 1;
            }
            if dependent {
                r.households_with_dependents = r.households_with_dependents + 1;
            }
            r.active_storage_capacity = r.active_storage_capacity + h.storage.capacity() as u64;
            r.active_storage_used = r.active_storage_used + h.storage.used_capacity() as u64;
            r.active_food_stored = r.active_food_stored + h.storage.amount(ItemKind::Food) as u64;
            r.active_timber_stored = r.active_timber_stored + h.storage.amount(ItemKind::Timber) as u64;
            r.active_stone_stored = r.active_stone_stored + h.storage.amount(ItemKind::Stone) as u64;
            r.active_iron_stored = r.active_iron_stored + h.storage.amount(ItemKind::Iron) as u64;
            r.active_member_total = r.active_member_total + size as u64;
            r.active_age_total = r.active_age_total + tick.saturating_sub(h.formed_tick);
        } else {
            r.dissolved_households = r.dissolved_households + 1;
            let dissolved_tick = match h.dissolved_tick {
                Some(t) => t,
                None => 0,
            };
            r.dissolved_lifetime_total = r.dissolved_lifetime_total + dissolved_tick.saturating_sub(h.formed_tick);
            if let Some(inheritance) = h.inheritance {
                r.settled_inheritances = r.settled_inheritances + 1;
                if inheritance.heir_id.is_none() {
                    r.inheritances_without_heir = r.inheritances_without_heir + 1;
                }
            }
        }
        k += 1;
    }
    r
}

} // verus!
