//! Moving items between two individuals, and between an individual and the storage of
//! the household whose residence they stand on.
use vstd::prelude::*;
use crate::households::{find_household, find_member, household_index, households_by_id, member_index, members_by_id, Household, Member};
use crate::inventory::{spec_item_index, spec_total, Inventory, ItemKind};

verus! {

/// Room left in an inventory.
pub open spec fn room(inventory: Inventory) -> int {
    inventory.spec_capacity() - spec_total(inventory.spec_amounts())
}

/// How much of `kind` the inventory holds.
pub open spec fn held(inventory: Inventory, kind: ItemKind) -> int {
    inventory.spec_amounts()[spec_item_index(kind)] as int
}

pub open spec fn min3(a: int, b: int, c: int) -> int {
    let ab = if a <= b { a } else { b };
    if ab <= c { ab } else { c }
}

/// `after` is `before` with `delta` more of `kind` (less, when negative), same capacity.
pub open spec fn shifted(before: Inventory, after: Inventory, kind: ItemKind, delta: int) -> bool {
    &&& after.spec_capacity() == before.spec_capacity()
    &&& after.spec_amounts() == before.spec_amounts().update(spec_item_index(kind), (held(before, kind) + delta) as u16)
}

/// How much moves from `source_id` to `target_id`: nothing between one individual and
/// itself, for a zero quantity or when either is unknown; otherwise as much of the
/// quantity as the source holds and the target has room for.
pub open spec fn spec_transfer_amount(members: Seq<Member>, source_id: u32, target_id: u32, kind: ItemKind, quantity: u16) -> int {
    if source_id == target_id || quantity == 0 {
        0
    } else {
        match (member_index(members, source_id), member_index(members, target_id)) {
            (Some(s), Some(t)) => min3(quantity as int, held(members[s].inventory, kind), room(members[t].inventory)),
            _ => 0,
        }
    }
}

/// Two inventories change and nothing else.
pub open spec fn only_inventories_changed(before: Seq<Member>, after: Seq<Member>, s: int, t: int) -> bool {
    &&& after.len() == before.len()
    &&& forall|j: int| 0 <= j < before.len() && j != s && j != t ==> #[trigger] after[j] == before[j]
    &&& after[s] == Member { inventory: after[s].inventory, ..before[s] }
    &&& after[t] == Member { inventory: after[t].inventory, ..before[t] }
}

/// Moves as much of `quantity` of `kind` from `source_id` to `target_id` as the source
/// holds and the target can carry; reports how much moved.
pub fn transfer_item(members: &mut Vec<Member>, source_id: u32, target_id: u32, kind: ItemKind, quantity: u16) -> (moved: u16)
    requires
        members_by_id(old(members)@),
    ensures
        moved == spec_transfer_amount(old(members)@, source_id, target_id, kind, quantity),
        moved == 0 ==> final(members)@ == old(members)@,
        moved > 0 ==> {
            let s = member_index(old(members)@, source_id).unwrap();
            let t = member_index(old(members)@, target_id).unwrap();
            &&& only_inventories_changed(old(members)@, final(members)@, s, t)
            &&& shifted(old(members)@[s].inventory, final(members)@[s].inventory, kind, -moved)
            &&& shifted(old(members)@[t].inventory, final(members)@[t].inventory, kind, moved as int)
        },
        source_id != target_id ==> (member_index(old(members)@, source_id) matches Some(s) ==> member_index(
            old(members)@,
            target_id,
        ) matches Some(t) ==> held(final(members)@[s].inventory, kind) + held(final(members)@[t].inventory, kind) == held(
            old(members)@[s].inventory,
            kind,
        ) + held(old(members)@[t].inventory, kind)),
        members_by_id(final(members)@),
{
    if source_id == target_id || quantity == 0 {
        return 0;
    }
    let source_index = match find_member(members, source_id) {
        Some(index) => index,
        None => {
            return 0;
        },
    };
    let target_index = match find_member(members, target_id) {
        Some(index) => index,
        None => {
            return 0;
        },
    };
    let held_now = members[source_index].inventory.amount(kind);
    let space = members[target_index].inventory.remaining_capacity();
    let mut moved = quantity;
    if held_now < moved {
        moved = held_now;
    }
    if space < moved {
        moved = space;
    }
    if moved == 0 {
        return 0;
    }
    let ghost before = members@;
    let mut source = members[source_index].inventory;
    let removed = source.remove(kind, moved);
    members[source_index].inventory = source;
    let mut target = members[target_index].inventory;
    let accepted = target.add(kind, moved);
    members[target_index].inventory = target;
    proof {
        assert(removed == moved && accepted == moved);
        assert(source_index != target_index);
        before[source_index as int].inventory.lemma_one_slot_per_kind();
        before[target_index as int].inventory.lemma_one_slot_per_kind();
        assert(0 <= spec_item_index(kind) < 4);
        assert(held(members@[source_index as int].inventory, kind) == held(before[source_index as int].inventory, kind) - moved);
        assert(held(members@[target_index as int].inventory, kind) == held(before[target_index as int].inventory, kind) + moved);
        assert(members_by_id(members@)) by {
            assert forall|i: int, j: int| 0 <= i < j < members@.len() implies members@[i].id < members@[j].id by {
                assert(members@[i].id == before[i].id && members@[j].id == before[j].id);
            }
        }
    }
    moved
}

/// The individual and household indices for using the storage of `entity_id`'s
/// household: a positive quantity, a listed individual in an active household, standing
/// on its residence.
pub open spec fn spec_storage_access(members: Seq<Member>, households: Seq<Household>, entity_id: u32, quantity: u16) -> Option<
    (int, int),
> {
    if quantity == 0 {
        None
    } else {
        match member_index(members, entity_id) {
            Some(e) => match members[e].household_id {
                Some(h) => match household_index(households, h) {
                    Some(k) => if households[k].dissolved_tick is None && members[e].x == households[k].residence_x
                        && members[e].y == households[k].residence_y {
                        Some((e, k))
                    } else {
                        None
                    },
                    None => None,
                },
                None => None,
            },
            None => None,
        }
    }
}

/// Finds the individual and the household whose storage they may use now.
pub fn household_storage_access(members: &Vec<Member>, households: &Vec<Household>, entity_id: u32, quantity: u16) -> (r:
    Option<(usize, usize)>)
    requires
        members_by_id(members@),
        households_by_id(households@),
    ensures
        r matches Some((e, k)) ==> spec_storage_access(members@, households@, entity_id, quantity) == Some((e as int, k as int)),
        r is None ==> spec_storage_access(members@, households@, entity_id, quantity) is None,
{
    if quantity == 0 {
        return None;
    }
    let entity_index = match find_member(members, entity_id) {
        Some(index) => index,
        None => {
            return None;
        },
    };
    let household_id = match members[entity_index].household_id {
        Some(id) => id,
        None => {
            return None;
        },
    };
    let household_index = match find_household(households, household_id) {
        Some(index) => index,
        None => {
            return None;
        },
    };
    let household = &households[household_index];
    if household.is_active() && members[entity_index].x == household.residence_x && members[entity_index].y
        == household.residence_y {
        Some((entity_index, household_index))
    } else {
        None
    }
}

/// Stores up to `quantity` of `kind` from `entity_id`'s inventory in their household's
/// storage, as much as they hold and the storage has room for, when they may use it;
/// reports how much moved.
pub fn deposit_to_household(
    members: &mut Vec<Member>,
    households: &mut Vec<Household>,
    entity_id: u32,
    kind: ItemKind,
    quantity: u16,
) -> (moved: u16)
    requires
        members_by_id(old(members)@),
        households_by_id(old(households)@),
    ensures
        moved == match spec_storage_access(old(members)@, old(households)@, entity_id, quantity) {
            Some((e, k)) => min3(quantity as int, held(old(members)@[e].inventory, kind), room(old(households)@[k].storage)),
            None => 0,
        },
        moved == 0 ==> final(members)@ == old(members)@ && final(households)@ == old(households)@,
        moved > 0 ==> {
            let (e, k) = spec_storage_access(old(members)@, old(households)@, entity_id, quantity).unwrap();
            &&& final(members)@ == old(members)@.update(e, Member { inventory: final(members)@[e].inventory, ..old(members)@[e] })
            &&& final(households)@ == old(households)@.update(k, Household { storage: final(households)@[k].storage, ..old(households)@[k] })
            &&& shifted(old(members)@[e].inventory, final(members)@[e].inventory, kind, -moved)
            &&& shifted(old(households)@[k].storage, final(households)@[k].storage, kind, moved as int)
        },
        members_by_id(final(members)@),
        households_by_id(final(households)@),
{
    let (entity_index, household_index) = match household_storage_access(members, households, entity_id, quantity) {
        Some(found) => found,
        None => {
            return 0;
        },
    };
    let held_now = members[entity_index].inventory.amount(kind);
    let space = households[household_index].storage.remaining_capacity();
    let mut moved = quantity;
    if held_now < moved {
        moved = held_now;
    }
    if space < moved {
        moved = space;
    }
    if moved == 0 {
        return 0;
    }
    let ghost members_before = members@;
    let ghost households_before = households@;
    let mut carried = members[entity_index].inventory;
    let removed = carried.remove(kind, moved);
    members[entity_index].inventory = carried;
    let mut storage = households[household_index].storage;
    let accepted = storage.add(kind, moved);
    households[household_index].storage = storage;
    proof {
        assert(removed == moved && accepted == moved);
        assert(members@ =~= members_before.update(entity_index as int, Member { inventory: carried, ..members_before[entity_index as int] }));
        assert(households@ =~= households_before.update(household_index as int, Household { storage, ..households_before[household_index as int] }));
        assert forall|i: int, j: int| 0 <= i < j < members@.len() implies members@[i].id < members@[j].id by {
            assert(members@[i].id == members_before[i].id && members@[j].id == members_before[j].id);
        }
        assert forall|i: int, j: int| 0 <= i < j < households@.len() implies households@[i].id < households@[j].id by {
            assert(households@[i].id == households_before[i].id && households@[j].id == households_before[j].id);
        }
    }
    moved
}

/// Takes up to `quantity` of `kind` from the storage of `entity_id`'s household into
/// their inventory, as much as the storage holds and they have room for, when they may
/// use it; reports how much moved.
pub fn withdraw_from_household(
    members: &mut Vec<Member>,
    households: &mut Vec<Household>,
    entity_id: u32,
    kind: ItemKind,
    quantity: u16,
) -> (moved: u16)
    requires
        members_by_id(old(members)@),
        households_by_id(old(households)@),
    ensures
        moved == match spec_storage_access(old(members)@, old(households)@, entity_id, quantity) {
            Some((e, k)) => min3(quantity as int, held(old(households)@[k].storage, kind), room(old(members)@[e].inventory)),
            None => 0,
        },
        moved == 0 ==> final(members)@ == old(members)@ && final(households)@ == old(households)@,
        moved > 0 ==> {
            let (e, k) = spec_storage_access(old(members)@, old(households)@, entity_id, quantity).unwrap();
            &&& final(members)@ == old(members)@.update(e, Member { inventory: final(members)@[e].inventory, ..old(members)@[e] })
            &&& final(households)@ == old(households)@.update(k, Household { storage: final(households)@[k].storage, ..old(households)@[k] })
            &&& shifted(old(members)@[e].inventory, final(members)@[e].inventory, kind, moved as int)
            &&& shifted(old(households)@[k].storage, final(households)@[k].storage, kind, -moved)
        },
        members_by_id(final(members)@),
        households_by_id(final(households)@),
{
    let (entity_index, household_index) = match household_storage_access(members, households, entity_id, quantity) {
        Some(found) => found,
        None => {
            return 0;
        },
    };
    let stored = households[household_index].storage.amount(kind);
    let space = members[entity_index].inventory.remaining_capacity();
    let mut moved = quantity;
    if stored < moved {
        moved = stored;
    }
    if space < moved {
        moved = space;
    }
    if moved == 0 {
        return 0;
    }
    let ghost members_before = members@;
    let ghost households_before = households@;
    let mut storage = households[household_index].storage;
    let removed = storage.remove(kind, moved);
    households[household_index].storage = storage;
    let mut carried = members[entity_index].inventory;
    let accepted = carried.add(kind, moved);
    members[entity_index].inventory = carried;
    proof {
        assert(removed == moved && accepted == moved);
        assert(members@ =~= members_before.update(entity_index as int, Member { inventory: carried, ..members_before[entity_index as int] }));
        assert(households@ =~= households_before.update(household_index as int, Household { storage, ..households_before[household_index as int] }));
        assert forall|i: int, j: int| 0 <= i < j < members@.len() implies members@[i].id < members@[j].id by {
            assert(members@[i].id == members_before[i].id && members@[j].id == members_before[j].id);
        }
        assert forall|i: int, j: int| 0 <= i < j < households@.len() implies households@[i].id < households@[j].id by {
            assert(households@[i].id == households_before[i].id && households@[j].id == households_before[j].id);
        }
    }
    moved
}

} // verus!
