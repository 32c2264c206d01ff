//! The world side of acting on a deposit: eating from it and gathering from it.
use vstd::prelude::*;
use crate::inventory::{spec_item_index, Inventory, ItemKind};
use crate::mind::{
    first_resource_at, resource_matches, same_outlook, spec_forget, KnownResource, Memory, Mind, GATHER_AMOUNT,
};
use crate::world::{spec_index, wide_index, Grid, ResourceDeposit, ResourceKind};

verus! {

/// Units of food one meal takes.
pub const FOOD_CONSUMED_PER_MEAL: u16 = 10;

/// The inventory slot that holds a resource once gathered.
pub open spec fn spec_item_kind(kind: ResourceKind) -> ItemKind {
    match kind {
        ResourceKind::Food => ItemKind::Food,
        ResourceKind::Timber => ItemKind::Timber,
        ResourceKind::Stone => ItemKind::Stone,
        ResourceKind::Iron => ItemKind::Iron,
    }
}

pub fn item_kind(kind: ResourceKind) -> (r: ItemKind)
    ensures
        r == spec_item_kind(kind),
{
    match kind {
        ResourceKind::Food => ItemKind::Food,
        ResourceKind::Timber => ItemKind::Timber,
        ResourceKind::Stone => ItemKind::Stone,
        ResourceKind::Iron => ItemKind::Iron,
    }
}

/// The deposit slot under `(x, y)`, when the slot exists.
pub open spec fn slot_at(world: Grid, x: u32, y: u32) -> Option<Option<ResourceDeposit>> {
    let index = spec_index(world.width as int, x as int, y as int);
    if index < world.resources@.len() {
        Some(world.resources@[index])
    } else {
        None
    }
}

/// How much of a deposit of `kind` under `(x, y)` a take of up to `limit` units removes.
pub open spec fn spec_taken(world: Grid, x: u32, y: u32, kind: ResourceKind, limit: u16) -> u16 {
    match slot_at(world, x, y) {
        Some(Some(deposit)) => if deposit.kind == kind {
            if deposit.amount <= limit { deposit.amount } else { limit }
        } else {
            0
        },
        _ => 0,
    }
}

/// The deposits after a take of up to `limit` units of `kind` from the slot under
/// `(x, y)`: a matching deposit shrinks by what was taken and disappears once empty; no
/// other slot changes.
pub open spec fn spec_after_take(world: Grid, x: u32, y: u32, kind: ResourceKind, limit: u16) -> Seq<
    Option<ResourceDeposit>,
> {
    let index = spec_index(world.width as int, x as int, y as int);
    match slot_at(world, x, y) {
        Some(Some(deposit)) => if deposit.kind == kind {
            let left = (deposit.amount - spec_taken(world, x, y, kind, limit)) as u16;
            world.resources@.update(
                index,
                if left == 0 { None } else { Some(ResourceDeposit { amount: left, ..deposit }) },
            )
        } else {
            world.resources@
        },
        _ => world.resources@,
    }
}

/// Units held by a deposit slot; an empty slot holds none.
pub open spec fn slot_amount(slot: Option<ResourceDeposit>) -> int {
    match slot {
        Some(deposit) => deposit.amount as int,
        None => 0,
    }
}

/// A take hands out exactly the units the deposit loses, never more than the limit, and
/// leaves every other slot alone: the same units cannot be taken twice.
pub proof fn lemma_take_conserves(world: Grid, x: u32, y: u32, kind: ResourceKind, limit: u16)
    requires
        slot_at(world, x, y) is Some,
    ensures
        ({
            let index = spec_index(world.width as int, x as int, y as int);
            let after = spec_after_take(world, x, y, kind, limit);
            &&& after.len() == world.resources@.len()
            &&& slot_amount(after[index]) + spec_taken(world, x, y, kind, limit) == slot_amount(world.resources@[index])
            &&& spec_taken(world, x, y, kind, limit) <= limit
            &&& forall|j: int| 0 <= j < after.len() && j != index ==> after[j] == world.resources@[j]
        }),
{
}

/// Removes up to `limit` units from a deposit of `kind` under `(x, y)` and reports how
/// many; an empty deposit is removed from the world.
fn take_from_deposit(world: &mut Grid, x: u32, y: u32, kind: ResourceKind, limit: u16) -> (taken: u16)
    requires
        limit > 0,
    ensures
        taken == spec_taken(*old(world), x, y, kind, limit),
        final(world).resources@ == spec_after_take(*old(world), x, y, kind, limit),
        final(world).width == old(world).width,
        final(world).height == old(world).height,
        final(world).tiles@ == old(world).tiles@,
        final(world).region_ids@ == old(world).region_ids@,
        final(world).regions@ == old(world).regions@,
        final(world).renewable_resources@ == old(world).renewable_resources@,
{
    let index = wide_index(world.width, x, y);
    if index >= world.resources.len() as u64 {
        return 0;
    }
    let i = index as usize;
    let slot = world.resources[i];
    match slot {
        None => 0,
        Some(deposit) => {
            if deposit.kind != kind {
                return 0;
            }
            let taken = if deposit.amount <= limit { deposit.amount } else { limit };
            let left = deposit.amount - taken;
            let replacement = if left == 0 {
                None
            } else {
                Some(ResourceDeposit { kind: deposit.kind, amount: left })
            };
            world.resources.set(i, replacement);
            taken
        },
    }
}

/// Eats from the food deposit under `(x, y)`: up to one meal, fewer when less is left.
/// The caller lowers hunger in proportion to the amount returned.
pub fn consume_food(world: &mut Grid, x: u32, y: u32) -> (consumed: u16)
    ensures
        consumed == spec_taken(*old(world), x, y, ResourceKind::Food, FOOD_CONSUMED_PER_MEAL),
        final(world).resources@ == spec_after_take(*old(world), x, y, ResourceKind::Food, FOOD_CONSUMED_PER_MEAL),
        final(world).width == old(world).width,
        final(world).height == old(world).height,
        final(world).tiles@ == old(world).tiles@,
        final(world).region_ids@ == old(world).region_ids@,
        final(world).regions@ == old(world).regions@,
        final(world).renewable_resources@ == old(world).renewable_resources@,
{
    take_from_deposit(world, x, y, ResourceKind::Food, FOOD_CONSUMED_PER_MEAL)
}

/// Gathers from the deposit of `kind` under `position`: up to `GATHER_AMOUNT` units, no
/// more than the deposit holds or the inventory has room for. The units move into the
/// inventory and the gatherer's memory of the deposit is refreshed with what is left
/// (forgotten once it is empty).
pub fn gather_resource(
    position: (u32, u32),
    inventory: &mut Inventory,
    memory: &mut Memory,
    world: &mut Grid,
    kind: ResourceKind,
    tick: u64,
) -> (gathered: u16)
    ensures
        ({
            let room = old(inventory).spec_capacity() - crate::inventory::spec_total(old(inventory).spec_amounts());
            let limit = (if GATHER_AMOUNT <= room { GATHER_AMOUNT as int } else { room }) as u16;
            let reached = slot_at(*old(world), position.0, position.1) matches Some(Some(deposit)) && deposit.kind
                == kind && room > 0;
            let left = (slot_at(*old(world), position.0, position.1).unwrap().unwrap().amount - gathered) as u16;
            &&& reached ==> gathered == spec_taken(*old(world), position.0, position.1, kind, limit)
            &&& reached ==> final(world).resources@ == spec_after_take(*old(world), position.0, position.1, kind, limit)
            &&& !reached ==> gathered == 0 && final(world).resources@ == old(world).resources@
            &&& !reached ==> *final(memory) == *old(memory)
            &&& reached ==> final(memory).known_entities@ == old(memory).known_entities@
                && final(memory).known_chunks@ == old(memory).known_chunks@
                && final(memory).failed_exploration@ == old(memory).failed_exploration@
            &&& reached && left == 0 ==> final(memory).known_resources@ == spec_forget(
                old(memory).known_resources@,
                position,
                kind,
            )
            &&& reached && left != 0 ==> forall|k: int| #[trigger] first_resource_at(old(memory).known_resources@, position, Some(kind), k)
                ==> final(memory).known_resources@ == old(memory).known_resources@.update(
                k,
                KnownResource {
                    estimated_amount: left,
                    last_seen_tick: tick,
                    failed_attempts: 0,
                    avoid_until_tick: 0,
                    ..old(memory).known_resources@[k]
                },
            )
            &&& reached && left != 0 && (forall|i: int| 0 <= i < old(memory).known_resources@.len()
                ==> !#[trigger] resource_matches(old(memory).known_resources@[i], position, Some(kind)))
                ==> final(memory).known_resources@ == old(memory).known_resources@
        }),
        final(world).width == old(world).width,
        final(world).height == old(world).height,
        final(world).tiles@ == old(world).tiles@,
        final(world).region_ids@ == old(world).region_ids@,
        final(world).regions@ == old(world).regions@,
        final(world).renewable_resources@ == old(world).renewable_resources@,
        final(inventory).spec_capacity() == old(inventory).spec_capacity(),
        gathered == 0 ==> final(inventory).spec_amounts() == old(inventory).spec_amounts(),
        gathered > 0 ==> final(inventory).spec_amounts() == old(inventory).spec_amounts().update(
            spec_item_index(spec_item_kind(kind)),
            (old(inventory).spec_amounts()[spec_item_index(spec_item_kind(kind))] + gathered) as u16,
        ),
{
    let index = wide_index(world.width, position.0, position.1);
    if index >= world.resources.len() as u64 {
        return 0;
    }
    let slot = world.resources[index as usize];
    let deposit = match slot {
        None => {
            return 0;
        },
        Some(deposit) => deposit,
    };
    if deposit.kind != kind {
        return 0;
    }
    let available_space = inventory.remaining_capacity();
    if available_space == 0 {
        return 0;
    }
    let limit = if GATHER_AMOUNT <= available_space { GATHER_AMOUNT } else { available_space };
    let gathered = take_from_deposit(world, position.0, position.1, kind, limit);
    let accepted = inventory.add(item_kind(kind), gathered);
    assert(accepted == gathered);
    proof {
        if gathered == 0 {
            old(inventory).lemma_one_slot_per_kind();
            assert(inventory.spec_amounts() =~= old(inventory).spec_amounts());
        }
    }
    let left = deposit.amount - gathered;
    memory.update_known_amount(position, kind, left, tick);
    gathered
}

/// A turn of eating: up to one meal of `kind` leaves the inventory, fewer when less is
/// held, and the plan moves on. The caller lowers hunger in proportion to the amount
/// returned.
pub fn consume_turn(mind: &mut Mind, inventory: &mut Inventory, kind: ResourceKind) -> (consumed: u16)
    ensures
        ({
            let slot = spec_item_index(spec_item_kind(kind));
            let held = old(inventory).spec_amounts()[slot];
            &&& consumed == if FOOD_CONSUMED_PER_MEAL <= held { FOOD_CONSUMED_PER_MEAL } else { held }
            &&& final(inventory).spec_amounts() == old(inventory).spec_amounts().update(slot, (held - consumed) as u16)
        }),
        final(inventory).spec_capacity() == old(inventory).spec_capacity(),
        final(mind).current_goal == old(mind).current_goal,
        final(mind).current_plan@ == old(mind).current_plan@,
        final(mind).plan_index == if old(mind).plan_index == usize::MAX {
            usize::MAX
        } else {
            (old(mind).plan_index + 1) as usize
        },
        same_outlook(*old(mind), *final(mind)),
{
    let consumed = inventory.remove(item_kind(kind), FOOD_CONSUMED_PER_MEAL);
    mind.advance_action();
    consumed
}

} // verus!
