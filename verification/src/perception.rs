//! Local perception: what an individual sees around it, and how its memory of deposits,
//! places and other individuals follows what it sees.
use vstd::prelude::*;
use crate::mind::{ids_sorted, spec_chunk_index, spec_manhattan, KnownEntity, KnownResource, Memory, Mind, KNOWLEDGE_CHUNK_SIZE, NEUTRAL_AFFINITY};
use crate::world::{spec_resource_code, Grid, ResourceKind};
use crate::spatial::{spatial_candidates, SpatialGrid};

verus! {

/// Deposits not seen for this many ticks are forgotten.
pub const RESOURCE_MEMORY_TTL: u64 = 2_000;

/// A deposit an individual saw for the first time.
#[derive(Clone, Copy, Debug, PartialEq, Eq)]
pub struct ResourceDiscovery {
    pub entity_id: u32,
    pub x: u32,
    pub y: u32,
    pub kind: ResourceKind,
    pub amount: u16,
}

/// The order in which deposits are remembered: by row, then column, then kind.
pub open spec fn resource_key(known: KnownResource) -> (u32, u32, u8) {
    (known.y, known.x, spec_resource_code(known.kind))
}

pub open spec fn key_lt(a: (u32, u32, u8), b: (u32, u32, u8)) -> bool {
    a.0 < b.0 || (a.0 == b.0 && (a.1 < b.1 || (a.1 == b.1 && a.2 < b.2)))
}

/// Remembered deposits in strictly increasing key order.
pub open spec fn resources_sorted(known: Seq<KnownResource>) -> bool {
    forall|i: int, j: int| 0 <= i < j < known.len() ==> key_lt(resource_key(known[i]), resource_key(known[j]))
}

/// How many remembered deposits come before `key`.
pub open spec fn count_before(known: Seq<KnownResource>, key: (u32, u32, u8)) -> int
    decreases known.len(),
{
    if known.len() == 0 {
        0
    } else {
        count_before(known.drop_last(), key) + if key_lt(resource_key(known.last()), key) {
            1int
        } else {
            0
        }
    }
}

/// The memory of a deposit at `(x, y)` of `kind`.
pub open spec fn same_deposit(known: KnownResource, x: u32, y: u32, kind: ResourceKind) -> bool {
    known.x == x && known.y == y && known.kind == kind
}

/// Memory after seeing `amount` units of `kind` at `(x, y)`: a known deposit is
/// refreshed (no longer failed or avoided); a new one is added in key order.
pub open spec fn spec_remember_resource(
    known: Seq<KnownResource>,
    x: u32,
    y: u32,
    kind: ResourceKind,
    amount: u16,
    tick: u64,
) -> Seq<KnownResource> {
    let fresh = KnownResource {
        x,
        y,
        kind,
        last_seen_tick: tick,
        estimated_amount: amount,
        failed_attempts: 0,
        avoid_until_tick: 0,
    };
    if exists|i: int| 0 <= i < known.len() && same_deposit(#[trigger] known[i], x, y, kind) {
        let i = choose|i: int| 0 <= i < known.len() && same_deposit(#[trigger] known[i], x, y, kind);
        known.update(
            i,
            KnownResource { last_seen_tick: tick, estimated_amount: amount, failed_attempts: 0, avoid_until_tick: 0, ..known[i] },
        )
    } else {
        known.insert(count_before(known, resource_key(fresh)), fresh)
    }
}

proof fn lemma_key_order(a: KnownResource, b: KnownResource)
    ensures
        key_lt(resource_key(a), resource_key(b)) || key_lt(resource_key(b), resource_key(a)) || resource_key(a)
            == resource_key(b),
        resource_key(a) == resource_key(b) ==> a.x == b.x && a.y == b.y && a.kind == b.kind,
        !(key_lt(resource_key(a), resource_key(b)) && key_lt(resource_key(b), resource_key(a))),
{
}

proof fn lemma_key_lt_trans(a: (u32, u32, u8), b: (u32, u32, u8), c: (u32, u32, u8))
    requires
        key_lt(a, b),
        key_lt(b, c),
    ensures
        key_lt(a, c),
{
}

/// In a sorted memory, the deposits before position `p` are exactly those keyed below
/// `key`.
proof fn lemma_count_before(known: Seq<KnownResource>, key: (u32, u32, u8), p: int)
    requires
        resources_sorted(known),
        0 <= p <= known.len(),
        forall|j: int| 0 <= j < p ==> key_lt(resource_key(#[trigger] known[j]), key),
        forall|j: int| p <= j < known.len() ==> !key_lt(resource_key(#[trigger] known[j]), key),
    ensures
        count_before(known, key) == p,
    decreases known.len(),
{
    if known.len() > 0 {
        let rest = known.drop_last();
        if p == known.len() {
            lemma_count_before(rest, key, p - 1);
        } else {
            lemma_count_before(rest, key, p);
        }
    }
}

/// Records a sighting of `amount` units of `kind` at `(x, y)`; reports whether the
/// deposit was new to this memory.
pub fn remember_resource(memory: &mut Memory, x: u32, y: u32, kind: ResourceKind, amount: u16, tick: u64) -> (inserted: bool)
    requires
        resources_sorted(old(memory).known_resources@),
    ensures
        resources_sorted(final(memory).known_resources@),
        inserted == !exists|i: int|
            0 <= i < old(memory).known_resources@.len() && same_deposit(#[trigger] old(memory).known_resources@[i], x, y, kind),
        final(memory).known_resources@ == spec_remember_resource(old(memory).known_resources@, x, y, kind, amount, tick),
        final(memory).known_entities@ == old(memory).known_entities@,
        final(memory).known_chunks@ == old(memory).known_chunks@,
        final(memory).failed_exploration@ == old(memory).failed_exploration@,
{
    let ghost known = memory.known_resources@;
    let fresh = KnownResource {
        x,
        y,
        kind,
        last_seen_tick: tick,
        estimated_amount: amount,
        failed_attempts: 0,
        avoid_until_tick: 0,
    };
    let code = kind.code();
    let mut lo: usize = 0;
    let mut hi: usize = memory.known_resources.len();
    while lo < hi
        invariant
            known == memory.known_resources@,
            known == old(memory).known_resources@,
            memory.known_entities@ == old(memory).known_entities@,
            memory.known_chunks@ == old(memory).known_chunks@,
            memory.failed_exploration@ == old(memory).failed_exploration@,
            resources_sorted(known),
            0 <= lo <= hi <= known.len(),
            code == spec_resource_code(kind),
            fresh.x == x && fresh.y == y && fresh.kind == kind,
            forall|j: int| 0 <= j < lo ==> key_lt(resource_key(#[trigger] known[j]), resource_key(fresh)),
            forall|j: int| hi <= j < known.len() ==> key_lt(resource_key(fresh), resource_key(#[trigger] known[j])),
        decreases hi - lo,
    {
        let mid = lo + (hi - lo) / 2;
        let probe = memory.known_resources[mid];
        let probe_code = probe.kind.code();
        let less = probe.y < y || (probe.y == y && (probe.x < x || (probe.x == x && probe_code < code)));
        let equal = probe.y == y && probe.x == x && probe_code == code;
        if equal {
            proof {
                assert(probe == known[mid as int]);
                assert(probe.kind == kind);
                assert(same_deposit(known[mid as int], x, y, kind));
                assert forall|i: int| 0 <= i < known.len() && same_deposit(#[trigger] known[i], x, y, kind) implies i == mid by {
                    if i < mid {
                        assert(key_lt(resource_key(known[i]), resource_key(known[mid as int])));
                    } else if i > mid {
                        assert(key_lt(resource_key(known[mid as int]), resource_key(known[i])));
                    }
                }
            }
            let mut updated = probe;
            updated.last_seen_tick = tick;
            updated.estimated_amount = amount;
            updated.failed_attempts = 0;
            updated.avoid_until_tick = 0;
            memory.known_resources.set(mid, updated);
            proof {
                assert forall|a: int, b: int| 0 <= a < b < memory.known_resources@.len() implies key_lt(
                    resource_key(memory.known_resources@[a]),
                    resource_key(memory.known_resources@[b]),
                ) by {
                    assert(resource_key(memory.known_resources@[a]) == resource_key(known[a]));
                    assert(resource_key(memory.known_resources@[b]) == resource_key(known[b]));
                }
            }
            return false;
        } else if less {
            proof {
                assert(probe == known[mid as int]);
                assert(key_lt(resource_key(known[mid as int]), resource_key(fresh)));
                assert forall|j: int| 0 <= j < mid + 1 implies key_lt(resource_key(#[trigger] known[j]), resource_key(fresh)) by {
                    if j < mid {
                        assert(key_lt(resource_key(known[j]), resource_key(known[mid as int])));
                        lemma_key_lt_trans(resource_key(known[j]), resource_key(known[mid as int]), resource_key(fresh));
                    }
                }
            }
            lo = mid + 1;
        } else {
            proof {
                assert(probe == known[mid as int]);
                lemma_key_order(probe, fresh);
                assert(key_lt(resource_key(fresh), resource_key(known[mid as int])));
                assert forall|j: int| mid <= j < known.len() implies key_lt(resource_key(fresh), resource_key(#[trigger] known[j])) by {
                    if j > mid {
                        assert(key_lt(resource_key(known[mid as int]), resource_key(known[j])));
                        lemma_key_lt_trans(resource_key(fresh), resource_key(known[mid as int]), resource_key(known[j]));
                    }
                }
            }
            hi = mid;
        }
    }
    proof {
        assert forall|i: int| 0 <= i < known.len() implies !same_deposit(#[trigger] known[i], x, y, kind) by {
            lemma_key_order(known[i], fresh);
        }
        assert forall|j: int| lo <= j < known.len() implies !key_lt(resource_key(#[trigger] known[j]), resource_key(fresh)) by {
            lemma_key_order(known[j], fresh);
        }
        lemma_count_before(known, resource_key(fresh), lo as int);
    }
    memory.known_resources.insert(lo, fresh);
    proof {
        let after = memory.known_resources@;
        assert(after == known.insert(lo as int, fresh));
        assert forall|a: int, b: int| 0 <= a < b < after.len() implies key_lt(resource_key(after[a]), resource_key(after[b])) by {
            if b < lo {
                assert(after[a] == known[a] && after[b] == known[b]);
            } else if b == lo {
                assert(after[a] == known[a]);
            } else if a < lo {
                assert(after[a] == known[a] && after[b] == known[b - 1]);
            } else if a == lo {
                assert(after[b] == known[b - 1]);
            } else {
                assert(after[a] == known[a - 1] && after[b] == known[b - 1]);
            }
        }
    }
    true
}

/// Where another individual was seen.
#[derive(Clone, Copy, Debug, PartialEq, Eq, Structural)]
pub struct EntityPosition {
    pub id: u32,
    pub x: u32,
    pub y: u32,
}

/// How many acquaintances have an id below `id`.
pub open spec fn count_ids_before(known: Seq<KnownEntity>, id: u32) -> int
    decreases known.len(),
{
    if known.len() == 0 {
        0
    } else {
        count_ids_before(known.drop_last(), id) + if known.last().id < id {
            1int
        } else {
            0
        }
    }
}

/// Memory after seeing `other` at `tick`: a known individual's sighting is refreshed,
/// counted and any seek cooldown cleared, its affinity kept; a stranger is added in id
/// order with neutral affinity.
pub open spec fn spec_remember_entity(known: Seq<KnownEntity>, other: EntityPosition, tick: u64) -> Seq<KnownEntity> {
    if exists|i: int| 0 <= i < known.len() && (#[trigger] known[i]).id == other.id {
        let i = choose|i: int| 0 <= i < known.len() && (#[trigger] known[i]).id == other.id;
        known.update(
            i,
            KnownEntity {
                last_seen_tick: tick,
                last_seen_x: other.x,
                last_seen_y: other.y,
                observed_ticks: if known[i].observed_ticks == u32::MAX {
                    u32::MAX
                } else {
                    (known[i].observed_ticks + 1) as u32
                },
                seek_retry_after_tick: None,
                ..known[i]
            },
        )
    } else {
        known.insert(
            count_ids_before(known, other.id),
            KnownEntity {
                id: other.id,
                first_seen_tick: tick,
                last_seen_tick: tick,
                last_seen_x: other.x,
                last_seen_y: other.y,
                observed_ticks: 1,
                affinity: NEUTRAL_AFFINITY,
                last_interaction_tick: 0,
                interaction_count: 0,
                seek_retry_after_tick: None,
            },
        )
    }
}

proof fn lemma_count_ids_before(known: Seq<KnownEntity>, id: u32, p: int)
    requires
        ids_sorted(known),
        0 <= p <= known.len(),
        forall|j: int| 0 <= j < p ==> (#[trigger] known[j]).id < id,
        forall|j: int| p <= j < known.len() ==> (#[trigger] known[j]).id >= id,
    ensures
        count_ids_before(known, id) == p,
    decreases known.len(),
{
    if known.len() > 0 {
        let rest = known.drop_last();
        if p == known.len() {
            lemma_count_ids_before(rest, id, p - 1);
        } else {
            lemma_count_ids_before(rest, id, p);
        }
    }
}

/// Records a sighting of `other`; reports whether it was a stranger.
pub fn remember_entity(memory: &mut Memory, other: EntityPosition, tick: u64) -> (inserted: bool)
    requires
        ids_sorted(old(memory).known_entities@),
    ensures
        ids_sorted(final(memory).known_entities@),
        inserted == !exists|i: int| 0 <= i < old(memory).known_entities@.len() && (#[trigger] old(memory).known_entities@[i]).id == other.id,
        final(memory).known_entities@ == spec_remember_entity(old(memory).known_entities@, other, tick),
        final(memory).known_resources@ == old(memory).known_resources@,
        final(memory).known_chunks@ == old(memory).known_chunks@,
        final(memory).failed_exploration@ == old(memory).failed_exploration@,
{
    let ghost known = memory.known_entities@;
    let mut lo: usize = 0;
    let mut hi: usize = memory.known_entities.len();
    while lo < hi
        invariant
            known == memory.known_entities@,
            known == old(memory).known_entities@,
            memory.known_resources@ == old(memory).known_resources@,
            memory.known_chunks@ == old(memory).known_chunks@,
            memory.failed_exploration@ == old(memory).failed_exploration@,
            ids_sorted(known),
            0 <= lo <= hi <= known.len(),
            forall|j: int| 0 <= j < lo ==> (#[trigger] known[j]).id < other.id,
            forall|j: int| hi <= j < known.len() ==> (#[trigger] known[j]).id > other.id,
        decreases hi - lo,
    {
        let mid = lo + (hi - lo) / 2;
        let probe = memory.known_entities[mid];
        if probe.id == other.id {
            proof {
                assert(probe == known[mid as int]);
                assert forall|i: int| 0 <= i < known.len() && (#[trigger] known[i]).id == other.id implies i == mid by {
                    if i < mid {
                        assert(known[i].id < known[mid as int].id);
                    } else if i > mid {
                        assert(known[mid as int].id < known[i].id);
                    }
                }
            }
            let mut updated = probe;
            updated.last_seen_tick = tick;
            updated.last_seen_x = other.x;
            updated.last_seen_y = other.y;
            updated.observed_ticks = updated.observed_ticks.saturating_add(1);
            updated.clear_seek_cooldown();
            memory.known_entities.set(mid, updated);
            proof {
                assert forall|a: int, b: int| 0 <= a < b < memory.known_entities@.len() implies memory.known_entities@[a].id
                    < memory.known_entities@[b].id by {
                    assert(memory.known_entities@[a].id == known[a].id);
                    assert(memory.known_entities@[b].id == known[b].id);
                }
            }
            return false;
        } else if probe.id < other.id {
            proof {
                assert(probe == known[mid as int]);
                assert forall|j: int| 0 <= j < mid + 1 implies (#[trigger] known[j]).id < other.id by {
                    if j < mid {
                        assert(known[j].id < known[mid as int].id);
                    }
                }
            }
            lo = mid + 1;
        } else {
            proof {
                assert(probe == known[mid as int]);
                assert forall|j: int| mid <= j < known.len() implies (#[trigger] known[j]).id > other.id by {
                    if j > mid {
                        assert(known[mid as int].id < known[j].id);
                    }
                }
            }
            hi = mid;
        }
    }
    let fresh = KnownEntity {
        id: other.id,
        first_seen_tick: tick,
        last_seen_tick: tick,
        last_seen_x: other.x,
        last_seen_y: other.y,
        observed_ticks: 1,
        affinity: NEUTRAL_AFFINITY,
        last_interaction_tick: 0,
        interaction_count: 0,
        seek_retry_after_tick: None,
    };
    proof {
        lemma_count_ids_before(known, other.id, lo as int);
    }
    memory.known_entities.insert(lo, fresh);
    proof {
        let after = memory.known_entities@;
        assert forall|a: int, b: int| 0 <= a < b < after.len() implies after[a].id < after[b].id by {
            if b < lo {
                assert(after[a] == known[a] && after[b] == known[b]);
            } else if b == lo {
                assert(after[a] == known[a]);
            } else if a < lo {
                assert(after[a] == known[a] && after[b] == known[b - 1]);
            } else if a == lo {
                assert(after[b] == known[b - 1]);
            } else {
                assert(after[a] == known[a - 1] && after[b] == known[b - 1]);
            }
        }
    }
    true
}

/// The deposit was seen recently enough to be remembered.
pub open spec fn still_fresh(known: KnownResource, tick: u64) -> bool {
    (if tick >= known.last_seen_tick { tick - known.last_seen_tick } else { 0 }) <= RESOURCE_MEMORY_TTL
}

/// The remembered deposit lies in view of `position`, and the world shows nothing there.
pub open spec fn seen_depleted(known: KnownResource, world: Grid, position: (u32, u32), radius: u32) -> bool {
    let min_y = if position.1 >= radius { position.1 - radius } else { 0 };
    let top = if world.height >= 1 { world.height - 1 } else { 0 };
    let max_y = if position.1 + radius <= top { position.1 + radius } else { top };
    let index = known.y * world.width + known.x;
    &&& min_y <= known.y <= max_y
    &&& spec_manhattan(position, (known.x, known.y)) <= radius
    &&& (index >= world.resources@.len() || world.resources@[index] is None)
}

/// The memories a reconciliation keeps, in order.
pub open spec fn reconciled(known: Seq<KnownResource>, world: Grid, position: (u32, u32), radius: u32, tick: u64) -> Seq<
    KnownResource,
>
    decreases known.len(),
{
    if known.len() == 0 {
        Seq::empty()
    } else {
        let rest = reconciled(known.drop_last(), world, position, radius, tick);
        let last = known.last();
        if still_fresh(last, tick) && !seen_depleted(last, world, position, radius) {
            rest.push(last)
        } else {
            rest
        }
    }
}

proof fn lemma_reconciled_subsequence(known: Seq<KnownResource>, world: Grid, position: (u32, u32), radius: u32, tick: u64)
    requires
        resources_sorted(known),
    ensures
        resources_sorted(reconciled(known, world, position, radius, tick)),
        forall|j: int|
            0 <= j < reconciled(known, world, position, radius, tick).len() ==> known.contains(
                #[trigger] reconciled(known, world, position, radius, tick)[j],
            ),
    decreases known.len(),
{
    if known.len() > 0 {
        let rest = known.drop_last();
        lemma_reconciled_subsequence(rest, world, position, radius, tick);
        let r = reconciled(rest, world, position, radius, tick);
        assert forall|j: int| 0 <= j < r.len() implies known.contains(#[trigger] r[j]) by {
            assert(rest.contains(r[j]));
            let k = choose|k: int| 0 <= k < rest.len() && rest[k] == r[j];
            assert(known[k] == r[j]);
        }
        assert forall|j: int| 0 <= j < r.len() implies key_lt(resource_key(#[trigger] r[j]), resource_key(known.last())) by {
            assert(rest.contains(r[j]));
            let k = choose|k: int| 0 <= k < rest.len() && rest[k] == r[j];
            assert(known[k] == r[j]);
        }
        let last = known.last();
        if still_fresh(last, tick) && !seen_depleted(last, world, position, radius) {
            let next = r.push(last);
            assert forall|j: int| 0 <= j < next.len() implies known.contains(#[trigger] next[j]) by {
                if j == r.len() {
                    assert(known[known.len() - 1] == last);
                }
            }
        }
    }
}

/// Forgets deposits not seen for `RESOURCE_MEMORY_TTL` ticks and those in view of
/// `position` that the world no longer holds.
pub fn reconcile_resource_memory(mind: &mut Mind, world: &Grid, position: (u32, u32), tick: u64)
    requires
        resources_sorted(old(mind).memory.known_resources@),
    ensures
        final(mind).memory.known_resources@ == reconciled(
            old(mind).memory.known_resources@,
            *world,
            position,
            old(mind).perception_radius,
            tick,
        ),
        resources_sorted(final(mind).memory.known_resources@),
        final(mind).memory.known_entities@ == old(mind).memory.known_entities@,
        final(mind).memory.known_chunks@ == old(mind).memory.known_chunks@,
        final(mind).memory.failed_exploration@ == old(mind).memory.failed_exploration@,
        final(mind).perception_radius == old(mind).perception_radius,
        final(mind).visible_entities@ == old(mind).visible_entities@,
        final(mind).current_goal == old(mind).current_goal,
        final(mind).current_plan@ == old(mind).current_plan@,
        final(mind).plan_index == old(mind).plan_index,
        final(mind).goal_since_tick == old(mind).goal_since_tick,
{
    let radius = mind.perception_radius;
    let min_y = if position.1 >= radius { position.1 - radius } else { 0 };
    let top = if world.height >= 1 { world.height - 1 } else { 0 };
    let max_y = if position.1 as u64 + radius as u64 <= top as u64 { position.1 + radius } else { top };
    let ghost known = mind.memory.known_resources@;
    let mut kept: Vec<KnownResource> = Vec::new();
    let mut i: usize = 0;
    while i < mind.memory.known_resources.len()
        invariant
            known == mind.memory.known_resources@,
            radius == mind.perception_radius,
            0 <= i <= known.len(),
            min_y == (if position.1 >= radius { position.1 - radius } else { 0 }),
            max_y == (if position.1 + radius <= top { (position.1 + radius) as int } else { top as int }),
            top == (if world.height >= 1 { world.height - 1 } else { 0 }),
            kept@ == reconciled(known.take(i as int), *world, position, radius, tick),
        decreases known.len() - i,
    {
        let memory = mind.memory.known_resources[i];
        let fresh = tick.saturating_sub(memory.last_seen_tick) <= RESOURCE_MEMORY_TTL;
        let distance = (if position.0 >= memory.x { position.0 - memory.x } else { memory.x - position.0 }) as u64 + (
        if position.1 >= memory.y {
            position.1 - memory.y
        } else {
            memory.y - position.1
        }) as u64;
        proof {
            assert(memory.y * world.width <= 0xffff_fffe_0000_0001) by (nonlinear_arith)
                requires
                    memory.y <= u32::MAX,
                    world.width <= u32::MAX,
            ;
        }
        let index = memory.y as u64 * world.width as u64 + memory.x as u64;
        let gone = index >= world.resources.len() as u64 || world.resources[index as usize].is_none();
        let depleted = min_y <= memory.y && memory.y <= max_y && distance <= radius as u64 && gone;
        proof {
            assert(known.take(i + 1).drop_last() =~= known.take(i as int));
            assert(known.take(i + 1).last() == memory);
            assert(depleted == seen_depleted(memory, *world, position, radius));
        }
        if fresh && !depleted {
            kept.push(memory);
        }
        i += 1;
    }
    proof {
        assert(known.take(known.len() as int) =~= known);
        lemma_reconciled_subsequence(known, *world, position, radius, tick);
    }
    mind.memory.known_resources = kept;
}

/// `value` held inside `low..=high`.
pub open spec fn clamp_int(value: int, low: int, high: int) -> int {
    if value < low { low } else if value > high { high } else { value }
}

/// The first and last visible column and row, inside the world.
pub open spec fn view_box(world: Grid, position: (u32, u32), radius: u32) -> (int, int, int, int) {
    (
        if position.0 >= radius { position.0 - radius } else { 0 },
        if position.0 + radius <= world.width - 1 { position.0 + radius } else { world.width - 1 },
        if position.1 >= radius { position.1 - radius } else { 0 },
        if position.1 + radius <= world.height - 1 { position.1 + radius } else { world.height - 1 },
    )
}

/// The chunk at column `cx` and row `cy` has a tile within `radius` steps of `position`,
/// judged by its tile nearest to `position`.
pub open spec fn chunk_in_view(world: Grid, position: (u32, u32), radius: u32, cx: int, cy: int) -> bool {
    let size = KNOWLEDGE_CHUNK_SIZE as int;
    let low_x = cx * size;
    let low_y = cy * size;
    let high_x = if low_x + size - 1 <= world.width - 1 { low_x + size - 1 } else { world.width - 1 };
    let high_y = if low_y + size - 1 <= world.height - 1 { low_y + size - 1 } else { world.height - 1 };
    let near_x = clamp_int(position.0 as int, low_x, high_x);
    let near_y = clamp_int(position.1 as int, low_y, high_y);
    (if near_x >= position.0 { near_x - position.0 } else { position.0 - near_x }) + (if near_y >= position.1 {
        near_y - position.1
    } else {
        position.1 - near_y
    }) <= radius
}

pub open spec fn chunks_wide(world: Grid) -> int {
    (world.width + KNOWLEDGE_CHUNK_SIZE - 1) / KNOWLEDGE_CHUNK_SIZE as int
}

/// Chunk `(cx, cy)` is among those the view box overlaps, and in view.
pub open spec fn visible_chunk_at(world: Grid, position: (u32, u32), radius: u32, cx: int, cy: int) -> bool {
    let (min_x, max_x, min_y, max_y) = view_box(world, position, radius);
    let size = KNOWLEDGE_CHUNK_SIZE as int;
    &&& min_x / size <= cx <= max_x / size
    &&& min_y / size <= cy <= max_y / size
    &&& chunk_in_view(world, position, radius, cx, cy)
}

/// The chunk index `chunk` belongs to a chunk in view.
pub open spec fn visible_chunk(world: Grid, position: (u32, u32), radius: u32, chunk: u32) -> bool {
    exists|cx: int, cy: int| #[trigger] visible_chunk_at(world, position, radius, cx, cy) && chunk == cy * chunks_wide(world) + cx
}

/// Remembers every knowledge chunk that has a tile within the perception radius.
pub fn remember_visible_chunks(mind: &mut Mind, world: &Grid, position: (u32, u32))
    requires
        old(mind).memory.wf(),
        world.wf(),
        world.width >= 1,
        world.height >= 1,
    ensures
        final(mind).memory.wf(),
        forall|c: u32| #[trigger] final(mind).memory.spec_known_chunks().contains(c) <==> (old(mind).memory.spec_known_chunks().contains(c)
            || visible_chunk(*world, position, old(mind).perception_radius, c)),
        final(mind).memory.known_resources@ == old(mind).memory.known_resources@,
        final(mind).memory.known_entities@ == old(mind).memory.known_entities@,
        final(mind).memory.spec_failed_exploration() == old(mind).memory.spec_failed_exploration(),
        final(mind).perception_radius == old(mind).perception_radius,
        final(mind).visible_entities@ == old(mind).visible_entities@,
        final(mind).current_goal == old(mind).current_goal,
        final(mind).current_plan@ == old(mind).current_plan@,
        final(mind).plan_index == old(mind).plan_index,
        final(mind).goal_since_tick == old(mind).goal_since_tick,
{
    let radius = mind.perception_radius;
    let min_x: u64 = if position.0 >= radius { (position.0 - radius) as u64 } else { 0 };
    let max_x: u64 = if position.0 as u64 + radius as u64 <= world.width as u64 - 1 {
        position.0 as u64 + radius as u64
    } else {
        world.width as u64 - 1
    };
    let min_y: u64 = if position.1 >= radius { (position.1 - radius) as u64 } else { 0 };
    let max_y: u64 = if position.1 as u64 + radius as u64 <= world.height as u64 - 1 {
        position.1 as u64 + radius as u64
    } else {
        world.height as u64 - 1
    };
    let size = KNOWLEDGE_CHUNK_SIZE as u64;
    let wide: u64 = (world.width as u64 + size - 1) / size;
    let ghost before = mind.memory.known_chunks@;
    let ghost old_mind = *mind;
    let mut cy: u64 = min_y / size;
    while cy <= max_y / size
        invariant
            mind.memory.wf(),
            world.wf(),
            world.width >= 1,
            world.height >= 1,
            radius == old_mind.perception_radius,
            (min_x as int, max_x as int, min_y as int, max_y as int) == view_box(*world, position, radius),
            size == 8,
            wide == chunks_wide(*world),
            min_y / size <= cy,
            cy <= max_y / size + 1 || cy == min_y / size,
            forall|c: u32| #[trigger] mind.memory.spec_known_chunks().contains(c) <==> (before.contains(c) || exists|x: int, y: int|
                #[trigger] visible_chunk_at(*world, position, radius, x, y) && y < cy && c == y * chunks_wide(*world) + x),
            mind.memory.known_resources@ == old_mind.memory.known_resources@,
            mind.memory.known_entities@ == old_mind.memory.known_entities@,
            mind.memory.spec_failed_exploration() == old_mind.memory.spec_failed_exploration(),
            mind.perception_radius == old_mind.perception_radius,
            mind.visible_entities@ == old_mind.visible_entities@,
            mind.current_goal == old_mind.current_goal,
            mind.current_plan@ == old_mind.current_plan@,
            mind.plan_index == old_mind.plan_index,
            mind.goal_since_tick == old_mind.goal_since_tick,
        decreases max_y / size + 1 - cy,
    {
        let mut cx: u64 = min_x / size;
        while cx <= max_x / size
            invariant
                mind.memory.wf(),
                world.wf(),
                world.width >= 1,
                world.height >= 1,
                radius == old_mind.perception_radius,
                (min_x as int, max_x as int, min_y as int, max_y as int) == view_box(*world, position, radius),
                size == 8,
                wide == chunks_wide(*world),
                min_y / size <= cy <= max_y / size,
                min_x / size <= cx,
                cx <= max_x / size + 1 || cx == min_x / size,
                forall|c: u32| #[trigger] mind.memory.spec_known_chunks().contains(c) <==> (before.contains(c) || exists|x: int, y: int|
                    #[trigger] visible_chunk_at(*world, position, radius, x, y) && (y < cy || (y == cy && x < cx)) && c == y
                        * chunks_wide(*world) + x),
                mind.memory.known_resources@ == old_mind.memory.known_resources@,
                mind.memory.known_entities@ == old_mind.memory.known_entities@,
                mind.memory.spec_failed_exploration() == old_mind.memory.spec_failed_exploration(),
                mind.perception_radius == old_mind.perception_radius,
                mind.visible_entities@ == old_mind.visible_entities@,
                mind.current_goal == old_mind.current_goal,
                mind.current_plan@ == old_mind.current_plan@,
                mind.plan_index == old_mind.plan_index,
                mind.goal_since_tick == old_mind.goal_since_tick,
            decreases max_x / size + 1 - cx,
        {
            let low_x = cx * size;
            let low_y = cy * size;
            let high_x = if low_x + size - 1 <= world.width as u64 - 1 { low_x + size - 1 } else { world.width as u64 - 1 };
            let high_y = if low_y + size - 1 <= world.height as u64 - 1 { low_y + size - 1 } else { world.height as u64 - 1 };
            let px = position.0 as u64;
            let py = position.1 as u64;
            let near_x = if px < low_x { low_x } else if px > high_x { high_x } else { px };
            let near_y = if py < low_y { low_y } else if py > high_y { high_y } else { py };
            let distance = (if near_x >= px { near_x - px } else { px - near_x }) + (if near_y >= py { near_y - py } else { py - near_y });
            let ghost visible = visible_chunk_at(*world, position, radius, cx as int, cy as int);
            proof {
                assert(visible == (distance <= radius as u64));
                assert(cy * wide + cx < 0x1_0000_0000) by (nonlinear_arith)
                    requires
                        cy <= max_y / 8,
                        max_y <= world.height - 1,
                        cx <= max_x / 8,
                        max_x <= world.width - 1,
                        wide == (world.width + 7) / 8,
                        world.width * world.height <= u32::MAX,
                        world.width >= 1,
                        world.height >= 1,
                ;
            }
            if distance <= radius as u64 {
                let chunk = (cy * wide + cx) as u32;
                let ghost old_chunks = mind.memory.spec_known_chunks();
                mind.memory.remember_chunk(chunk);
                proof {
                    assert forall|c: u32| #[trigger] mind.memory.spec_known_chunks().contains(c) <==> (old_chunks.contains(c) || c == chunk) by {
                        assert(mind.memory.spec_known_chunks().to_set().contains(c) == mind.memory.spec_known_chunks().contains(c));
                        assert(old_chunks.to_set().contains(c) == old_chunks.contains(c));
                    }
                }
            }
            proof {
                assert forall|c: u32| #[trigger] mind.memory.spec_known_chunks().contains(c) <==> (before.contains(c) || exists|x: int, y: int|
                    #[trigger] visible_chunk_at(*world, position, radius, x, y) && (y < cy || (y == cy && x < cx + 1)) && c == y
                        * chunks_wide(*world) + x) by {
                    if visible && c == cy * chunks_wide(*world) + cx {
                        assert(visible_chunk_at(*world, position, radius, cx as int, cy as int));
                    }
                }
            }
            cx += 1;
        }
        proof {
            assert forall|c: u32| #[trigger] mind.memory.spec_known_chunks().contains(c) <==> (before.contains(c) || exists|x: int, y: int|
                #[trigger] visible_chunk_at(*world, position, radius, x, y) && y < cy + 1 && c == y * chunks_wide(*world) + x) by {
                if exists|x: int, y: int| #[trigger] visible_chunk_at(*world, position, radius, x, y) && y < cy + 1 && c == y * chunks_wide(*world) + x {
                    let (x, y) = choose|x: int, y: int| #[trigger] visible_chunk_at(*world, position, radius, x, y) && y < cy + 1 && c == y * chunks_wide(*world) + x;
                    assert(x <= max_x / size);
                }
            }
        }
        cy += 1;
    }
    proof {
        assert forall|c: u32| #[trigger] mind.memory.spec_known_chunks().contains(c) <==> (before.contains(c) || visible_chunk(*world, position, radius, c)) by {
            if visible_chunk(*world, position, radius, c) {
                let (x, y) = choose|x: int, y: int| #[trigger] visible_chunk_at(*world, position, radius, x, y) && c == y * chunks_wide(*world) + x;
                assert(y <= max_y / size);
            }
        }
    }
}

/// A tile of the world within `radius` steps of `position`.
pub open spec fn tile_in_view(world: Grid, position: (u32, u32), radius: u32, x: u32, y: u32) -> bool {
    x < world.width && y < world.height && spec_manhattan(position, (x, y)) <= radius
}

/// The chunks noted by `remember_visible_chunks` are exactly the chunks that hold a tile of
/// the world within the perception radius: judging each chunk by its nearest tile gives
/// the same chunks as looking at every tile in view.
pub proof fn lemma_visible_chunks_hold_tiles_in_view(world: Grid, position: (u32, u32), radius: u32, chunk: u32)
    requires
        world.width >= 1,
        world.height >= 1,
    ensures
        visible_chunk(world, position, radius, chunk) <==> exists|x: u32, y: u32|
            #[trigger] tile_in_view(world, position, radius, x, y) && spec_chunk_index(world.width, x, y) == chunk,
{
    let size = KNOWLEDGE_CHUNK_SIZE as int;
    let (min_x, max_x, min_y, max_y) = view_box(world, position, radius);
    if visible_chunk(world, position, radius, chunk) {
        let (cx, cy) = choose|cx: int, cy: int| #[trigger] visible_chunk_at(world, position, radius, cx, cy) && chunk == cy * chunks_wide(world) + cx;
        let low_x = cx * size;
        let low_y = cy * size;
        let high_x = if low_x + size - 1 <= world.width - 1 { low_x + size - 1 } else { world.width - 1 };
        let high_y = if low_y + size - 1 <= world.height - 1 { low_y + size - 1 } else { world.height - 1 };
        let near_x = clamp_int(position.0 as int, low_x, high_x);
        let near_y = clamp_int(position.1 as int, low_y, high_y);
        assert(0 <= min_x / size) by {
            vstd::arithmetic::div_mod::lemma_div_pos_is_pos(min_x, size);
        }
        assert(max_x / size * size <= max_x) by {
            vstd::arithmetic::div_mod::lemma_fundamental_div_mod(max_x, size);
        }
        assert(max_y / size * size <= max_y) by {
            vstd::arithmetic::div_mod::lemma_fundamental_div_mod(max_y, size);
        }
        assert(0 <= min_y / size) by {
            vstd::arithmetic::div_mod::lemma_div_pos_is_pos(min_y, size);
        }
        assert(low_x <= max_x / size * size) by (nonlinear_arith)
            requires
                cx <= max_x / size,
                low_x == cx * size,
                size == 8,
        ;
        assert(low_y <= max_y / size * size) by (nonlinear_arith)
            requires
                cy <= max_y / size,
                low_y == cy * size,
                size == 8,
        ;
        assert(0 <= low_x && 0 <= low_y);
        let x = near_x as u32;
        let y = near_y as u32;
        assert(x / 8 == cx) by {
            vstd::arithmetic::div_mod::lemma_fundamental_div_mod_converse(near_x, 8, cx, near_x - low_x);
        }
        assert(y / 8 == cy) by {
            vstd::arithmetic::div_mod::lemma_fundamental_div_mod_converse(near_y, 8, cy, near_y - low_y);
        }
        assert(tile_in_view(world, position, radius, x, y));
        assert(spec_chunk_index(world.width, x, y) == chunk);
    }
    if exists|x: u32, y: u32| #[trigger] tile_in_view(world, position, radius, x, y) && spec_chunk_index(world.width, x, y) == chunk {
        let (x, y) = choose|x: u32, y: u32| #[trigger] tile_in_view(world, position, radius, x, y) && spec_chunk_index(world.width, x, y) == chunk;
        let cx = x as int / size;
        let cy = y as int / size;
        assert(min_x <= x <= max_x && min_y <= y <= max_y);
        assert(min_x / size <= cx <= max_x / size) by {
            vstd::arithmetic::div_mod::lemma_div_is_ordered(min_x, x as int, size);
            vstd::arithmetic::div_mod::lemma_div_is_ordered(x as int, max_x, size);
        }
        assert(min_y / size <= cy <= max_y / size) by {
            vstd::arithmetic::div_mod::lemma_div_is_ordered(min_y, y as int, size);
            vstd::arithmetic::div_mod::lemma_div_is_ordered(y as int, max_y, size);
        }
        assert(cx * size <= x < cx * size + size) by {
            vstd::arithmetic::div_mod::lemma_fundamental_div_mod(x as int, size);
        }
        assert(cy * size <= y < cy * size + size) by {
            vstd::arithmetic::div_mod::lemma_fundamental_div_mod(y as int, size);
        }
        assert(chunk_in_view(world, position, radius, cx, cy));
        assert(visible_chunk_at(world, position, radius, cx, cy));
    }
}

/// Columns and rows of the view box, and how many cells it has.
pub open spec fn view_cells(world: Grid, position: (u32, u32), radius: u32) -> int {
    let (min_x, max_x, min_y, max_y) = view_box(world, position, radius);
    if min_x <= max_x && min_y <= max_y {
        (max_x - min_x + 1) * (max_y - min_y + 1)
    } else {
        0
    }
}

/// The `c`-th cell of the view box, row by row.
pub open spec fn view_cell(world: Grid, position: (u32, u32), radius: u32, c: int) -> (int, int) {
    let (min_x, max_x, min_y, max_y) = view_box(world, position, radius);
    let columns = max_x - min_x + 1;
    (min_x + c % columns, min_y + c / columns)
}

/// What a scan has gathered: the remembered deposits, the new discoveries, and how many
/// deposits were in view.
pub struct ScanState {
    pub known: Seq<KnownResource>,
    pub found: Seq<ResourceDiscovery>,
    pub visible: int,
}

/// The scan of the first `c` cells of the view box: every deposit within the perception
/// radius is remembered, and reported when it was new.
pub open spec fn scan_state(
    world: Grid,
    position: (u32, u32),
    radius: u32,
    entity_id: u32,
    tick: u64,
    known: Seq<KnownResource>,
    c: int,
) -> ScanState
    decreases c,
{
    if c <= 0 {
        ScanState { known, found: Seq::empty(), visible: 0 }
    } else {
        let state = scan_state(world, position, radius, entity_id, tick, known, c - 1);
        let (x, y) = view_cell(world, position, radius, c - 1);
        let index = y * world.width + x;
        if spec_manhattan(position, (x as u32, y as u32)) <= radius && 0 <= index < world.resources@.len()
            && world.resources@[index] is Some {
            let deposit = world.resources@[index].unwrap();
            let new = !exists|i: int|
                0 <= i < state.known.len() && same_deposit(#[trigger] state.known[i], x as u32, y as u32, deposit.kind);
            ScanState {
                known: spec_remember_resource(state.known, x as u32, y as u32, deposit.kind, deposit.amount, tick),
                found: if new {
                    state.found.push(
                        ResourceDiscovery { entity_id, x: x as u32, y: y as u32, kind: deposit.kind, amount: deposit.amount },
                    )
                } else {
                    state.found
                },
                visible: state.visible + 1,
            }
        } else {
            state
        }
    }
}

proof fn lemma_scan_visible_bound(world: Grid, position: (u32, u32), radius: u32, entity_id: u32, tick: u64, known: Seq<KnownResource>, c: int)
    requires
        0 <= c,
    ensures
        0 <= scan_state(world, position, radius, entity_id, tick, known, c).visible <= c,
    decreases c,
{
    if c > 0 {
        lemma_scan_visible_bound(world, position, radius, entity_id, tick, known, c - 1);
    }
}

/// Notes the chunks in view, then remembers every deposit within the perception radius;
/// returns how many deposits were in view and the ones new to this memory.
pub fn scan_visible_resources(mind: &mut Mind, entity_id: u32, world: &Grid, position: (u32, u32), tick: u64) -> (r: (
    u32,
    Vec<ResourceDiscovery>,
))
    requires
        old(mind).memory.wf(),
        resources_sorted(old(mind).memory.known_resources@),
        world.wf(),
        world.width >= 1,
        world.height >= 1,
        world.resources@.len() == world.tiles@.len(),
    ensures
        ({
            let radius = old(mind).perception_radius;
            let state = scan_state(
                *world,
                position,
                radius,
                entity_id,
                tick,
                old(mind).memory.known_resources@,
                view_cells(*world, position, radius),
            );
            &&& final(mind).memory.known_resources@ == state.known
            &&& r.1@ == state.found
            &&& r.0 == state.visible
        }),
        final(mind).memory.wf(),
        resources_sorted(final(mind).memory.known_resources@),
        forall|c: u32| #[trigger] final(mind).memory.spec_known_chunks().contains(c) <==> (old(mind).memory.spec_known_chunks().contains(c)
            || visible_chunk(*world, position, old(mind).perception_radius, c)),
        final(mind).memory.known_entities@ == old(mind).memory.known_entities@,
        final(mind).memory.spec_failed_exploration() == old(mind).memory.spec_failed_exploration(),
        final(mind).perception_radius == old(mind).perception_radius,
        final(mind).visible_entities@ == old(mind).visible_entities@,
        final(mind).current_goal == old(mind).current_goal,
        final(mind).current_plan@ == old(mind).current_plan@,
        final(mind).plan_index == old(mind).plan_index,
        final(mind).goal_since_tick == old(mind).goal_since_tick,
{
    let radius = mind.perception_radius;
    remember_visible_chunks(mind, world, position);
    let ghost known0 = old(mind).memory.known_resources@;
    let ghost old_mind = *mind;
    let min_x: u64 = if position.0 >= radius { (position.0 - radius) as u64 } else { 0 };
    let max_x: u64 = if position.0 as u64 + radius as u64 <= world.width as u64 - 1 {
        position.0 as u64 + radius as u64
    } else {
        world.width as u64 - 1
    };
    let min_y: u64 = if position.1 >= radius { (position.1 - radius) as u64 } else { 0 };
    let max_y: u64 = if position.1 as u64 + radius as u64 <= world.height as u64 - 1 {
        position.1 as u64 + radius as u64
    } else {
        world.height as u64 - 1
    };
    let mut visible: u32 = 0;
    let mut found: Vec<ResourceDiscovery> = Vec::new();
    if min_x > max_x || min_y > max_y {
        return (visible, found);
    }
    let columns = max_x - min_x + 1;
    proof {
        assert(columns * (max_y - min_y + 1) <= world.width * world.height) by (nonlinear_arith)
            requires
                columns <= world.width,
                max_y - min_y + 1 <= world.height,
                columns >= 1,
                max_y >= min_y,
        ;
    }
    let mut y: u64 = min_y;
    proof {
        assert((y - min_y) * columns == 0);
        assert(scan_state(*world, position, radius, entity_id, tick, known0, 0).known == known0);
        assert(mind.memory.known_resources@ == known0);
    }
    while y <= max_y
        invariant
            world.wf(),
            world.resources@.len() == world.tiles@.len(),
            radius == old_mind.perception_radius,
            (min_x as int, max_x as int, min_y as int, max_y as int) == view_box(*world, position, radius),
            min_x <= max_x,
            min_y <= y <= max_y + 1,
            max_y < world.height,
            max_x < world.width,
            columns == max_x - min_x + 1,
            columns * (max_y - min_y + 1) <= world.width * world.height,
            resources_sorted(mind.memory.known_resources@),
            ({
                let state = scan_state(*world, position, radius, entity_id, tick, known0, (y - min_y) * columns);
                &&& mind.memory.known_resources@ == state.known
                &&& found@ == state.found
                &&& visible == state.visible
            }),
            mind.memory.known_chunks@ == old_mind.memory.known_chunks@,
            mind.memory.known_entities@ == old_mind.memory.known_entities@,
            mind.memory.spec_failed_exploration() == old_mind.memory.spec_failed_exploration(),
            mind.perception_radius == old_mind.perception_radius,
            mind.visible_entities@ == old_mind.visible_entities@,
            mind.current_goal == old_mind.current_goal,
            mind.current_plan@ == old_mind.current_plan@,
            mind.plan_index == old_mind.plan_index,
            mind.goal_since_tick == old_mind.goal_since_tick,
        decreases max_y + 1 - y,
    {
        let mut x: u64 = min_x;
        while x <= max_x
            invariant
                world.wf(),
                world.resources@.len() == world.tiles@.len(),
                radius == old_mind.perception_radius,
                (min_x as int, max_x as int, min_y as int, max_y as int) == view_box(*world, position, radius),
                min_x <= x <= max_x + 1,
                min_y <= y <= max_y,
                max_y < world.height,
                max_x < world.width,
                columns == max_x - min_x + 1,
                columns * (max_y - min_y + 1) <= world.width * world.height,
                resources_sorted(mind.memory.known_resources@),
                ({
                    let state = scan_state(*world, position, radius, entity_id, tick, known0, (y - min_y) * columns + (x - min_x));
                    &&& mind.memory.known_resources@ == state.known
                    &&& found@ == state.found
                    &&& visible == state.visible
                }),
                mind.memory.known_chunks@ == old_mind.memory.known_chunks@,
                mind.memory.known_entities@ == old_mind.memory.known_entities@,
                mind.memory.spec_failed_exploration() == old_mind.memory.spec_failed_exploration(),
                mind.perception_radius == old_mind.perception_radius,
                mind.visible_entities@ == old_mind.visible_entities@,
                mind.current_goal == old_mind.current_goal,
                mind.current_plan@ == old_mind.current_plan@,
                mind.plan_index == old_mind.plan_index,
                mind.goal_since_tick == old_mind.goal_since_tick,
            decreases max_x + 1 - x,
        {
            let ghost c = (y - min_y) * columns + (x - min_x);
            proof {
                vstd::arithmetic::div_mod::lemma_fundamental_div_mod_converse(c, columns as int, (y - min_y) as int, (x - min_x) as int);
                assert(view_cell(*world, position, radius, c) == (x as int, y as int));
                assert(y * world.width + x < world.width * world.height) by (nonlinear_arith)
                    requires
                        y < world.height,
                        x < world.width,
                ;
                lemma_scan_visible_bound(*world, position, radius, entity_id, tick, known0, c);
                assert(c < columns * (max_y - min_y + 1)) by (nonlinear_arith)
                    requires
                        c == (y - min_y) * columns + (x - min_x),
                        x - min_x < columns,
                        y - min_y <= max_y - min_y,
                        columns >= 1,
                ;
            }
            let distance = (if position.0 as u64 >= x { position.0 as u64 - x } else { x - position.0 as u64 }) + (
            if position.1 as u64 >= y {
                position.1 as u64 - y
            } else {
                y - position.1 as u64
            });
            if distance <= radius as u64 {
                let index = (y * world.width as u64 + x) as usize;
                if let Some(deposit) = world.resources[index] {
                    let ghost before = mind.memory.known_resources@;
                    let inserted = remember_resource(&mut mind.memory, x as u32, y as u32, deposit.kind, deposit.amount, tick);
                    if inserted {
                        found.push(
                            ResourceDiscovery { entity_id, x: x as u32, y: y as u32, kind: deposit.kind, amount: deposit.amount },
                        );
                    }
                    visible = visible + 1;
                }
            }
            x += 1;
        }
        proof {
            assert((y - min_y) * columns + (max_x + 1 - min_x) == (y + 1 - min_y) * columns) by (nonlinear_arith)
                requires
                    columns == max_x - min_x + 1,
            ;
        }
        y += 1;
    }
    proof {
        assert(view_cells(*world, position, radius) == (max_y + 1 - min_y) * columns) by (nonlinear_arith)
            requires
                columns == max_x - min_x + 1,
                view_cells(*world, position, radius) == (max_x - min_x + 1) * (max_y - min_y + 1),
        ;
        assert forall|c: u32| #[trigger] mind.memory.spec_known_chunks().contains(c) <==> (old(mind).memory.spec_known_chunks().contains(c)
            || visible_chunk(*world, position, old(mind).perception_radius, c)) by {
            assert(old_mind.memory.spec_known_chunks().contains(c) == mind.memory.spec_known_chunks().contains(c));
        }
    }
    (visible, found)
}

/// Looks around `position`: forgets stale and visibly depleted deposits, notes the chunks
/// in view, remembers every deposit in view, and reports the new ones.
pub fn perceive(mind: &mut Mind, entity_id: u32, world: &Grid, position: (u32, u32), tick: u64) -> (r: Vec<ResourceDiscovery>)
    requires
        old(mind).memory.wf(),
        resources_sorted(old(mind).memory.known_resources@),
        world.wf(),
        world.width >= 1,
        world.height >= 1,
        world.resources@.len() == world.tiles@.len(),
    ensures
        ({
            let radius = old(mind).perception_radius;
            let kept = reconciled(old(mind).memory.known_resources@, *world, position, radius, tick);
            let state = scan_state(*world, position, radius, entity_id, tick, kept, view_cells(*world, position, radius));
            &&& final(mind).memory.known_resources@ == state.known
            &&& r@ == state.found
        }),
        final(mind).memory.wf(),
        resources_sorted(final(mind).memory.known_resources@),
        forall|c: u32| #[trigger] final(mind).memory.spec_known_chunks().contains(c) <==> (old(mind).memory.spec_known_chunks().contains(c)
            || visible_chunk(*world, position, old(mind).perception_radius, c)),
        final(mind).memory.known_entities@ == old(mind).memory.known_entities@,
        final(mind).perception_radius == old(mind).perception_radius,
{
    reconcile_resource_memory(mind, world, position, tick);
    let (_, found) = scan_visible_resources(mind, entity_id, world, position, tick);
    found
}

/// One individual noticing another for the first time.
#[derive(Clone, Copy, Debug, PartialEq, Eq, Structural)]
pub struct EntityEncounter {
    pub observer_id: u32,
    pub other_id: u32,
    pub x: u32,
    pub y: u32,
}

/// What looking at the first candidates has gathered: the acquaintances, the ids seen in
/// candidate order, and the first meetings.
pub struct SightState {
    pub known: Seq<KnownEntity>,
    pub seen: Seq<u32>,
    pub encounters: Seq<EntityEncounter>,
}

/// The look at the first `n` candidates: every other individual within `radius` steps is
/// seen and remembered, and met when it was a stranger.
pub open spec fn sight_state(
    population: Seq<EntityPosition>,
    candidates: Seq<usize>,
    entity_id: u32,
    position: (u32, u32),
    radius: u32,
    tick: u64,
    known: Seq<KnownEntity>,
    n: int,
) -> SightState
    decreases n,
{
    if n <= 0 {
        SightState { known, seen: Seq::empty(), encounters: Seq::empty() }
    } else {
        let state = sight_state(population, candidates, entity_id, position, radius, tick, known, n - 1);
        let other = population[candidates[n - 1] as int];
        if other.id != entity_id && spec_manhattan(position, (other.x, other.y)) <= radius {
            let stranger = !exists|i: int| 0 <= i < state.known.len() && (#[trigger] state.known[i]).id == other.id;
            SightState {
                known: spec_remember_entity(state.known, other, tick),
                seen: state.seen.push(other.id),
                encounters: if stranger {
                    state.encounters.push(
                        EntityEncounter { observer_id: entity_id, other_id: other.id, x: position.0, y: position.1 },
                    )
                } else {
                    state.encounters
                },
            }
        } else {
            state
        }
    }
}

/// Ids in non-decreasing order.
pub open spec fn ids_ascending(ids: Seq<u32>) -> bool {
    forall|i: int, j: int| 0 <= i < j < ids.len() ==> ids[i] <= ids[j]
}

/// Puts `id` into the ascending list `ids`, after the ids not above it.
fn insert_ascending(ids: &mut Vec<u32>, id: u32)
    requires
        ids_ascending(old(ids)@),
    ensures
        ids_ascending(final(ids)@),
        final(ids)@.to_multiset() == old(ids)@.to_multiset().insert(id),
{
    let mut p: usize = 0;
    while p < ids.len() && ids[p] <= id
        invariant
            p <= ids.len(),
            ids@ == old(ids)@,
            forall|j: int| 0 <= j < p ==> ids@[j] <= id,
        decreases ids.len() - p,
    {
        p += 1;
    }
    let ghost before = ids@;
    proof {
        vstd::seq_lib::to_multiset_insert(before, p as int, id);
    }
    ids.insert(p, id);
    proof {
        let after = ids@;
        assert forall|a: int, b: int| 0 <= a < b < after.len() implies after[a] <= after[b] by {
            if b < p {
                assert(after[a] == before[a] && after[b] == before[b]);
            } else if b == p {
                assert(after[a] == before[a]);
            } else if a < p {
                assert(after[a] == before[a] && after[b] == before[b - 1]);
            } else if a == p {
                assert(after[b] == before[b - 1]);
                assert(p < before.len());
                assert(before[p as int] > id);
            } else {
                assert(after[a] == before[a - 1] && after[b] == before[b - 1]);
            }
        }
    }
}

/// Looks for the others near `position` among the spatial grid's candidates: each one in
/// view is listed, in id order, as visible and remembered; the first meetings with
/// strangers are returned in the order the candidates came.
pub fn perceive_entities(
    mind: &mut Mind,
    entity_id: u32,
    position: (u32, u32),
    tick: u64,
    population: &Vec<EntityPosition>,
    spatial_grid: &SpatialGrid,
) -> (r: Vec<EntityEncounter>)
    requires
        ids_sorted(old(mind).memory.known_entities@),
        spatial_grid.wf(),
        forall|j: int| 0 <= j < spatial_candidates(*spatial_grid, position.0, position.1, old(mind).perception_radius).len()
            ==> #[trigger] spatial_candidates(*spatial_grid, position.0, position.1, old(mind).perception_radius)[j] < population@.len(),
    ensures
        ({
            let radius = old(mind).perception_radius;
            let candidates = spatial_candidates(*spatial_grid, position.0, position.1, radius);
            let state = sight_state(population@, candidates, entity_id, position, radius, tick, old(mind).memory.known_entities@, candidates.len() as int);
            &&& final(mind).memory.known_entities@ == state.known
            &&& r@ == state.encounters
            &&& ids_ascending(final(mind).visible_entities@)
            &&& final(mind).visible_entities@.to_multiset() == state.seen.to_multiset()
        }),
        ids_sorted(final(mind).memory.known_entities@),
        final(mind).memory.known_resources@ == old(mind).memory.known_resources@,
        final(mind).memory.known_chunks@ == old(mind).memory.known_chunks@,
        final(mind).memory.failed_exploration@ == old(mind).memory.failed_exploration@,
        final(mind).perception_radius == old(mind).perception_radius,
        final(mind).current_goal == old(mind).current_goal,
        final(mind).current_plan@ == old(mind).current_plan@,
        final(mind).plan_index == old(mind).plan_index,
        final(mind).goal_since_tick == old(mind).goal_since_tick,
{
    let radius = mind.perception_radius;
    let candidates = spatial_grid.candidates(position.0, position.1, radius);
    let ghost known0 = old(mind).memory.known_entities@;
    let ghost old_mind = *old(mind);
    mind.visible_entities = Vec::new();
    let mut encounters: Vec<EntityEncounter> = Vec::new();
    let mut n: usize = 0;
    while n < candidates.len()
        invariant
            n <= candidates.len(),
            forall|j: int| 0 <= j < candidates@.len() ==> #[trigger] candidates@[j] < population@.len(),
            radius == old_mind.perception_radius,
            ids_sorted(mind.memory.known_entities@),
            ({
                let state = sight_state(population@, candidates@, entity_id, position, radius, tick, known0, n as int);
                &&& mind.memory.known_entities@ == state.known
                &&& encounters@ == state.encounters
                &&& ids_ascending(mind.visible_entities@)
                &&& mind.visible_entities@.to_multiset() == state.seen.to_multiset()
            }),
            mind.memory.known_resources@ == old_mind.memory.known_resources@,
            mind.memory.known_chunks@ == old_mind.memory.known_chunks@,
            mind.memory.failed_exploration@ == old_mind.memory.failed_exploration@,
            mind.perception_radius == old_mind.perception_radius,
            mind.current_goal == old_mind.current_goal,
            mind.current_plan@ == old_mind.current_plan@,
            mind.plan_index == old_mind.plan_index,
            mind.goal_since_tick == old_mind.goal_since_tick,
        decreases candidates.len() - n,
    {
        let other = population[candidates[n]];
        let ghost state = sight_state(population@, candidates@, entity_id, position, radius, tick, known0, n as int);
        if other.id != entity_id {
            let distance = (if position.0 >= other.x { position.0 as u64 - other.x as u64 } else { other.x as u64 - position.0 as u64 })
                + (if position.1 >= other.y { position.1 as u64 - other.y as u64 } else { other.y as u64 - position.1 as u64 });
            if distance <= radius as u64 {
                insert_ascending(&mut mind.visible_entities, other.id);
                proof {
                    vstd::seq_lib::to_multiset_build(state.seen, other.id);
                }
                let stranger = remember_entity(&mut mind.memory, other, tick);
                if stranger {
                    encounters.push(
                        EntityEncounter { observer_id: entity_id, other_id: other.id, x: position.0, y: position.1 },
                    );
                }
            }
        }
        n += 1;
    }
    encounters
}

} // verus!
