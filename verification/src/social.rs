//! Social contact between individuals who see each other up close: which pairs meet,
//! whether they are due to interact again, and how the interaction is remembered on
//! both sides.
use vstd::prelude::*;
use crate::households::{find_member, member_index, members_by_id, Member};
use crate::partnerships::{
    acquaintance, acquaintance_of, after_dissolution, after_formation, dissolve_all, dissolve_unhealthy, knowns_of,
    memories_sorted, partner_pairs, population_sound, spec_dissolution, spec_formation, try_dissolve, try_form,
    PartnershipDissolution, PartnershipFormation,
};
use crate::households::{form_for_partnership, household_formation, households_by_id, ids_below, Household};
use crate::genealogy::{Genealogy, LineageRecord};
use crate::events::{
    lemma_event_id_of, lemma_view_after_no_pushes, lemma_view_after_pushes_snoc, pending_view, view_after_pushes,
    EventLocation, EventView, PendingSimulationEvent, RecentEventHistory, SimulationEventCause, SimulationEventDetails,
    SimulationEventKind,
};
use crate::records::{affinity_change_view, dissolution_view, ids_left, record_affinity_change, record_partnership_dissolution};
use crate::perception::EntityPosition;
use crate::entity::{spec_life_stage, LifeStage};
use crate::mind::{
    ids_sorted, spec_affinity_band, spec_affinity_delta, spec_after_interaction, spec_decay_changes, spec_decayed,
    spec_manhattan, AffinityChangeRecord, KnownEntity,
};

verus! {

/// How close two individuals must stand to interact.
pub const SOCIAL_RADIUS: u32 = 2;
/// The fewest ticks between two interactions of a pair.
pub const MIN_INTERACTION_INTERVAL: u64 = 12;
/// The most ticks between two interactions of a pair.
pub const MAX_INTERACTION_INTERVAL: u64 = 72;

/// Two individuals who can interact now, with where they stand and when they last
/// interacted (0 for never).
#[derive(Clone, Copy, Debug, PartialEq, Eq)]
pub struct SocialPair {
    pub actor_index: usize,
    pub target_index: usize,
    pub actor_id: u32,
    pub target_id: u32,
    pub actor_location: (u32, u32),
    pub target_location: (u32, u32),
    pub last_interaction: u64,
}

/// An interaction about to happen, with the affinity change each side takes from it.
#[derive(Clone, Copy, Debug, PartialEq, Eq)]
pub struct PendingInteraction {
    pub pair: SocialPair,
    pub actor_affinity_delta: i16,
    pub target_affinity_delta: i16,
}

/// An interaction that happened.
#[derive(Clone, Copy, Debug, PartialEq, Eq)]
pub struct SocialInteraction {
    pub actor_id: u32,
    pub target_id: u32,
    pub location: (u32, u32),
    pub actor_location: (u32, u32),
    pub target_location: (u32, u32),
    pub actor_affinity_delta: i16,
    pub target_affinity_delta: i16,
    pub actor_affinity_change: Option<AffinityChangeRecord>,
    pub target_affinity_change: Option<AffinityChangeRecord>,
}

/// Alive and past infancy.
pub open spec fn can_socialize(m: Member) -> bool {
    m.alive && spec_life_stage(m.age_ticks) != LifeStage::Infant
}

/// When `m` last interacted with `id`, 0 when never or unknown.
pub open spec fn last_interaction_with(m: Member, id: u32) -> u64 {
    match acquaintance(m.memory.known_entities@, id) {
        Some(k) => k.last_interaction_tick,
        None => 0,
    }
}

/// The pair that `a` forms with the `k`-th individual it sees: the other has a higher id,
/// is listed, both have a position this pass, stand within the social radius, are
/// alive and past infancy, and see each other.
pub open spec fn pair_at(members: Seq<Member>, population: Seq<EntityPosition>, a: int, k: int) -> Option<SocialPair> {
    let am = members[a];
    let b_id = am.visible_entities@[k];
    if !can_socialize(am) || a >= population.len() || am.id >= b_id {
        None
    } else {
        match member_index(members, b_id) {
            Some(b) => {
                let a_pos = (population[a].x, population[a].y);
                if b >= population.len() {
                    None
                } else {
                    let b_pos = (population[b].x, population[b].y);
                    if spec_manhattan(a_pos, b_pos) > SOCIAL_RADIUS || !can_socialize(members[b])
                        || !members[b].visible_entities@.contains(am.id) {
                        None
                    } else {
                        let ab = last_interaction_with(am, b_id);
                        let ba = last_interaction_with(members[b], am.id);
                        Some(
                            SocialPair {
                                actor_index: a as usize,
                                target_index: b as usize,
                                actor_id: am.id,
                                target_id: b_id,
                                actor_location: a_pos,
                                target_location: b_pos,
                                last_interaction: if ab >= ba { ab } else { ba },
                            },
                        )
                    }
                }
            },
            None => None,
        }
    }
}

/// The pairs `a` forms with the first `k` individuals it sees, in that order.
pub open spec fn pairs_of(members: Seq<Member>, population: Seq<EntityPosition>, a: int, k: int) -> Seq<SocialPair>
    decreases k,
{
    if k <= 0 {
        Seq::empty()
    } else {
        let rest = pairs_of(members, population, a, k - 1);
        match pair_at(members, population, a, k - 1) {
            Some(p) => rest.push(p),
            None => rest,
        }
    }
}

/// The pairs formed by the first `n` individuals, in their order.
pub open spec fn social_pairs(members: Seq<Member>, population: Seq<EntityPosition>, n: int) -> Seq<SocialPair>
    decreases n,
{
    if n <= 0 {
        Seq::empty()
    } else {
        social_pairs(members, population, n - 1) + pairs_of(
            members,
            population,
            n - 1,
            members[n - 1].visible_entities@.len() as int,
        )
    }
}

fn contains_id(ids: &Vec<u32>, id: u32) -> (r: bool)
    ensures
        r == ids@.contains(id),
{
    let mut i: usize = 0;
    while i < ids.len()
        invariant
            i <= ids@.len(),
            forall|j: int| 0 <= j < i ==> ids@[j] != id,
        decreases ids@.len() - i,
    {
        if ids[i] == id {
            return true;
        }
        i += 1;
    }
    false
}

fn last_interaction_of(m: &Member, id: u32) -> (r: u64)
    requires
        ids_sorted(m.memory.known_entities@),
    ensures
        r == last_interaction_with(*m, id),
{
    match acquaintance_of(&m.memory.known_entities, id) {
        Some(known) => known.last_interaction_tick,
        None => 0,
    }
}

/// Finds every pair of individuals who stand within the social radius of each other,
/// see each other, and are alive and past infancy: each pair once, from the lower id,
/// in the order of the individuals and of what they see. Positions are those of
/// `population`, index by index.
pub fn social_pair_candidates(members: &Vec<Member>, population: &Vec<EntityPosition>) -> (r: Vec<SocialPair>)
    requires
        population_sound(members@),
    ensures
        r@ == social_pairs(members@, population@, members@.len() as int),
{
    let mut pairs: Vec<SocialPair> = Vec::new();
    let mut a: usize = 0;
    while a < members.len()
        invariant
            a <= members@.len(),
            population_sound(members@),
            pairs@ == social_pairs(members@, population@, a as int),
        decreases members@.len() - a,
    {
        let ghost start = pairs@;
        let mut k: usize = 0;
        while k < members[a].visible_entities.len()
            invariant
                a < members@.len(),
                k <= members@[a as int].visible_entities@.len(),
                population_sound(members@),
                pairs@ == start + pairs_of(members@, population@, a as int, k as int),
            decreases members@[a as int].visible_entities@.len() - k,
        {
            let actor = &members[a];
            let b_id = actor.visible_entities[k];
            let ghost spec_pair = pair_at(members@, population@, a as int, k as int);
            if actor.alive && !matches!(LifeStage::from_age_ticks(actor.age_ticks), LifeStage::Infant) && a
                < population.len() && actor.id < b_id {
                match find_member(members, b_id) {
                    Some(b) => {
                        if b < population.len() {
                            let a_pos = (population[a].x, population[a].y);
                            let b_pos = (population[b].x, population[b].y);
                            let distance: u64 = (if a_pos.0 >= b_pos.0 {
                                (a_pos.0 - b_pos.0) as u64
                            } else {
                                (b_pos.0 - a_pos.0) as u64
                            }) + (if a_pos.1 >= b_pos.1 {
                                (a_pos.1 - b_pos.1) as u64
                            } else {
                                (b_pos.1 - a_pos.1) as u64
                            });
                            let target = &members[b];
                            if distance <= SOCIAL_RADIUS as u64 && target.alive && !matches!(
                                LifeStage::from_age_ticks(target.age_ticks),
                                LifeStage::Infant
                            ) && contains_id(&target.visible_entities, actor.id) {
                                proof {
                                    assert(ids_sorted(members@[a as int].memory.known_entities@));
                                    assert(ids_sorted(members@[b as int].memory.known_entities@));
                                }
                                let ab = last_interaction_of(actor, b_id);
                                let ba = last_interaction_of(target, actor.id);
                                pairs.push(
                                    SocialPair {
                                        actor_index: a,
                                        target_index: b,
                                        actor_id: actor.id,
                                        target_id: b_id,
                                        actor_location: a_pos,
                                        target_location: b_pos,
                                        last_interaction: if ab >= ba {
                                            ab
                                        } else {
                                            ba
                                        },
                                    },
                                );
                            }
                        }
                    },
                    None => {},
                }
            }
            proof {
                assert(pairs@ =~= start + pairs_of(members@, population@, a as int, k + 1));
            }
            k += 1;
        }
        a += 1;
    }
    pairs
}

/// The pair is due: it never interacted, or at least `interval` ticks have passed.
pub open spec fn spec_interaction_due(last_interaction: u64, tick: u64, interval: u64) -> bool {
    last_interaction == 0 || (if tick >= last_interaction { tick - last_interaction } else { 0 }) >= interval
}

/// Whether a pair that last interacted at `last_interaction` may interact at `tick`,
/// given the interval that their personalities set.
pub fn interaction_due(last_interaction: u64, tick: u64, interval: u64) -> (r: bool)
    ensures
        r == spec_interaction_due(last_interaction, tick, interval),
{
    last_interaction == 0 || tick.saturating_sub(last_interaction) >= interval
}

/// The interaction a due pair has, with the affinity changes its personalities give;
/// `None` when the pair is not due.
pub fn pending_interaction(pair: SocialPair, tick: u64, interval: u64, actor_affinity_delta: i16, target_affinity_delta: i16) -> (r:
    Option<PendingInteraction>)
    ensures
        r == if spec_interaction_due(pair.last_interaction, tick, interval) {
            Some(PendingInteraction { pair, actor_affinity_delta, target_affinity_delta })
        } else {
            None
        },
{
    if interaction_due(pair.last_interaction, tick, interval) {
        Some(PendingInteraction { pair, actor_affinity_delta, target_affinity_delta })
    } else {
        None
    }
}

/// The memory of acquaintances after an interaction with `id`; unchanged when `id` is
/// unknown.
pub open spec fn recorded(known: Seq<KnownEntity>, id: u32, tick: u64, delta: i16) -> Seq<KnownEntity> {
    if exists|i: int| 0 <= i < known.len() && (#[trigger] known[i]).id == id {
        let i = choose|i: int| 0 <= i < known.len() && (#[trigger] known[i]).id == id;
        known.update(i, spec_after_interaction(known[i], tick, delta))
    } else {
        known
    }
}

/// What recording the interaction reports: `None` when `id` is unknown, otherwise the
/// band crossing, if any.
pub open spec fn recorded_change(known: Seq<KnownEntity>, id: u32, tick: u64, delta: i16) -> Option<Option<AffinityChangeRecord>> {
    match acquaintance(known, id) {
        Some(before) => {
            let after = spec_after_interaction(before, tick, delta);
            Some(
                if spec_affinity_band(before.affinity) != spec_affinity_band(after.affinity) {
                    Some(
                        AffinityChangeRecord {
                            target_id: id,
                            previous_affinity: before.affinity,
                            new_affinity: after.affinity,
                            delta: spec_affinity_delta(before.affinity, after.affinity),
                        },
                    )
                } else {
                    None
                },
            )
        },
        None => None,
    }
}

/// `after` is `before` having remembered an interaction with `id`: only its memory of
/// acquaintances changed.
pub open spec fn remembers_interaction(before: Member, after: Member, id: u32, tick: u64, delta: i16) -> bool {
    &&& after.memory.known_entities@ == recorded(before.memory.known_entities@, id, tick, delta)
    &&& after.memory.known_resources@ == before.memory.known_resources@
    &&& after.memory.known_chunks@ == before.memory.known_chunks@
    &&& after.memory.failed_exploration@ == before.memory.failed_exploration@
    &&& after == Member { memory: after.memory, ..before }
}

/// Remembering the pending interactions in turn: each side's acquaintance lists after
/// them, and the interactions that both sides could remember.
pub open spec fn interactions_applied(
    knowns: Seq<Seq<KnownEntity>>,
    pending: Seq<PendingInteraction>,
    tick: u64,
) -> (Seq<Seq<KnownEntity>>, Seq<SocialInteraction>)
    decreases pending.len(),
{
    if pending.len() == 0 {
        (knowns, Seq::empty())
    } else {
        let (ks, done) = interactions_applied(knowns, pending.drop_last(), tick);
        let p = pending.last();
        let a = p.pair.actor_index as int;
        let b = p.pair.target_index as int;
        let change_a = recorded_change(ks[a], p.pair.target_id, tick, p.actor_affinity_delta);
        let ks1 = ks.update(a, recorded(ks[a], p.pair.target_id, tick, p.actor_affinity_delta));
        let change_b = recorded_change(ks1[b], p.pair.actor_id, tick, p.target_affinity_delta);
        let ks2 = ks1.update(b, recorded(ks1[b], p.pair.actor_id, tick, p.target_affinity_delta));
        (
            ks2,
            match (change_a, change_b) {
                (Some(ca), Some(cb)) => done.push(
                    SocialInteraction {
                        actor_id: p.pair.actor_id,
                        target_id: p.pair.target_id,
                        location: p.pair.actor_location,
                        actor_location: p.pair.actor_location,
                        target_location: p.pair.target_location,
                        actor_affinity_delta: p.actor_affinity_delta,
                        target_affinity_delta: p.target_affinity_delta,
                        actor_affinity_change: ca,
                        target_affinity_change: cb,
                    },
                ),
                _ => done,
            },
        )
    }
}

pub proof fn lemma_recorded_matches(known: Seq<KnownEntity>, id: u32, tick: u64, delta: i16, after: Seq<KnownEntity>, r: Option<Option<AffinityChangeRecord>>)
    requires
        ids_sorted(known),
        r is None ==> after == known,
        r is Some ==> exists|i: int| #![trigger known[i]] 0 <= i < known.len() && {
            let before = known[i];
            let next = spec_after_interaction(before, tick, delta);
            &&& before.id == id
            &&& after == known.update(i, next)
            &&& r->0 == if spec_affinity_band(before.affinity) != spec_affinity_band(next.affinity) {
                Some(
                    AffinityChangeRecord {
                        target_id: id,
                        previous_affinity: before.affinity,
                        new_affinity: next.affinity,
                        delta: spec_affinity_delta(before.affinity, next.affinity),
                    },
                )
            } else {
                None
            }
        },
        (r is Some <==> exists|i: int| 0 <= i < known.len() && known[i].id == id),
    ensures
        after == recorded(known, id, tick, delta),
        r == recorded_change(known, id, tick, delta),
        ids_sorted(after),
{
    if r is Some {
        let i = choose|i: int| #![trigger known[i]] 0 <= i < known.len() && {
            let before = known[i];
            let next = spec_after_interaction(before, tick, delta);
            &&& before.id == id
            &&& after == known.update(i, next)
            &&& r->0 == if spec_affinity_band(before.affinity) != spec_affinity_band(next.affinity) {
                Some(
                    AffinityChangeRecord {
                        target_id: id,
                        previous_affinity: before.affinity,
                        new_affinity: next.affinity,
                        delta: spec_affinity_delta(before.affinity, next.affinity),
                    },
                )
            } else {
                None
            }
        };
        let k = choose|k: int| 0 <= k < known.len() && (#[trigger] known[k]).id == id;
        if k < i {
            assert(known[k].id < known[i].id);
        } else if k > i {
            assert(known[i].id < known[k].id);
        }
        assert forall|x: int, y: int| 0 <= x < y < after.len() implies after[x].id < after[y].id by {
            assert(after[x].id == known[x].id && after[y].id == known[y].id);
        }
    } else {
        assert(!exists|k: int| 0 <= k < known.len() && (#[trigger] known[k]).id == id);
    }
}

/// Has both sides of each pending interaction remember it, in turn, and reports the
/// interactions that both sides could remember, with the band crossings they caused.
pub fn apply_social_interactions(members: &mut Vec<Member>, pending: &Vec<PendingInteraction>, tick: u64) -> (r: Vec<
    SocialInteraction,
>)
    requires
        population_sound(old(members)@),
        forall|k: int| 0 <= k < pending@.len() ==> (#[trigger] pending@[k]).pair.actor_index < old(members)@.len()
            && pending@[k].pair.target_index < old(members)@.len(),
    ensures
        ({
            let (ks, done) = interactions_applied(knowns_of(old(members)@), pending@, tick);
            &&& knowns_of(final(members)@) == ks
            &&& r@ == done
        }),
        final(members)@.len() == old(members)@.len(),
        forall|i: int| 0 <= i < old(members)@.len() ==> {
            let before = #[trigger] old(members)@[i];
            let after = final(members)@[i];
            &&& after.memory.known_resources@ == before.memory.known_resources@
            &&& after.memory.known_chunks@ == before.memory.known_chunks@
            &&& after.memory.failed_exploration@ == before.memory.failed_exploration@
            &&& after == Member { memory: after.memory, ..before }
        },
        population_sound(final(members)@),
{
    let ghost before = members@;
    let mut done: Vec<SocialInteraction> = Vec::new();
    let mut k: usize = 0;
    while k < pending.len()
        invariant
            k <= pending@.len(),
            members@.len() == before.len(),
            forall|j: int| 0 <= j < pending@.len() ==> (#[trigger] pending@[j]).pair.actor_index < before.len()
                && pending@[j].pair.target_index < before.len(),
            population_sound(members@),
            ({
                let (ks, d) = interactions_applied(knowns_of(before), pending@.subrange(0, k as int), tick);
                &&& knowns_of(members@) == ks
                &&& done@ == d
            }),
            forall|i: int| 0 <= i < before.len() ==> {
                let b = #[trigger] before[i];
                let a = members@[i];
                &&& a.memory.known_resources@ == b.memory.known_resources@
                &&& a.memory.known_chunks@ == b.memory.known_chunks@
                &&& a.memory.failed_exploration@ == b.memory.failed_exploration@
                &&& a == Member { memory: a.memory, ..b }
            },
        decreases pending@.len() - k,
    {
        proof {
            assert(pending@.subrange(0, k + 1).drop_last() =~= pending@.subrange(0, k as int));
        }
        let p = pending[k];
        let a = p.pair.actor_index;
        let b = p.pair.target_index;
        let ghost s0 = members@;
        proof {
            assert(ids_sorted(s0[a as int].memory.known_entities@));
        }
        let change_a = members[a].memory.record_interaction(p.pair.target_id, tick, p.actor_affinity_delta);
        let ghost s1 = members@;
        proof {
            lemma_recorded_matches(s0[a as int].memory.known_entities@, p.pair.target_id, tick, p.actor_affinity_delta, s1[a as int].memory.known_entities@, change_a);
            assert(ids_sorted(s1[b as int].memory.known_entities@));
        }
        let change_b = members[b].memory.record_interaction(p.pair.actor_id, tick, p.target_affinity_delta);
        proof {
            lemma_recorded_matches(s1[b as int].memory.known_entities@, p.pair.actor_id, tick, p.target_affinity_delta, members@[b as int].memory.known_entities@, change_b);
        }
        if let (Some(ca), Some(cb)) = (change_a, change_b) {
            done.push(
                SocialInteraction {
                    actor_id: p.pair.actor_id,
                    target_id: p.pair.target_id,
                    location: p.pair.actor_location,
                    actor_location: p.pair.actor_location,
                    target_location: p.pair.target_location,
                    actor_affinity_delta: p.actor_affinity_delta,
                    target_affinity_delta: p.target_affinity_delta,
                    actor_affinity_change: ca,
                    target_affinity_change: cb,
                },
            );
        }
        proof {
            let (ks, d) = interactions_applied(knowns_of(before), pending@.subrange(0, k as int), tick);
            assert(knowns_of(s0) == ks);
            assert(knowns_of(members@) =~= ks.update(a as int, recorded(ks[a as int], p.pair.target_id, tick, p.actor_affinity_delta)).update(
                b as int,
                recorded(knowns_of(s1)[b as int], p.pair.actor_id, tick, p.target_affinity_delta),
            ));
            assert(knowns_of(s1) =~= ks.update(a as int, recorded(ks[a as int], p.pair.target_id, tick, p.actor_affinity_delta)));
            assert forall|x: int, y: int| 0 <= x < y < members@.len() implies members@[x].id < members@[y].id by {
                assert(members@[x].id == before[x].id && members@[y].id == before[y].id);
            }
            assert forall|i: int| 0 <= i < members@.len() implies ids_sorted(#[trigger] members@[i].memory.known_entities@) by {
                if i != a && i != b {
                    assert(members@[i] == s0[i]);
                }
            }
        }
        k += 1;
    }
    proof {
        assert(pending@.subrange(0, pending@.len() as int) =~= pending@);
    }
    done
}

/// How compatible two personalities are, as the partnership rule reads it: the discount
/// taken off the affinity threshold, and the compatibility in thousandths.
#[derive(Clone, Copy, Debug, PartialEq, Eq)]
pub struct PairCompatibility {
    pub discount: i16,
    pub per_mille: u16,
}

/// The event for an interaction.
pub open spec fn interaction_view(i: SocialInteraction, tick: u64) -> EventView {
    EventView {
        caused_by: None,
        tick,
        location: EventLocation { x: i.location.0, y: i.location.1 },
        actor_id: i.actor_id,
        target_id: Some(i.target_id),
        related: seq![i.actor_id, i.target_id],
        kind: SimulationEventKind::Interaction,
        cause: SimulationEventCause::MutualSocialContact,
        details: SimulationEventDetails::Interaction {
            actor_affinity_delta: i.actor_affinity_delta,
            target_affinity_delta: i.target_affinity_delta,
        },
    }
}

/// The event for a partnership that formed.
pub open spec fn formation_view(f: PartnershipFormation, location: (u32, u32), caused_by: Option<u64>, tick: u64) -> EventView {
    EventView {
        caused_by,
        tick,
        location: EventLocation { x: location.0, y: location.1 },
        actor_id: f.actor_id,
        target_id: Some(f.target_id),
        related: seq![f.actor_id, f.target_id],
        kind: SimulationEventKind::PartnershipFormed,
        cause: SimulationEventCause::MutualCommitment,
        details: SimulationEventDetails::PartnershipFormed {
            actor_affinity: f.actor_affinity,
            target_affinity: f.target_affinity,
            compatibility_per_mille: f.compatibility_per_mille,
        },
    }
}

/// The interaction's event and the band crossings it caused, with the first event's
/// identifier `id` as their cause.
pub open spec fn contact_views(i: SocialInteraction, id: u64, tick: u64) -> Seq<EventView> {
    let first = seq![interaction_view(i, tick)];
    let with_actor = match i.actor_affinity_change {
        Some(c) => first.push(
            affinity_change_view(i.actor_id, i.actor_location, c, SimulationEventCause::MutualSocialContact, Some(id), tick),
        ),
        None => first,
    };
    match i.target_affinity_change {
        Some(c) => with_actor.push(
            affinity_change_view(i.target_id, i.target_location, c, SimulationEventCause::MutualSocialContact, Some(id), tick),
        ),
        None => with_actor,
    }
}

/// What social recording reads and changes.
pub struct SocialWorld {
    pub members: Seq<Member>,
    pub households: Seq<Household>,
    pub next_household_id: u32,
    pub kept: Seq<(u64, EventView)>,
    pub next_id: u64,
}

/// Recording interaction `i` takes `pre` to `post`: its events are recorded; then a
/// partnership between the two ends if it should, or else one forms if it can, the
/// couple gets a shared household, and the formation is recorded.
pub open spec fn interaction_recorded(
    pre: SocialWorld,
    post: SocialWorld,
    i: SocialInteraction,
    compat: PairCompatibility,
    records: Seq<LineageRecord>,
    capacity: usize,
    tick: u64,
) -> bool {
    let id = pre.next_id;
    let contact = contact_views(i, id, tick);
    let views = match spec_dissolution(pre.members, i.actor_id, i.target_id) {
        Some(d) => contact.push(dissolution_view(d, i.location, SimulationEventCause::MutualSocialContact, Some(id), tick)),
        None => match spec_formation(pre.members, records, i.actor_id, i.target_id, compat.discount, compat.per_mille) {
            Some(f) => contact.push(formation_view(f, i.location, Some(id), tick)),
            None => contact,
        },
    };
    &&& post.kept == view_after_pushes(pre.kept, capacity, pre.next_id, views)
    &&& post.next_id == pre.next_id + views.len()
    &&& match spec_dissolution(pre.members, i.actor_id, i.target_id) {
        Some(d) => {
            &&& post.members == after_dissolution(pre.members, i.actor_id, i.target_id)
            &&& post.households == pre.households
            &&& post.next_household_id == pre.next_household_id
        },
        None => match spec_formation(pre.members, records, i.actor_id, i.target_id, compat.discount, compat.per_mille) {
            Some(f) => exists|shared: Option<u32>|
                household_formation(
                    after_formation(pre.members, i.actor_id, i.target_id),
                    pre.households,
                    pre.next_household_id,
                    post.members,
                    post.households,
                    post.next_household_id,
                    i.actor_id,
                    i.target_id,
                    tick,
                    shared,
                ),
            None => {
                &&& post.members == pre.members
                &&& post.households == pre.households
                &&& post.next_household_id == pre.next_household_id
            },
        },
    }
}

/// The social world of these values.
pub open spec fn world_of(
    members: Seq<Member>,
    households: Seq<Household>,
    next_household_id: u32,
    history: RecentEventHistory,
) -> SocialWorld {
    SocialWorld {
        members,
        households,
        next_household_id,
        kept: history.spec_view(),
        next_id: history.spec_next_id(),
    }
}

/// Records one interaction (see `interaction_recorded`).
pub fn record_social_interaction(
    members: &mut Vec<Member>,
    households: &mut Vec<Household>,
    next_household_id: &mut u32,
    genealogy: &Genealogy,
    history: &mut RecentEventHistory,
    interaction: SocialInteraction,
    compat: PairCompatibility,
    tick: u64,
)
    requires
        population_sound(old(members)@),
        households_by_id(old(households)@),
        ids_below(old(households)@, *old(next_household_id)),
        genealogy.wf(),
        old(history).wf(),
        ids_left(*old(history), 4),
    ensures
        population_sound(final(members)@),
        households_by_id(final(households)@),
        ids_below(final(households)@, *final(next_household_id)),
        final(history).wf(),
        final(history).spec_capacity() == old(history).spec_capacity(),
        interaction_recorded(
            world_of(old(members)@, old(households)@, *old(next_household_id), *old(history)),
            world_of(final(members)@, final(households)@, *final(next_household_id), *final(history)),
            interaction,
            compat,
            genealogy.spec_records(),
            old(history).spec_capacity(),
            tick,
        ),
{
    let ghost h0 = history.spec_view();
    let ghost next0 = history.spec_next_id();
    let ghost cap = history.spec_capacity();
    let ghost m0 = members@;
    let event = PendingSimulationEvent {
        caused_by_event_id: None,
        tick,
        location: EventLocation { x: interaction.location.0, y: interaction.location.1 },
        actor_id: interaction.actor_id,
        target_id: Some(interaction.target_id),
        related_entity_ids: vec![interaction.actor_id, interaction.target_id],
        kind: SimulationEventKind::Interaction,
        cause: SimulationEventCause::MutualSocialContact,
        details: SimulationEventDetails::Interaction {
            actor_affinity_delta: interaction.actor_affinity_delta,
            target_affinity_delta: interaction.target_affinity_delta,
        },
    };
    proof {
        assert(pending_view(event) =~= interaction_view(interaction, tick));
    }
    let event_id = history.push(event);
    let ghost mut pushed: Seq<EventView> = seq![interaction_view(interaction, tick)];
    proof {
        lemma_event_id_of(event_id);
        lemma_view_after_no_pushes(h0, cap, next0);
        lemma_view_after_pushes_snoc(h0, cap, next0, Seq::empty(), interaction_view(interaction, tick));
        assert(Seq::<EventView>::empty().push(interaction_view(interaction, tick)) =~= pushed);
    }
    if let Some(change) = interaction.actor_affinity_change {
        let _ = record_affinity_change(
            history,
            interaction.actor_id,
            interaction.actor_location,
            change,
            SimulationEventCause::MutualSocialContact,
            Some(event_id),
            tick,
        );
        proof {
            let v = affinity_change_view(interaction.actor_id, interaction.actor_location, change, SimulationEventCause::MutualSocialContact, Some(next0), tick);
            lemma_view_after_pushes_snoc(h0, cap, next0, pushed, v);
            pushed = pushed.push(v);
        }
    }
    if let Some(change) = interaction.target_affinity_change {
        let _ = record_affinity_change(
            history,
            interaction.target_id,
            interaction.target_location,
            change,
            SimulationEventCause::MutualSocialContact,
            Some(event_id),
            tick,
        );
        proof {
            let v = affinity_change_view(interaction.target_id, interaction.target_location, change, SimulationEventCause::MutualSocialContact, Some(next0), tick);
            lemma_view_after_pushes_snoc(h0, cap, next0, pushed, v);
            pushed = pushed.push(v);
        }
    }
    proof {
        assert(pushed =~= contact_views(interaction, next0, tick));
    }
    match try_dissolve(members, interaction.actor_id, interaction.target_id) {
        Some(dissolution) => {
            let _ = record_partnership_dissolution(
                history,
                dissolution,
                interaction.location,
                SimulationEventCause::MutualSocialContact,
                Some(event_id),
                tick,
            );
            proof {
                let v = dissolution_view(dissolution, interaction.location, SimulationEventCause::MutualSocialContact, Some(next0), tick);
                lemma_view_after_pushes_snoc(h0, cap, next0, pushed, v);
            }
        },
        None => {
            let ghost m1 = members@;
            match try_form(members, genealogy, interaction.actor_id, interaction.target_id, compat.discount, compat.per_mille) {
                Some(formation) => {
                    let ghost m2 = members@;
                    let ghost hh0 = households@;
                    let ghost n0 = *next_household_id;
                    proof {
                        assert(members_by_id(m2));
                    }
                    let shared = form_for_partnership(
                        members,
                        households,
                        next_household_id,
                        formation.actor_id,
                        formation.target_id,
                        tick,
                    );
                    proof {
                        assert(household_formation(
                            after_formation(m0, interaction.actor_id, interaction.target_id),
                            hh0,
                            n0,
                            members@,
                            households@,
                            *next_household_id,
                            interaction.actor_id,
                            interaction.target_id,
                            tick,
                            shared,
                        ));
                        lemma_household_change_sound(m2, members@);
                    }
                    let event = PendingSimulationEvent {
                        caused_by_event_id: Some(event_id),
                        tick,
                        location: EventLocation { x: interaction.location.0, y: interaction.location.1 },
                        actor_id: formation.actor_id,
                        target_id: Some(formation.target_id),
                        related_entity_ids: vec![formation.actor_id, formation.target_id],
                        kind: SimulationEventKind::PartnershipFormed,
                        cause: SimulationEventCause::MutualCommitment,
                        details: SimulationEventDetails::PartnershipFormed {
                            actor_affinity: formation.actor_affinity,
                            target_affinity: formation.target_affinity,
                            compatibility_per_mille: formation.compatibility_per_mille,
                        },
                    };
                    proof {
                        assert(pending_view(event) =~= formation_view(formation, interaction.location, Some(next0), tick));
                    }
                    let _ = history.push(event);
                    proof {
                        let v = formation_view(formation, interaction.location, Some(next0), tick);
                        lemma_view_after_pushes_snoc(h0, cap, next0, pushed, v);
                        let pre = world_of(old(members)@, old(households)@, *old(next_household_id), *old(history));
                        let post = world_of(members@, households@, *next_household_id, *history);
                        // The formation is stated over the individuals as they were before the call.
                        assert(household_formation(
                            after_formation(pre.members, interaction.actor_id, interaction.target_id),
                            pre.households,
                            pre.next_household_id,
                            post.members,
                            post.households,
                            post.next_household_id,
                            interaction.actor_id,
                            interaction.target_id,
                            tick,
                            shared,
                        ));
                    }
                },
                None => {},
            }
        },
    }
}

proof fn lemma_recorded_at_most_four(
    pre: SocialWorld,
    post: SocialWorld,
    i: SocialInteraction,
    compat: PairCompatibility,
    records: Seq<LineageRecord>,
    capacity: usize,
    tick: u64,
)
    requires
        interaction_recorded(pre, post, i, compat, records, capacity, tick),
    ensures
        post.next_id <= pre.next_id + 4,
{
    assert(contact_views(i, pre.next_id, tick).len() <= 3);
}

/// Recording interactions one after another: `worlds` are the states in between, the
/// first before any and the last after all.
pub open spec fn interactions_recorded(
    worlds: Seq<SocialWorld>,
    interactions: Seq<SocialInteraction>,
    compat: Seq<PairCompatibility>,
    records: Seq<LineageRecord>,
    capacity: usize,
    tick: u64,
) -> bool {
    &&& worlds.len() == interactions.len() + 1
    &&& forall|k: int|
        0 <= k < interactions.len() ==> #[trigger] interaction_recorded(
            worlds[k],
            worlds[k + 1],
            interactions[k],
            compat[k],
            records,
            capacity,
            tick,
        )
}

/// Records every interaction in turn (see `interaction_recorded`), each pair read with
/// its compatibility.
pub fn record_social_interactions(
    members: &mut Vec<Member>,
    households: &mut Vec<Household>,
    next_household_id: &mut u32,
    genealogy: &Genealogy,
    history: &mut RecentEventHistory,
    interactions: &Vec<SocialInteraction>,
    compat: &Vec<PairCompatibility>,
    tick: u64,
)
    requires
        population_sound(old(members)@),
        households_by_id(old(households)@),
        ids_below(old(households)@, *old(next_household_id)),
        genealogy.wf(),
        old(history).wf(),
        compat@.len() == interactions@.len(),
        ids_left(*old(history), 4 * interactions@.len() as int),
    ensures
        population_sound(final(members)@),
        households_by_id(final(households)@),
        ids_below(final(households)@, *final(next_household_id)),
        final(history).wf(),
        final(history).spec_capacity() == old(history).spec_capacity(),
        exists|worlds: Seq<SocialWorld>|
            interactions_recorded(worlds, interactions@, compat@, genealogy.spec_records(), old(history).spec_capacity(), tick)
                && worlds[0] == world_of(old(members)@, old(households)@, *old(next_household_id), *old(history))
                && worlds.last() == world_of(final(members)@, final(households)@, *final(next_household_id), *final(history)),
{
    let ghost next0 = history.spec_next_id();
    let ghost cap = history.spec_capacity();
    let ghost mut worlds: Seq<SocialWorld> = seq![world_of(members@, households@, *next_household_id, *history)];
    let mut k: usize = 0;
    while k < interactions.len()
        invariant
            k <= interactions@.len(),
            compat@.len() == interactions@.len(),
            population_sound(members@),
            households_by_id(households@),
            ids_below(households@, *next_household_id),
            genealogy.wf(),
            history.wf(),
            history.spec_capacity() == cap,
            next0 + 4 * interactions@.len() < u64::MAX,
            history.spec_next_id() <= next0 + 4 * k,
            worlds.len() == k + 1,
            worlds[0] == world_of(old(members)@, old(households)@, *old(next_household_id), *old(history)),
            worlds[k as int] == world_of(members@, households@, *next_household_id, *history),
            forall|j: int|
                0 <= j < k ==> #[trigger] interaction_recorded(
                    worlds[j],
                    worlds[j + 1],
                    interactions@[j],
                    compat@[j],
                    genealogy.spec_records(),
                    cap,
                    tick,
                ),
        decreases interactions@.len() - k,
    {
        let ghost pre = world_of(members@, households@, *next_household_id, *history);
        record_social_interaction(members, households, next_household_id, genealogy, history, interactions[k], compat[k], tick);
        proof {
            let post = world_of(members@, households@, *next_household_id, *history);
            lemma_recorded_at_most_four(pre, post, interactions@[k as int], compat@[k as int], genealogy.spec_records(), cap, tick);
            let before = worlds;
            worlds = worlds.push(post);
            assert forall|j: int| 0 <= j < k + 1 implies #[trigger] interaction_recorded(
                worlds[j],
                worlds[j + 1],
                interactions@[j],
                compat@[j],
                genealogy.spec_records(),
                cap,
                tick,
            ) by {
                if j < k {
                    assert(worlds[j] == before[j] && worlds[j + 1] == before[j + 1]);
                }
            }
        }
        k += 1;
    }
    proof {
        assert(interactions_recorded(worlds, interactions@, compat@, genealogy.spec_records(), cap, tick));
        assert(worlds.last() == world_of(members@, households@, *next_household_id, *history));
        assert(interactions_recorded(worlds, interactions@, compat@, genealogy.spec_records(), cap, tick)
            && worlds[0] == world_of(old(members)@, old(households)@, *old(next_household_id), *old(history))
            && worlds.last() == world_of(members@, households@, *next_household_id, *history));
    }
}

/// `after` is `before` with every relationship given one daily decay pass at `tick`.
pub open spec fn decayed_members(before: Seq<Member>, after: Seq<Member>, tick: u64) -> bool {
    &&& after.len() == before.len()
    &&& forall|i: int| 0 <= i < before.len() ==> {
        let b = #[trigger] before[i];
        let a = after[i];
        &&& a == Member { memory: a.memory, ..b }
        &&& a.memory.known_entities@ == b.memory.known_entities@.map_values(|k: KnownEntity| spec_decayed(k, tick))
        &&& a.memory.known_resources@ == b.memory.known_resources@
        &&& a.memory.known_chunks@ == b.memory.known_chunks@
        &&& a.memory.failed_exploration@ == b.memory.failed_exploration@
    }
}

/// The band-crossing events of the decay pass over the first `n` individuals, each at
/// the individual's position.
pub open spec fn decay_views(members: Seq<Member>, tick: u64, n: int) -> Seq<EventView>
    decreases n,
{
    if n <= 0 {
        Seq::empty()
    } else {
        let m = members[n - 1];
        decay_views(members, tick, n - 1) + spec_decay_changes(m.memory.known_entities@, tick).map_values(
            |c: AffinityChangeRecord|
                affinity_change_view(m.id, (m.x, m.y), c, SimulationEventCause::RelationshipDecay, None, tick),
        )
    }
}

/// Where `id` stands, or the origin when not listed.
pub open spec fn position_of(members: Seq<Member>, id: u32) -> (u32, u32) {
    match member_index(members, id) {
        Some(i) => (members[i].x, members[i].y),
        None => (0, 0),
    }
}

/// The events of partnerships ended by decay, each where its first partner stands.
pub open spec fn decay_dissolution_views(members: Seq<Member>, ds: Seq<PartnershipDissolution>, tick: u64) -> Seq<EventView> {
    ds.map_values(
        |d: PartnershipDissolution|
            dissolution_view(d, position_of(members, d.actor_id), SimulationEventCause::RelationshipDecay, None, tick),
    )
}

/// Acquaintances remembered by the first `n` individuals.
pub open spec fn acquaintance_count(members: Seq<Member>, n: int) -> int
    decreases n,
{
    if n <= 0 {
        0
    } else {
        acquaintance_count(members, n - 1) + members[n - 1].memory.known_entities@.len()
    }
}

proof fn lemma_decay_changes_len(known: Seq<KnownEntity>, tick: u64)
    ensures
        spec_decay_changes(known, tick).len() <= known.len(),
    decreases known.len(),
{
    if known.len() > 0 {
        lemma_decay_changes_len(known.drop_last(), tick);
    }
}

proof fn lemma_partner_pairs_len(members: Seq<Member>)
    ensures
        partner_pairs(members).len() <= members.len(),
    decreases members.len(),
{
    if members.len() > 0 {
        lemma_partner_pairs_len(members.drop_last());
    }
}

proof fn lemma_dissolve_all_len(members: Seq<Member>, pairs: Seq<(u32, u32)>)
    ensures
        dissolve_all(members, pairs).1.len() <= pairs.len(),
    decreases pairs.len(),
{
    if pairs.len() > 0 {
        lemma_dissolve_all_len(members, pairs.drop_last());
    }
}

proof fn lemma_partner_pairs_agree(a: Seq<Member>, b: Seq<Member>)
    requires
        a.len() == b.len(),
        forall|i: int| 0 <= i < a.len() ==> (#[trigger] a[i]).id == b[i].id && a[i].partner_id == b[i].partner_id,
    ensures
        partner_pairs(a) == partner_pairs(b),
    decreases a.len(),
{
    if a.len() > 0 {
        lemma_partner_pairs_agree(a.drop_last(), b.drop_last());
        assert(a.last().id == b.last().id && a.last().partner_id == b.last().partner_id);
    }
}

/// Once a day (when `tick` is a whole day), cools every relationship without recent
/// interaction toward neutral and records each band crossing where the individual stands,
/// then ends the partnerships that cooled too far and records those where the first
/// partner stands. Nothing happens on other ticks.
pub fn run_daily_relationship_decay(members: &mut Vec<Member>, history: &mut RecentEventHistory, tick: u64)
    requires
        population_sound(old(members)@),
        old(history).wf(),
        ids_left(*old(history), acquaintance_count(old(members)@, old(members)@.len() as int) + old(members)@.len()),
    ensures
        population_sound(final(members)@),
        final(history).wf(),
        final(history).spec_capacity() == old(history).spec_capacity(),
        tick % crate::time::TICKS_PER_DAY != 0 ==> final(members)@ == old(members)@ && final(history).spec_view()
            == old(history).spec_view() && final(history).spec_next_id() == old(history).spec_next_id(),
        tick % crate::time::TICKS_PER_DAY == 0 ==> exists|mid: Seq<Member>|
            decayed_members(old(members)@, mid, tick) && {
                let (ms, ds) = dissolve_all(mid, partner_pairs(mid));
                let views = decay_views(old(members)@, tick, old(members)@.len() as int) + decay_dissolution_views(ms, ds, tick);
                &&& final(members)@ == ms
                &&& final(history).spec_view() == view_after_pushes(
                    old(history).spec_view(),
                    old(history).spec_capacity(),
                    old(history).spec_next_id(),
                    views,
                )
                &&& final(history).spec_next_id() == old(history).spec_next_id() + views.len()
            },
{
    if tick % crate::time::TICKS_PER_DAY != 0 {
        return;
    }
    let ghost m0 = members@;
    let ghost h0 = history.spec_view();
    let ghost next0 = history.spec_next_id();
    let ghost cap = history.spec_capacity();
    let ghost mut pushed: Seq<EventView> = Seq::empty();
    proof {
        lemma_view_after_no_pushes(h0, cap, next0);
        lemma_acquaintance_count_monotone(m0, 0, m0.len() as int);
    }
    let mut i: usize = 0;
    while i < members.len()
        invariant
            i <= members@.len(),
            members@.len() == m0.len(),
            population_sound(m0),
            history.wf(),
            history.spec_capacity() == cap,
            next0 + acquaintance_count(m0, m0.len() as int) + m0.len() < u64::MAX,
            pushed == decay_views(m0, tick, i as int),
            pushed.len() <= acquaintance_count(m0, i as int),
            acquaintance_count(m0, i as int) <= acquaintance_count(m0, m0.len() as int),
            history.spec_view() == view_after_pushes(h0, cap, next0, pushed),
            history.spec_next_id() == next0 + pushed.len(),
            forall|j: int| 0 <= j < m0.len() ==> {
                let b = #[trigger] m0[j];
                let a = members@[j];
                &&& a == Member { memory: a.memory, ..b }
                &&& a.memory.known_resources@ == b.memory.known_resources@
                &&& a.memory.known_chunks@ == b.memory.known_chunks@
                &&& a.memory.failed_exploration@ == b.memory.failed_exploration@
                &&& (j < i ==> a.memory.known_entities@ == b.memory.known_entities@.map_values(|k: KnownEntity| spec_decayed(k, tick)))
                &&& (j >= i ==> a.memory.known_entities@ == b.memory.known_entities@)
            },
        decreases m0.len() - i,
    {
        let actor_id = members[i].id;
        let location = (members[i].x, members[i].y);
        let ghost before_i = members@[i as int].memory.known_entities@;
        let changes = members[i].memory.decay_relationships(tick);
        proof {
            assert(members@[i as int].memory.known_entities@ =~= before_i.map_values(|k: KnownEntity| spec_decayed(k, tick)));
            lemma_decay_changes_len(before_i, tick);
            assert(acquaintance_count(m0, i + 1) == acquaintance_count(m0, i as int) + before_i.len());
            lemma_acquaintance_count_monotone(m0, i + 1, m0.len() as int);
        }
        let ghost start = pushed;
        let mut c: usize = 0;
        while c < changes.len()
            invariant
                c <= changes@.len(),
                history.wf(),
                history.spec_capacity() == cap,
                next0 + acquaintance_count(m0, m0.len() as int) + m0.len() < u64::MAX,
                changes@.len() <= before_i.len(),
                start.len() + changes@.len() <= acquaintance_count(m0, m0.len() as int),
                pushed == start + changes@.subrange(0, c as int).map_values(
                    |ch: AffinityChangeRecord|
                        affinity_change_view(actor_id, location, ch, SimulationEventCause::RelationshipDecay, None, tick),
                ),
                history.spec_view() == view_after_pushes(h0, cap, next0, pushed),
                history.spec_next_id() == next0 + pushed.len(),
            decreases changes@.len() - c,
        {
            let _ = record_affinity_change(history, actor_id, location, changes[c], SimulationEventCause::RelationshipDecay, None, tick);
            proof {
                let v = affinity_change_view(actor_id, location, changes@[c as int], SimulationEventCause::RelationshipDecay, None, tick);
                lemma_view_after_pushes_snoc(h0, cap, next0, pushed, v);
                pushed = pushed.push(v);
                assert(pushed =~= start + changes@.subrange(0, c + 1).map_values(
                    |ch: AffinityChangeRecord|
                        affinity_change_view(actor_id, location, ch, SimulationEventCause::RelationshipDecay, None, tick),
                ));
            }
            c += 1;
        }
        proof {
            assert(changes@.subrange(0, changes@.len() as int) =~= changes@);
            assert(pushed =~= decay_views(m0, tick, i + 1));
        }
        i += 1;
    }
    let ghost mid = members@;
    proof {
        assert(decayed_members(m0, mid, tick));
        assert forall|j: int| 0 <= j < mid.len() implies (#[trigger] mid[j]).id == m0[j].id && mid[j].partner_id == m0[j].partner_id by {}
        assert(members_by_id(mid)) by {
            assert forall|x: int, y: int| 0 <= x < y < mid.len() implies mid[x].id < mid[y].id by {
                assert(mid[x].id == m0[x].id && mid[y].id == m0[y].id);
            }
        }
        assert forall|j: int| 0 <= j < mid.len() implies ids_sorted(#[trigger] mid[j].memory.known_entities@) by {
            lemma_decay_keeps_ids(m0[j].memory.known_entities@, tick);
        }
        lemma_partner_pairs_len(mid);
        lemma_dissolve_all_len(mid, partner_pairs(mid));
    }
    let dissolutions = dissolve_unhealthy(members);
    let ghost decay_part = pushed;
    let mut d: usize = 0;
    while d < dissolutions.len()
        invariant
            d <= dissolutions@.len(),
            history.wf(),
            history.spec_capacity() == cap,
            population_sound(members@),
            next0 + acquaintance_count(m0, m0.len() as int) + m0.len() < u64::MAX,
            decay_part.len() <= acquaintance_count(m0, m0.len() as int),
            dissolutions@.len() <= m0.len(),
            pushed == decay_part + decay_dissolution_views(members@, dissolutions@.subrange(0, d as int), tick),
            history.spec_view() == view_after_pushes(h0, cap, next0, pushed),
            history.spec_next_id() == next0 + pushed.len(),
        decreases dissolutions@.len() - d,
    {
        let dissolution = dissolutions[d];
        let location = match find_member(members, dissolution.actor_id) {
            Some(index) => (members[index].x, members[index].y),
            None => (0, 0),
        };
        let _ = record_partnership_dissolution(history, dissolution, location, SimulationEventCause::RelationshipDecay, None, tick);
        proof {
            let v = dissolution_view(dissolution, location, SimulationEventCause::RelationshipDecay, None, tick);
            assert(location == position_of(members@, dissolution.actor_id));
            lemma_view_after_pushes_snoc(h0, cap, next0, pushed, v);
            pushed = pushed.push(v);
            assert(pushed =~= decay_part + decay_dissolution_views(members@, dissolutions@.subrange(0, d + 1), tick));
        }
        d += 1;
    }
    proof {
        assert(dissolutions@.subrange(0, dissolutions@.len() as int) =~= dissolutions@);
        let (ms, ds) = dissolve_all(mid, partner_pairs(mid));
        assert(decayed_members(m0, mid, tick) && {
            let views = decay_views(m0, tick, m0.len() as int) + decay_dissolution_views(ms, ds, tick);
            &&& members@ == ms
            &&& history.spec_view() == view_after_pushes(h0, cap, next0, views)
            &&& history.spec_next_id() == next0 + views.len()
        });
    }
}

proof fn lemma_acquaintance_count_monotone(members: Seq<Member>, a: int, b: int)
    requires
        0 <= a <= b,
    ensures
        acquaintance_count(members, a) <= acquaintance_count(members, b),
    decreases b - a,
{
    if a < b {
        lemma_acquaintance_count_monotone(members, a, b - 1);
    }
}

proof fn lemma_decay_keeps_ids(known: Seq<KnownEntity>, tick: u64)
    requires
        ids_sorted(known),
    ensures
        ids_sorted(known.map_values(|k: KnownEntity| spec_decayed(k, tick))),
{
    let after = known.map_values(|k: KnownEntity| spec_decayed(k, tick));
    assert forall|x: int, y: int| 0 <= x < y < after.len() implies after[x].id < after[y].id by {
        assert(after[x].id == known[x].id && after[y].id == known[y].id);
    }
}

/// A change of households only keeps individuals listed by id with sorted memories.
proof fn lemma_household_change_sound(before: Seq<Member>, after: Seq<Member>)
    requires
        population_sound(before),
        members_by_id(after),
        after.len() == before.len(),
        forall|j: int| 0 <= j < before.len() ==> (#[trigger] after[j]).memory == before[j].memory || after[j] == before[j],
    ensures
        population_sound(after),
{
    assert forall|i: int| 0 <= i < after.len() implies ids_sorted(#[trigger] after[i].memory.known_entities@) by {
        assert(after[i].memory == before[i].memory);
    }
}

} // verus!
