//! Sharing food: what the willingness rule reads, and what a share or a refusal does to
//! the two individuals and to the recent history.
use vstd::prelude::*;
use crate::events::{
    pending_view, view_after_pushes, EventId, EventLocation, EventView, PendingSimulationEvent, RecentEventHistory,
    SimulationEventCause, SimulationEventDetails, SimulationEventKind, lemma_event_id_of, lemma_view_after_no_pushes,
    lemma_view_after_pushes_snoc,
};
use crate::households::{find_member, member_index, members_by_id, Member};
use crate::inventory::ItemKind;
use crate::mind::{ids_sorted, AffinityChangeRecord};
use crate::partnerships::{
    acquaintance, acquaintance_of, dissolution_in, knowns_of, lemma_dissolution_in_agrees, population_sound, try_dissolve,
};
use crate::records::{affinity_change_view, dissolution_view, ids_left, record_affinity_change, record_partnership_dissolution};
use crate::social::{recorded, recorded_change};
use crate::ties::{close_relationship_role_between, spec_close_role, CloseRelationshipRole, RelationshipIdentity};
use crate::transfers::{held, room, shifted, spec_transfer_amount, transfer_item};

verus! {

/// Affinity the receiver gains toward a giver.
pub const GRATITUDE_DELTA: i16 = 20;
/// Affinity the refused loses toward the one who refused.
pub const RESENTMENT_DELTA: i16 = -15;

/// One individual offering food to another.
#[derive(Clone, Copy, Debug, PartialEq, Eq)]
pub struct FoodShareAttempt {
    pub actor_id: u32,
    pub target_id: u32,
    pub actor_location: (u32, u32),
    pub amount: u16,
}

/// What came of an attempt: whether the giver was willing and how much moved.
#[derive(Clone, Copy, Debug, PartialEq, Eq)]
pub struct FoodShareOutcome {
    pub attempt: FoodShareAttempt,
    pub willing: bool,
    pub moved: u16,
}

/// What the willingness rule reads, besides the giver's cooperativeness: whether the
/// receiver is the giver's dependent, the giver's affinity toward the receiver (0 when
/// unknown), and the receiver's role for the giver.
#[derive(Clone, Copy, Debug, PartialEq, Eq)]
pub struct ShareInputs {
    pub target_is_dependent: bool,
    pub affinity: i16,
    pub role: CloseRelationshipRole,
}

/// Who an individual is for close ties.
pub open spec fn identity_of(m: Member) -> RelationshipIdentity {
    RelationshipIdentity { id: m.id, partner_id: m.partner_id, mother_id: m.mother_id, father_id: m.father_id }
}

/// The inputs of the willingness rule for `attempt`, when both individuals are listed.
pub open spec fn spec_share_inputs(members: Seq<Member>, attempt: FoodShareAttempt) -> Option<ShareInputs> {
    match (member_index(members, attempt.actor_id), member_index(members, attempt.target_id)) {
        (Some(a), Some(t)) => Some(
            ShareInputs {
                target_is_dependent: members[t].caregiver_id == Some(attempt.actor_id),
                affinity: match acquaintance(members[a].memory.known_entities@, attempt.target_id) {
                    Some(k) => k.affinity,
                    None => 0,
                },
                role: spec_close_role(identity_of(members[a]), identity_of(members[t])),
            },
        ),
        _ => None,
    }
}

/// Gathers what the willingness rule reads for `attempt`; `None` when either individual
/// is not listed, in which case the attempt is dropped.
pub fn food_share_inputs(members: &Vec<Member>, attempt: FoodShareAttempt) -> (r: Option<ShareInputs>)
    requires
        population_sound(members@),
    ensures
        r == spec_share_inputs(members@, attempt),
{
    let actor_index = match find_member(members, attempt.actor_id) {
        Some(index) => index,
        None => {
            return None;
        },
    };
    let target_index = match find_member(members, attempt.target_id) {
        Some(index) => index,
        None => {
            return None;
        },
    };
    let actor = &members[actor_index];
    let target = &members[target_index];
    let target_is_dependent = match target.caregiver_id {
        Some(c) => c == attempt.actor_id,
        None => false,
    };
    proof {
        assert(ids_sorted(members@[actor_index as int].memory.known_entities@));
    }
    let affinity = match acquaintance_of(&actor.memory.known_entities, attempt.target_id) {
        Some(known) => known.affinity,
        None => 0,
    };
    let role = close_relationship_role_between(
        RelationshipIdentity { id: actor.id, partner_id: actor.partner_id, mother_id: actor.mother_id, father_id: actor.father_id },
        RelationshipIdentity {
            id: target.id,
            partner_id: target.partner_id,
            mother_id: target.mother_id,
            father_id: target.father_id,
        },
    );
    Some(ShareInputs { target_is_dependent, affinity, role })
}

/// The event for a share (`moved > 0`) or a refusal.
pub open spec fn share_view(attempt: FoodShareAttempt, moved: u16, tick: u64) -> EventView {
    EventView {
        caused_by: None,
        tick,
        location: EventLocation { x: attempt.actor_location.0, y: attempt.actor_location.1 },
        actor_id: attempt.actor_id,
        target_id: Some(attempt.target_id),
        related: seq![attempt.actor_id, attempt.target_id],
        kind: if moved > 0 { SimulationEventKind::FoodShared } else { SimulationEventKind::FoodShareRefused },
        cause: if moved > 0 { SimulationEventCause::FoodShared } else { SimulationEventCause::FoodShareRefused },
        details: if moved > 0 {
            SimulationEventDetails::FoodShared { amount: moved }
        } else {
            SimulationEventDetails::FoodShareRefused
        },
    }
}

/// The events of settling an attempt whose first event gets identifier `first_id`: the
/// share or refusal, the receiver's band crossing if any, and, after a refusal, the end
/// of their partnership if it ends.
pub open spec fn settle_views(
    attempt: FoodShareAttempt,
    moved: u16,
    change: Option<AffinityChangeRecord>,
    dissolution: Option<crate::partnerships::PartnershipDissolution>,
    target_location: (u32, u32),
    first_id: u64,
    tick: u64,
) -> Seq<EventView> {
    let cause = if moved > 0 { SimulationEventCause::FoodShared } else { SimulationEventCause::FoodShareRefused };
    let first = seq![share_view(attempt, moved, tick)];
    let with_change = match change {
        Some(c) => first.push(affinity_change_view(attempt.target_id, target_location, c, cause, Some(first_id), tick)),
        None => first,
    };
    match dissolution {
        Some(d) => with_change.push(dissolution_view(d, target_location, cause, Some(first_id), tick)),
        None => with_change,
    }
}

/// Settles `attempt` given whether the giver was willing: a willing giver hands over as
/// much food as it holds and the receiver can carry; when something moved the receiver
/// grows grateful, otherwise it resents the giver and a partnership between them may
/// end. Every step is recorded. `None`, with nothing changed, when either individual is
/// not listed.
pub fn settle_food_share(
    members: &mut Vec<Member>,
    history: &mut RecentEventHistory,
    attempt: FoodShareAttempt,
    willing: bool,
    tick: u64,
) -> (r: Option<FoodShareOutcome>)
    requires
        population_sound(old(members)@),
        old(history).wf(),
        ids_left(*old(history), 3),
    ensures
        population_sound(final(members)@),
        final(history).wf(),
        final(history).spec_capacity() == old(history).spec_capacity(),
        (member_index(old(members)@, attempt.actor_id) is None || member_index(old(members)@, attempt.target_id) is None)
            ==> r is None && final(members)@ == old(members)@ && final(history).spec_view() == old(history).spec_view()
            && final(history).spec_next_id() == old(history).spec_next_id(),
        member_index(old(members)@, attempt.actor_id) matches Some(a) ==> member_index(old(members)@, attempt.target_id) matches Some(t) ==> {
            let moved = if willing {
                spec_transfer_amount(old(members)@, attempt.actor_id, attempt.target_id, ItemKind::Food, attempt.amount)
            } else {
                0
            };
            let delta = if moved > 0 { GRATITUDE_DELTA } else { RESENTMENT_DELTA };
            let target_known = old(members)@[t].memory.known_entities@;
            let knowns = knowns_of(old(members)@).update(t, recorded(target_known, attempt.actor_id, tick, delta));
            let change = match recorded_change(target_known, attempt.actor_id, tick, delta) {
                Some(c) => c,
                None => None,
            };
            let dissolution = if moved > 0 {
                None
            } else {
                dissolution_in(old(members)@, knowns, attempt.target_id, attempt.actor_id)
            };
            let views = settle_views(
                attempt,
                moved as u16,
                change,
                dissolution,
                (old(members)@[t].x, old(members)@[t].y),
                old(history).spec_next_id(),
                tick,
            );
            &&& r == Some(FoodShareOutcome { attempt, willing, moved: moved as u16 })
            &&& knowns_of(final(members)@) == knowns
            &&& final(members)@.len() == old(members)@.len()
            &&& forall|j: int| 0 <= j < old(members)@.len() ==> {
                let before = #[trigger] old(members)@[j];
                let after = final(members)@[j];
                &&& after.memory.known_resources@ == before.memory.known_resources@
                &&& after.memory.known_chunks@ == before.memory.known_chunks@
                &&& after.memory.failed_exploration@ == before.memory.failed_exploration@
                &&& after == Member {
                    inventory: after.inventory,
                    memory: after.memory,
                    partner_id: if dissolution is Some && (j == a || j == t) {
                        None
                    } else {
                        before.partner_id
                    },
                    ..before
                }
                &&& (j != a && j != t ==> after.inventory == before.inventory)
            }
            &&& (moved == 0 ==> final(members)@[a].inventory == old(members)@[a].inventory && final(members)@[t].inventory
                == old(members)@[t].inventory)
            &&& (moved > 0 ==> shifted(old(members)@[a].inventory, final(members)@[a].inventory, ItemKind::Food, -moved)
                && shifted(old(members)@[t].inventory, final(members)@[t].inventory, ItemKind::Food, moved))
            &&& final(history).spec_view() == view_after_pushes(
                old(history).spec_view(),
                old(history).spec_capacity(),
                old(history).spec_next_id(),
                views,
            )
            &&& final(history).spec_next_id() == old(history).spec_next_id() + views.len()
        },
{
    let ghost m0 = members@;
    let ghost h0 = history.spec_view();
    let ghost next0 = history.spec_next_id();
    let actor_index = match find_member(members, attempt.actor_id) {
        Some(index) => index,
        None => {
            return None;
        },
    };
    let target_index = match find_member(members, attempt.target_id) {
        Some(index) => index,
        None => {
            return None;
        },
    };
    let moved = if willing {
        transfer_item(members, attempt.actor_id, attempt.target_id, ItemKind::Food, attempt.amount)
    } else {
        0
    };
    let ghost m1 = members@;
    let share = PendingSimulationEvent {
        caused_by_event_id: None,
        tick,
        location: EventLocation { x: attempt.actor_location.0, y: attempt.actor_location.1 },
        actor_id: attempt.actor_id,
        target_id: Some(attempt.target_id),
        related_entity_ids: vec![attempt.actor_id, attempt.target_id],
        kind: if moved > 0 {
            SimulationEventKind::FoodShared
        } else {
            SimulationEventKind::FoodShareRefused
        },
        cause: if moved > 0 {
            SimulationEventCause::FoodShared
        } else {
            SimulationEventCause::FoodShareRefused
        },
        details: if moved > 0 {
            SimulationEventDetails::FoodShared { amount: moved }
        } else {
            SimulationEventDetails::FoodShareRefused
        },
    };
    proof {
        assert(pending_view(share) =~= share_view(attempt, moved, tick));
    }
    let event_id = history.push(share);
    let ghost mut pushed: Seq<EventView> = seq![share_view(attempt, moved, tick)];
    proof {
        lemma_view_after_no_pushes(h0, history.spec_capacity(), next0);
        lemma_view_after_pushes_snoc(h0, history.spec_capacity(), next0, Seq::empty(), share_view(attempt, moved, tick));
        assert(Seq::<EventView>::empty().push(share_view(attempt, moved, tick)) =~= pushed);
    }
    let cause = if moved > 0 {
        SimulationEventCause::FoodShared
    } else {
        SimulationEventCause::FoodShareRefused
    };
    let delta = if moved > 0 {
        GRATITUDE_DELTA
    } else {
        RESENTMENT_DELTA
    };
    let target_location = (members[target_index].x, members[target_index].y);
    proof {
        assert(ids_sorted(m1[target_index as int].memory.known_entities@));
    }
    let recorded_result = members[target_index].memory.record_interaction(attempt.actor_id, tick, delta);
    let ghost m2 = members@;
    proof {
        crate::social::lemma_recorded_matches(
            m1[target_index as int].memory.known_entities@,
            attempt.actor_id,
            tick,
            delta,
            m2[target_index as int].memory.known_entities@,
            recorded_result,
        );
        assert forall|x: int, y: int| 0 <= x < y < m2.len() implies m2[x].id < m2[y].id by {
            assert(m2[x].id == m0[x].id && m2[y].id == m0[y].id);
        }
        assert forall|i: int| 0 <= i < m2.len() implies ids_sorted(#[trigger] m2[i].memory.known_entities@) by {
            if i != target_index {
                assert(m2[i] == m1[i]);
            }
        }
    }
    let ghost h1 = history.spec_view();
    let ghost change_made: Option<AffinityChangeRecord> = match recorded_result {
        Some(c) => c,
        None => None,
    };
    if let Some(Some(change)) = recorded_result {
        let _ = record_affinity_change(history, attempt.target_id, target_location, change, cause, Some(event_id), tick);
        proof {
            let v = affinity_change_view(attempt.target_id, target_location, change, cause, Some(next0), tick);
            lemma_view_after_pushes_snoc(h0, history.spec_capacity(), next0, pushed, v);
            pushed = pushed.push(v);
        }
    }
    let ghost h2 = history.spec_view();
    let mut dissolved: Option<crate::partnerships::PartnershipDissolution> = None;
    if moved == 0 {
        dissolved = try_dissolve(members, attempt.target_id, attempt.actor_id);
        if let Some(d) = dissolved {
            let _ = record_partnership_dissolution(history, d, target_location, cause, Some(event_id), tick);
            proof {
                let v = dissolution_view(d, target_location, cause, Some(next0), tick);
                lemma_view_after_pushes_snoc(h0, history.spec_capacity(), next0, pushed, v);
                pushed = pushed.push(v);
            }
        }
    }
    proof {
        lemma_event_id_of(event_id);
        let knowns = knowns_of(m0).update(
            target_index as int,
            recorded(m0[target_index as int].memory.known_entities@, attempt.actor_id, tick, delta),
        );
        assert(knowns_of(m2) =~= knowns) by {
            assert forall|i: int| 0 <= i < m2.len() implies m2[i].memory.known_entities@ == knowns[i] by {
                if i != target_index {
                    assert(m2[i] == m1[i]);
                    assert(m1[i].memory == m0[i].memory);
                }
            }
        }
        assert forall|j: int| 0 <= j < m0.len() implies (#[trigger] m0[j]).id == m2[j].id && m0[j].partner_id == m2[j].partner_id by {}
        lemma_dissolution_in_agrees(m0, m2, knowns, attempt.target_id, attempt.actor_id);
        let views = settle_views(attempt, moved, change_made, dissolved, target_location, next0, tick);
        assert(target_location == (m0[target_index as int].x, m0[target_index as int].y));
        assert(views =~= pushed);
    }
    Some(FoodShareOutcome { attempt, willing, moved })
}

} // verus!
