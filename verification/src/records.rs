//! Turning what happened during a tick into events of the recent history: meals,
//! discoveries, affinity changes and ended partnerships.
use vstd::prelude::*;
use crate::events::{
    pending_view, view_after_push, view_after_pushes, EventId, EventLocation, EventView, PendingSimulationEvent,
    RecentEventHistory, SimulationEventCause, SimulationEventDetails, SimulationEventKind,
};
use crate::households::{find_member, member_index, members_by_id, Member};
use crate::mind::AffinityChangeRecord;
use crate::partnerships::PartnershipDissolution;
use crate::perception::ResourceDiscovery;

verus! {

/// Room for `n` more identifiers.
pub open spec fn ids_left(history: RecentEventHistory, n: int) -> bool {
    history.spec_next_id() + n < u64::MAX
}

/// The event for `actor_id`'s affinity toward `change.target_id` crossing a band.
pub open spec fn affinity_change_view(
    actor_id: u32,
    location: (u32, u32),
    change: AffinityChangeRecord,
    cause: SimulationEventCause,
    caused_by: Option<u64>,
    tick: u64,
) -> EventView {
    EventView {
        caused_by,
        tick,
        location: EventLocation { x: location.0, y: location.1 },
        actor_id,
        target_id: Some(change.target_id),
        related: seq![actor_id, change.target_id],
        kind: SimulationEventKind::AffinityChange,
        cause,
        details: SimulationEventDetails::AffinityChange {
            previous_affinity: change.previous_affinity,
            new_affinity: change.new_affinity,
            delta: change.delta,
        },
    }
}

pub open spec fn id_value(id: Option<EventId>) -> Option<u64> {
    match id {
        Some(i) => Some(i.value()),
        None => None,
    }
}

/// Records that `actor_id`'s affinity toward `change.target_id` crossed a band, and
/// returns the event's identifier.
pub fn record_affinity_change(
    history: &mut RecentEventHistory,
    actor_id: u32,
    location: (u32, u32),
    change: AffinityChangeRecord,
    cause: SimulationEventCause,
    caused_by: Option<EventId>,
    tick: u64,
) -> (id: EventId)
    requires
        old(history).wf(),
        ids_left(*old(history), 1),
    ensures
        final(history).wf(),
        id.value() == old(history).spec_next_id(),
        final(history).spec_next_id() == old(history).spec_next_id() + 1,
        final(history).spec_capacity() == old(history).spec_capacity(),
        final(history).spec_view() == view_after_push(
            old(history).spec_view(),
            old(history).spec_capacity(),
            old(history).spec_next_id(),
            affinity_change_view(actor_id, location, change, cause, id_value(caused_by), tick),
        ),
{
    let event = PendingSimulationEvent {
        caused_by_event_id: caused_by,
        tick,
        location: EventLocation { x: location.0, y: location.1 },
        actor_id,
        target_id: Some(change.target_id),
        related_entity_ids: vec![actor_id, change.target_id],
        kind: SimulationEventKind::AffinityChange,
        cause,
        details: SimulationEventDetails::AffinityChange {
            previous_affinity: change.previous_affinity,
            new_affinity: change.new_affinity,
            delta: change.delta,
        },
    };
    proof {
        assert(pending_view(event) =~= affinity_change_view(actor_id, location, change, cause, id_value(caused_by), tick));
    }
    history.push(event)
}

/// The event for a partnership that ended.
pub open spec fn dissolution_view(
    dissolution: PartnershipDissolution,
    location: (u32, u32),
    cause: SimulationEventCause,
    caused_by: Option<u64>,
    tick: u64,
) -> EventView {
    EventView {
        caused_by,
        tick,
        location: EventLocation { x: location.0, y: location.1 },
        actor_id: dissolution.actor_id,
        target_id: Some(dissolution.target_id),
        related: seq![dissolution.actor_id, dissolution.target_id],
        kind: SimulationEventKind::PartnershipDissolved,
        cause,
        details: SimulationEventDetails::PartnershipDissolved {
            actor_affinity: dissolution.actor_affinity,
            target_affinity: dissolution.target_affinity,
        },
    }
}

/// Records that a partnership ended, and returns the event's identifier.
pub fn record_partnership_dissolution(
    history: &mut RecentEventHistory,
    dissolution: PartnershipDissolution,
    location: (u32, u32),
    cause: SimulationEventCause,
    caused_by: Option<EventId>,
    tick: u64,
) -> (id: EventId)
    requires
        old(history).wf(),
        ids_left(*old(history), 1),
    ensures
        final(history).wf(),
        id.value() == old(history).spec_next_id(),
        final(history).spec_next_id() == old(history).spec_next_id() + 1,
        final(history).spec_capacity() == old(history).spec_capacity(),
        final(history).spec_view() == view_after_push(
            old(history).spec_view(),
            old(history).spec_capacity(),
            old(history).spec_next_id(),
            dissolution_view(dissolution, location, cause, id_value(caused_by), tick),
        ),
{
    let event = PendingSimulationEvent {
        caused_by_event_id: caused_by,
        tick,
        location: EventLocation { x: location.0, y: location.1 },
        actor_id: dissolution.actor_id,
        target_id: Some(dissolution.target_id),
        related_entity_ids: vec![dissolution.actor_id, dissolution.target_id],
        kind: SimulationEventKind::PartnershipDissolved,
        cause,
        details: SimulationEventDetails::PartnershipDissolved {
            actor_affinity: dissolution.actor_affinity,
            target_affinity: dissolution.target_affinity,
        },
    };
    proof {
        assert(pending_view(event) =~= dissolution_view(dissolution, location, cause, id_value(caused_by), tick));
    }
    history.push(event)
}

/// The meal events for the first `n` consumptions: one per positive amount eaten by a
/// listed individual, where that individual stands.
pub open spec fn consumption_views(members: Seq<Member>, consumptions: Seq<(u32, u16)>, tick: u64, n: int) -> Seq<EventView>
    decreases n,
{
    if n <= 0 {
        Seq::empty()
    } else {
        let rest = consumption_views(members, consumptions, tick, n - 1);
        let (entity_id, amount) = consumptions[n - 1];
        if amount == 0 {
            rest
        } else {
            match member_index(members, entity_id) {
                Some(i) => rest.push(
                    EventView {
                        caused_by: None,
                        tick,
                        location: EventLocation { x: members[i].x, y: members[i].y },
                        actor_id: entity_id,
                        target_id: None,
                        related: seq![entity_id],
                        kind: SimulationEventKind::Consumption,
                        cause: SimulationEventCause::AteFood,
                        details: SimulationEventDetails::Consumption { amount },
                    },
                ),
                None => rest,
            }
        }
    }
}

proof fn lemma_consumption_views_len(members: Seq<Member>, consumptions: Seq<(u32, u16)>, tick: u64, n: int)
    requires
        0 <= n,
    ensures
        consumption_views(members, consumptions, tick, n).len() <= n,
    decreases n,
{
    if n > 0 {
        lemma_consumption_views_len(members, consumptions, tick, n - 1);
    }
}

/// Records a meal event for every positive amount eaten by a listed individual.
pub fn record_food_consumptions(
    history: &mut RecentEventHistory,
    members: &Vec<Member>,
    consumptions: &Vec<(u32, u16)>,
    tick: u64,
)
    requires
        old(history).wf(),
        members_by_id(members@),
        ids_left(*old(history), consumptions@.len() as int),
    ensures
        final(history).wf(),
        ({
            let vs = consumption_views(members@, consumptions@, tick, consumptions@.len() as int);
            &&& final(history).spec_view() == view_after_pushes(
                old(history).spec_view(),
                old(history).spec_capacity(),
                old(history).spec_next_id(),
                vs,
            )
            &&& final(history).spec_next_id() == old(history).spec_next_id() + vs.len()
        }),
        final(history).spec_capacity() == old(history).spec_capacity(),
{
    let ghost start = old(history).spec_view();
    let ghost next0 = old(history).spec_next_id();
    let mut k: usize = 0;
    while k < consumptions.len()
        invariant
            k <= consumptions@.len(),
            history.wf(),
            members_by_id(members@),
            next0 + consumptions@.len() < u64::MAX,
            history.spec_capacity() == old(history).spec_capacity(),
            ({
                let vs = consumption_views(members@, consumptions@, tick, k as int);
                &&& history.spec_view() == view_after_pushes(start, history.spec_capacity(), next0, vs)
                &&& history.spec_next_id() == next0 + vs.len()
            }),
        decreases consumptions@.len() - k,
    {
        let (entity_id, amount) = consumptions[k];
        let ghost vs = consumption_views(members@, consumptions@, tick, k as int);
        proof {
            lemma_consumption_views_len(members@, consumptions@, tick, k as int);
        }
        if amount != 0 {
            if let Some(index) = find_member(members, entity_id) {
                let event = PendingSimulationEvent {
                    caused_by_event_id: None,
                    tick,
                    location: EventLocation { x: members[index].x, y: members[index].y },
                    actor_id: entity_id,
                    target_id: None,
                    related_entity_ids: vec![entity_id],
                    kind: SimulationEventKind::Consumption,
                    cause: SimulationEventCause::AteFood,
                    details: SimulationEventDetails::Consumption { amount },
                };
                let ghost v = pending_view(event);
                history.push(event);
                proof {
                    let vs1 = consumption_views(members@, consumptions@, tick, k + 1);
                    assert(consumptions@[k as int] == (entity_id, amount));
                    assert(member_index(members@, entity_id) == Some(index as int));
                    assert(v.related =~= seq![entity_id]);
                    let expected = EventView {
                        caused_by: None,
                        tick,
                        location: EventLocation { x: members@[index as int].x, y: members@[index as int].y },
                        actor_id: entity_id,
                        target_id: None,
                        related: seq![entity_id],
                        kind: SimulationEventKind::Consumption,
                        cause: SimulationEventCause::AteFood,
                        details: SimulationEventDetails::Consumption { amount },
                    };
                    assert(v =~= expected);
                    assert(vs1 =~= vs.push(v));
                    assert(vs1.drop_last() =~= vs);
                }
            }
        }
        k += 1;
    }
}

/// The discovery events, one per deposit first seen, in order.
pub open spec fn discovery_views(discoveries: Seq<ResourceDiscovery>, tick: u64) -> Seq<EventView> {
    Seq::new(
        discoveries.len(),
        |i: int|
            EventView {
                caused_by: None,
                tick,
                location: EventLocation { x: discoveries[i].x, y: discoveries[i].y },
                actor_id: discoveries[i].entity_id,
                target_id: None,
                related: seq![discoveries[i].entity_id],
                kind: SimulationEventKind::Discovery,
                cause: SimulationEventCause::ResourceFound,
                details: SimulationEventDetails::ResourceDiscovery {
                    kind: discoveries[i].kind,
                    amount: discoveries[i].amount,
                },
            },
    )
}

/// Records a discovery event for every deposit first seen.
pub fn record_resource_discoveries(history: &mut RecentEventHistory, discoveries: &Vec<ResourceDiscovery>, tick: u64)
    requires
        old(history).wf(),
        ids_left(*old(history), discoveries@.len() as int),
    ensures
        final(history).wf(),
        final(history).spec_view() == view_after_pushes(
            old(history).spec_view(),
            old(history).spec_capacity(),
            old(history).spec_next_id(),
            discovery_views(discoveries@, tick),
        ),
        final(history).spec_next_id() == old(history).spec_next_id() + discoveries@.len(),
        final(history).spec_capacity() == old(history).spec_capacity(),
{
    let ghost start = old(history).spec_view();
    let ghost next0 = old(history).spec_next_id();
    let mut k: usize = 0;
    while k < discoveries.len()
        invariant
            k <= discoveries@.len(),
            history.wf(),
            next0 + discoveries@.len() < u64::MAX,
            history.spec_capacity() == old(history).spec_capacity(),
            history.spec_view() == view_after_pushes(
                start,
                history.spec_capacity(),
                next0,
                discovery_views(discoveries@, tick).subrange(0, k as int),
            ),
            history.spec_next_id() == next0 + k,
        decreases discoveries@.len() - k,
    {
        let discovery = discoveries[k];
        let event = PendingSimulationEvent {
            caused_by_event_id: None,
            tick,
            location: EventLocation { x: discovery.x, y: discovery.y },
            actor_id: discovery.entity_id,
            target_id: None,
            related_entity_ids: vec![discovery.entity_id],
            kind: SimulationEventKind::Discovery,
            cause: SimulationEventCause::ResourceFound,
            details: SimulationEventDetails::ResourceDiscovery { kind: discovery.kind, amount: discovery.amount },
        };
        proof {
            let all = discovery_views(discoveries@, tick);
            assert(event.related_entity_ids@ =~= seq![discovery.entity_id]);
            assert(discovery == discoveries@[k as int]);
            assert(all[k as int].related == seq![discovery.entity_id]);
            assert(all[k as int].details == pending_view(event).details);
            assert(all[k as int].location == pending_view(event).location);
            assert(pending_view(event) =~= all[k as int]);
            assert(all.subrange(0, k + 1).drop_last() =~= all.subrange(0, k as int));
        }
        history.push(event);
        k += 1;
    }
    proof {
        assert(discovery_views(discoveries@, tick).subrange(0, discoveries@.len() as int) =~= discovery_views(discoveries@, tick));
    }
}

} // verus!
