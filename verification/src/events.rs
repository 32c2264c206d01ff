//! Events that enter simulation history, their identifiers, and the bounded history of
//! recent events.
use vstd::prelude::*;
use std::collections::VecDeque;
use crate::world::ResourceKind;

verus! {

pub const RECENT_EVENT_CAPACITY: usize = 1_024;

/// Decimal digits of `value`, as `u64::to_string` writes them.
pub uninterp spec fn decimal_text(value: u64) -> Seq<char>;

/// `u64::to_string`: the decimal representation of `value`, named by `decimal_text`.
#[verifier::external_body]
pub(crate) fn u64_to_string(value: u64) -> (r: String)
    ensures
        r@ == decimal_text(value),
{
    value.to_string()
}

/// Monotonic identifier assigned when an event enters simulation history; never zero.
#[derive(Clone, Copy, Debug, PartialEq, Eq, PartialOrd, Ord, Hash, Structural)]
pub struct EventId(u64);

/// The identifier with the given value.
pub closed spec fn event_id_of(value: u64) -> EventId {
    EventId(value)
}

/// An identifier is the one with its value.
pub proof fn lemma_event_id_of(id: EventId)
    ensures
        event_id_of(id.value()) == id,
        forall|v: u64| #[trigger] event_id_of(v).value() == v,
{
}

impl EventId {
    pub closed spec fn value(self) -> u64 {
        self.0
    }

    pub fn first() -> (r: EventId)
        ensures
            r.value() == 1,
    {
        EventId(1)
    }

    pub fn new(value: u64) -> (r: EventId)
        requires
            value != 0,
        ensures
            r.value() == value,
    {
        EventId(value)
    }

    pub fn get(self) -> (r: u64)
        ensures
            r == self.value(),
    {
        self.0
    }

    /// The following identifier, or `None` when the identifier space is exhausted.
    pub fn checked_next(self) -> (r: Option<EventId>)
        ensures
            self.value() < u64::MAX ==> r == Some(EventId::spec_new((self.value() + 1) as u64)),
            self.value() == u64::MAX ==> r is None,
    {
        if self.0 < u64::MAX {
            Some(EventId(self.0 + 1))
        } else {
            None
        }
    }

    pub closed spec fn spec_new(value: u64) -> EventId {
        EventId(value)
    }

    pub proof fn lemma_spec_new_value(value: u64)
        ensures
            EventId::spec_new(value).value() == value,
    {
    }

    /// The identifier in decimal.
    pub fn to_text(&self) -> (r: String)
        ensures
            r@ == decimal_text(self.value()),
    {
        u64_to_string(self.0)
    }
}

#[derive(Clone, Copy, Debug, PartialEq, Eq, Structural)]
pub struct EventLocation {
    pub x: u32,
    pub y: u32,
}

#[derive(Clone, Copy, Debug, PartialEq, Eq, Structural)]
pub enum SimulationEventKind {
    Interaction,
    Birth,
    Death,
    Consumption,
    Discovery,
    Encounter,
    AffinityChange,
    FoodShared,
    FoodShareRefused,
    PartnershipFormed,
    PartnershipDissolved,
}

#[derive(Clone, Copy, Debug, PartialEq, Eq, Structural)]
pub enum SimulationEventCause {
    MutualSocialContact,
    Born,
    Starvation,
    NaturalDeath,
    AteFood,
    ResourceFound,
    FirstEncounter,
    RelationshipDecay,
    FoodShared,
    FoodShareRefused,
    MutualCommitment,
}

#[derive(Clone, Copy, Debug, PartialEq, Eq, Structural)]
pub enum SimulationEventDetails {
    Interaction { actor_affinity_delta: i16, target_affinity_delta: i16 },
    Birth { child_id: u32 },
    Death,
    Consumption { amount: u16 },
    ResourceDiscovery { kind: ResourceKind, amount: u16 },
    Encounter,
    AffinityChange { previous_affinity: i16, new_affinity: i16, delta: i16 },
    FoodShared { amount: u16 },
    FoodShareRefused,
    PartnershipFormed { actor_affinity: i16, target_affinity: i16, compatibility_per_mille: u16 },
    PartnershipDissolved { actor_affinity: i16, target_affinity: i16 },
}

#[derive(Debug, PartialEq, Eq)]
pub struct SimulationEvent {
    pub id: EventId,
    pub caused_by_event_id: Option<EventId>,
    pub tick: u64,
    pub location: EventLocation,
    pub actor_id: u32,
    pub target_id: Option<u32>,
    pub related_entity_ids: Vec<u32>,
    pub kind: SimulationEventKind,
    pub cause: SimulationEventCause,
    pub details: SimulationEventDetails,
}

/// Per-entity counts over the recent history.
#[derive(Clone, Copy, Debug, Default, PartialEq, Eq, Structural)]
pub struct EntityEventSummary {
    pub entity_id: u32,
    pub total_events: u32,
    pub first_event_tick: Option<u64>,
    pub latest_event_tick: Option<u64>,
    pub births: u32,
    pub deaths: u32,
    pub consumptions: u32,
    pub discoveries: u32,
    pub encounters: u32,
    pub interactions: u32,
    pub affinity_changes: u32,
}

/// An event that has not been given an identifier yet.
pub struct PendingSimulationEvent {
    pub caused_by_event_id: Option<EventId>,
    pub tick: u64,
    pub location: EventLocation,
    pub actor_id: u32,
    pub target_id: Option<u32>,
    pub related_entity_ids: Vec<u32>,
    pub kind: SimulationEventKind,
    pub cause: SimulationEventCause,
    pub details: SimulationEventDetails,
}

/// The event that `pending` becomes under identifier `id`.
pub open spec fn spec_assigned(pending: PendingSimulationEvent, id: EventId) -> SimulationEvent {
    SimulationEvent {
        id,
        caused_by_event_id: pending.caused_by_event_id,
        tick: pending.tick,
        location: pending.location,
        actor_id: pending.actor_id,
        target_id: pending.target_id,
        related_entity_ids: pending.related_entity_ids,
        kind: pending.kind,
        cause: pending.cause,
        details: pending.details,
    }
}

/// What an event says, apart from its identifier; causes are identifier values.
pub struct EventView {
    pub caused_by: Option<u64>,
    pub tick: u64,
    pub location: EventLocation,
    pub actor_id: u32,
    pub target_id: Option<u32>,
    pub related: Seq<u32>,
    pub kind: SimulationEventKind,
    pub cause: SimulationEventCause,
    pub details: SimulationEventDetails,
}

/// What a pending event says.
pub open spec fn pending_view(p: PendingSimulationEvent) -> EventView {
    EventView {
        caused_by: match p.caused_by_event_id {
            Some(id) => Some(id.value()),
            None => None,
        },
        tick: p.tick,
        location: p.location,
        actor_id: p.actor_id,
        target_id: p.target_id,
        related: p.related_entity_ids@,
        kind: p.kind,
        cause: p.cause,
        details: p.details,
    }
}

/// An event's identifier value and what it says.
pub open spec fn event_view(e: SimulationEvent) -> (u64, EventView) {
    (
        e.id.value(),
        EventView {
            caused_by: match e.caused_by_event_id {
                Some(id) => Some(id.value()),
                None => None,
            },
            tick: e.tick,
            location: e.location,
            actor_id: e.actor_id,
            target_id: e.target_id,
            related: e.related_entity_ids@,
            kind: e.kind,
            cause: e.cause,
            details: e.details,
        },
    )
}

/// The kept events after one more is recorded under identifier `id`: nothing is kept
/// without capacity, and the oldest gives way when full.
pub open spec fn view_after_push(kept: Seq<(u64, EventView)>, capacity: usize, id: u64, v: EventView) -> Seq<(u64, EventView)> {
    if capacity == 0 {
        kept
    } else if kept.len() == capacity {
        kept.drop_first().push((id, v))
    } else {
        kept.push((id, v))
    }
}

/// The kept events after recording `vs` in order under consecutive identifiers from
/// `next`.
pub open spec fn view_after_pushes(kept: Seq<(u64, EventView)>, capacity: usize, next: u64, vs: Seq<EventView>) -> Seq<
    (u64, EventView),
>
    decreases vs.len(),
{
    if vs.len() == 0 {
        kept
    } else {
        view_after_push(
            view_after_pushes(kept, capacity, next, vs.drop_last()),
            capacity,
            (next + vs.len() - 1) as u64,
            vs.last(),
        )
    }
}

/// Recording one more event after a run of them.
pub proof fn lemma_view_after_pushes_snoc(kept: Seq<(u64, EventView)>, capacity: usize, next: u64, vs: Seq<EventView>, v: EventView)
    requires
        next + vs.len() <= u64::MAX,
    ensures
        view_after_pushes(kept, capacity, next, vs.push(v)) == view_after_push(
            view_after_pushes(kept, capacity, next, vs),
            capacity,
            (next + vs.len()) as u64,
            v,
        ),
{
    assert(vs.push(v).drop_last() =~= vs);
}

/// Recording no event changes nothing.
pub proof fn lemma_view_after_no_pushes(kept: Seq<(u64, EventView)>, capacity: usize, next: u64)
    ensures
        view_after_pushes(kept, capacity, next, Seq::empty()) == kept,
{
}

impl PendingSimulationEvent {
    pub fn assign(self, id: EventId) -> (r: SimulationEvent)
        ensures
            r == spec_assigned(self, id),
    {
        SimulationEvent {
            id,
            caused_by_event_id: self.caused_by_event_id,
            tick: self.tick,
            location: self.location,
            actor_id: self.actor_id,
            target_id: self.target_id,
            related_entity_ids: self.related_entity_ids,
            kind: self.kind,
            cause: self.cause,
            details: self.details,
        }
    }
}

/// Whether `event` concerns `entity_id` as actor, target or related entity.
pub open spec fn involves(event: SimulationEvent, entity_id: u32) -> bool {
    event.actor_id == entity_id || event.target_id == Some(entity_id)
        || event.related_entity_ids@.contains(entity_id)
}

/// Which counter of a summary an event kind feeds: births, deaths, consumptions,
/// discoveries, encounters, interactions (food sharing and partnerships included),
/// affinity changes.
pub open spec fn counter_slot(kind: SimulationEventKind) -> int {
    match kind {
        SimulationEventKind::Birth => 0,
        SimulationEventKind::Death => 1,
        SimulationEventKind::Consumption => 2,
        SimulationEventKind::Discovery => 3,
        SimulationEventKind::Encounter => 4,
        SimulationEventKind::Interaction | SimulationEventKind::FoodShared
        | SimulationEventKind::FoodShareRefused | SimulationEventKind::PartnershipFormed
        | SimulationEventKind::PartnershipDissolved => 5,
        SimulationEventKind::AffinityChange => 6,
    }
}

/// Number of events involving `entity_id`, restricted to one counter slot when `slot`
/// is given.
pub open spec fn count_involving(events: Seq<SimulationEvent>, entity_id: u32, slot: Option<int>) -> nat
    decreases events.len(),
{
    if events.len() == 0 {
        0
    } else {
        let e = events.last();
        let hit = involves(e, entity_id) && (slot matches Some(s) ==> counter_slot(e.kind) == s);
        count_involving(events.drop_last(), entity_id, slot) + if hit { 1nat } else { 0nat }
    }
}

/// Tick of the latest event involving `entity_id`.
pub open spec fn latest_involving_tick(events: Seq<SimulationEvent>, entity_id: u32) -> Option<u64>
    decreases events.len(),
{
    if events.len() == 0 {
        None
    } else if involves(events.last(), entity_id) {
        Some(events.last().tick)
    } else {
        latest_involving_tick(events.drop_last(), entity_id)
    }
}

/// Tick of the earliest event involving `entity_id`.
pub open spec fn first_involving_tick(events: Seq<SimulationEvent>, entity_id: u32) -> Option<u64>
    decreases events.len(),
{
    if events.len() == 0 {
        None
    } else {
        match first_involving_tick(events.drop_last(), entity_id) {
            Some(t) => Some(t),
            None => if involves(events.last(), entity_id) { Some(events.last().tick) } else { None },
        }
    }
}

pub open spec fn capped(n: nat) -> u32 {
    if n > u32::MAX { u32::MAX } else { n as u32 }
}

/// The summary of `events` for `entity_id`: saturating counts and the tick range.
pub open spec fn spec_summary(events: Seq<SimulationEvent>, entity_id: u32) -> EntityEventSummary {
    EntityEventSummary {
        entity_id,
        total_events: capped(count_involving(events, entity_id, None)),
        first_event_tick: first_involving_tick(events, entity_id),
        latest_event_tick: latest_involving_tick(events, entity_id),
        births: capped(count_involving(events, entity_id, Some(0))),
        deaths: capped(count_involving(events, entity_id, Some(1))),
        consumptions: capped(count_involving(events, entity_id, Some(2))),
        discoveries: capped(count_involving(events, entity_id, Some(3))),
        encounters: capped(count_involving(events, entity_id, Some(4))),
        interactions: capped(count_involving(events, entity_id, Some(5))),
        affinity_changes: capped(count_involving(events, entity_id, Some(6))),
    }
}

fn contains_id(ids: &Vec<u32>, id: u32) -> (r: bool)
    ensures
        r == ids@.contains(id),
{
    let mut i: usize = 0;
    while i < ids.len()
        invariant
            0 <= i <= ids@.len(),
            forall|j: int| 0 <= j < i ==> ids@[j] != id,
        decreases ids@.len() - i,
    {
        if ids[i] == id {
            return true;
        }
        i += 1;
    }
    false
}

fn involves_entity(event: &SimulationEvent, entity_id: u32) -> (r: bool)
    ensures
        r == involves(*event, entity_id),
{
    event.actor_id == entity_id || match event.target_id {
        Some(target) => target == entity_id,
        None => false,
    } || contains_id(&event.related_entity_ids, entity_id)
}

fn bump(counter: u32) -> (r: u32)
    ensures
        r == if counter == u32::MAX { u32::MAX } else { (counter + 1) as u32 },
{
    if counter < u32::MAX { counter + 1 } else { counter }
}

/// The most recent events, oldest first, with identifiers handed out in order.
#[derive(Debug)]
pub struct RecentEventHistory {
    events: VecDeque<SimulationEvent>,
    capacity: usize,
    next_id: EventId,
}

impl RecentEventHistory {
    /// At most `capacity` events are kept and their identifiers run consecutively up to
    /// just below `next_id`.
    pub closed spec fn wf(&self) -> bool {
        &&& self.events@.len() <= self.capacity
        &&& self.next_id.value() >= 1
        &&& self.events@.len() < self.next_id.value()
        &&& forall|i: int| 0 <= i < self.events@.len() ==> (#[trigger] self.events@[i]).id.value()
            == self.next_id.value() - self.events@.len() + i
    }

    pub closed spec fn spec_events(&self) -> Seq<SimulationEvent> {
        self.events@
    }

    pub closed spec fn spec_capacity(&self) -> usize {
        self.capacity
    }

    pub closed spec fn spec_next_id(&self) -> u64 {
        self.next_id.value()
    }

    /// The kept events, oldest first, by identifier value and content.
    pub open spec fn spec_view(&self) -> Seq<(u64, EventView)> {
        self.spec_events().map_values(|e: SimulationEvent| event_view(e))
    }

    pub fn with_capacity(capacity: usize) -> (r: Self)
        ensures
            r.wf(),
            r.spec_events() == Seq::<SimulationEvent>::empty(),
            r.spec_capacity() == capacity,
            r.spec_next_id() == 1,
    {
        RecentEventHistory { events: VecDeque::new(), capacity, next_id: EventId::first() }
    }

    pub fn new() -> (r: Self)
        ensures
            r.wf(),
            r.spec_events() == Seq::<SimulationEvent>::empty(),
            r.spec_capacity() == RECENT_EVENT_CAPACITY,
            r.spec_next_id() == 1,
    {
        Self::with_capacity(RECENT_EVENT_CAPACITY)
    }

    pub fn next_id(&self) -> (r: EventId)
        ensures
            r.value() == self.spec_next_id(),
    {
        self.next_id
    }

    pub fn len(&self) -> (r: usize)
        ensures
            r == self.spec_events().len(),
    {
        self.events.len()
    }

    /// The `index`-th kept event, oldest first.
    pub fn get(&self, index: usize) -> (r: &SimulationEvent)
        requires
            index < self.spec_events().len(),
        ensures
            *r == self.spec_events()[index as int],
    {
        &self.events[index]
    }

    /// Gives `event` the next identifier and keeps it, dropping the oldest event when the
    /// history is full; with no capacity only the identifier is consumed.
    pub fn push(&mut self, event: PendingSimulationEvent) -> (assigned: EventId)
        requires
            old(self).wf(),
            old(self).spec_next_id() < u64::MAX,
        ensures
            final(self).wf(),
            assigned.value() == old(self).spec_next_id(),
            final(self).spec_next_id() == old(self).spec_next_id() + 1,
            final(self).spec_capacity() == old(self).spec_capacity(),
            final(self).spec_events() == if old(self).spec_capacity() == 0 {
                old(self).spec_events()
            } else if old(self).spec_events().len() == old(self).spec_capacity() {
                old(self).spec_events().drop_first().push(spec_assigned(event, assigned))
            } else {
                old(self).spec_events().push(spec_assigned(event, assigned))
            },
            final(self).spec_view() == view_after_push(
                old(self).spec_view(),
                old(self).spec_capacity(),
                old(self).spec_next_id(),
                pending_view(event),
            ),
    {
        let ghost event_seen = pending_view(event);
        let assigned_id = self.next_id;
        let next = EventId(self.next_id.0 + 1);
        if self.capacity == 0 {
            self.next_id = next;
            return assigned_id;
        }
        let ghost before = self.events@;
        if self.events.len() == self.capacity {
            let _ = self.events.pop_front();
        }
        let ghost middle = self.events@;
        let assigned = event.assign(assigned_id);
        self.events.push_back(assigned);
        proof {
            if before.len() == self.capacity {
                assert(middle =~= before.drop_first());
            } else {
                assert(middle =~= before);
            }
            assert forall|i: int| 0 <= i < self.events@.len() implies (#[trigger] self.events@[i]).id.value()
                == next.value() - self.events@.len() + i by {
                if i < middle.len() {
                    if before.len() == self.capacity {
                        assert(self.events@[i] == before[i + 1]);
                    } else {
                        assert(self.events@[i] == before[i]);
                    }
                }
            }
        }
        self.next_id = next;
        proof {
            let kept = before.map_values(|e: SimulationEvent| event_view(e));
            assert(event_view(spec_assigned(event, assigned_id)) == (assigned_id.value(), event_seen));
            if before.len() == self.capacity {
                assert(self.events@.map_values(|e: SimulationEvent| event_view(e)) =~= kept.drop_first().push(
                    (assigned_id.value(), event_seen),
                ));
            } else {
                assert(self.events@.map_values(|e: SimulationEvent| event_view(e)) =~= kept.push(
                    (assigned_id.value(), event_seen),
                ));
            }
        }
        assigned_id
    }

    /// A well-formed history never keeps more events than its capacity, and the kept
    /// events carry consecutive identifiers, oldest first, ending just below the next one
    /// to be handed out.
    pub proof fn lemma_bounded_and_consecutive(&self)
        requires
            self.wf(),
        ensures
            self.spec_events().len() <= self.spec_capacity(),
            self.spec_next_id() >= 1,
            forall|i: int|
                0 <= i < self.spec_events().len() ==> (#[trigger] self.spec_events()[i]).id.value()
                    == self.spec_next_id() - self.spec_events().len() + i,
            forall|i: int, j: int|
                0 <= i < j < self.spec_events().len() ==> (#[trigger] self.spec_events()[i]).id.value()
                    < (#[trigger] self.spec_events()[j]).id.value(),
    {
    }

    /// Counts the kept events that involve `entity_id`, by kind, with the ticks of the
    /// first and the latest of them.
    pub fn summary_for(&self, entity_id: u32) -> (r: EntityEventSummary)
        ensures
            r == spec_summary(self.spec_events(), entity_id),
    {
        let mut summary = EntityEventSummary {
            entity_id,
            total_events: 0,
            first_event_tick: None,
            latest_event_tick: None,
            births: 0,
            deaths: 0,
            consumptions: 0,
            discoveries: 0,
            encounters: 0,
            interactions: 0,
            affinity_changes: 0,
        };
        let ghost events = self.events@;
        let mut i: usize = 0;
        while i < self.events.len()
            invariant
                events == self.events@,
                0 <= i <= events.len(),
                summary == spec_summary(events.subrange(0, i as int), entity_id),
            decreases events.len() - i,
        {
            let event = &self.events[i];
            proof {
                assert(events.subrange(0, i + 1).drop_last() =~= events.subrange(0, i as int));
                assert(events.subrange(0, i + 1).last() == *event);
            }
            if involves_entity(event, entity_id) {
                summary.total_events = bump(summary.total_events);
                if summary.first_event_tick.is_none() {
                    summary.first_event_tick = Some(event.tick);
                }
                summary.latest_event_tick = Some(event.tick);
                match event.kind {
                    SimulationEventKind::Birth => { summary.births = bump(summary.births); },
                    SimulationEventKind::Death => { summary.deaths = bump(summary.deaths); },
                    SimulationEventKind::Consumption => {
                        summary.consumptions = bump(summary.consumptions);
                    },
                    SimulationEventKind::Discovery => {
                        summary.discoveries = bump(summary.discoveries);
                    },
                    SimulationEventKind::Encounter => { summary.encounters = bump(summary.encounters); },
                    SimulationEventKind::Interaction | SimulationEventKind::FoodShared
                    | SimulationEventKind::FoodShareRefused | SimulationEventKind::PartnershipFormed
                    | SimulationEventKind::PartnershipDissolved => {
                        summary.interactions = bump(summary.interactions);
                    },
                    SimulationEventKind::AffinityChange => {
                        summary.affinity_changes = bump(summary.affinity_changes);
                    },
                }
            }
            i += 1;
        }
        proof {
            assert(events.subrange(0, events.len() as int) =~= events);
        }
        summary
    }
}

impl Default for RecentEventHistory {
    fn default() -> (r: Self)
        ensures
            r.wf(),
            r.spec_events() == Seq::<SimulationEvent>::empty(),
            r.spec_capacity() == RECENT_EVENT_CAPACITY,
            r.spec_next_id() == 1,
    {
        RecentEventHistory::new()
    }
}

} // verus!
