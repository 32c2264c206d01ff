use nexus_engine::events::{
    EntityEventSummary, EventId, EventLocation, PendingSimulationEvent, RecentEventHistory,
    SimulationEventCause, SimulationEventDetails, SimulationEventKind,
};

fn event(
    tick: u64,
    actor_id: u32,
    target_id: Option<u32>,
    related_entity_ids: Vec<u32>,
    kind: SimulationEventKind,
) -> PendingSimulationEvent {
    PendingSimulationEvent {
        caused_by_event_id: None,
        tick,
        location: EventLocation { x: 1, y: 2 },
        actor_id,
        target_id,
        related_entity_ids,
        kind,
        cause: SimulationEventCause::FirstEncounter,
        details: SimulationEventDetails::Encounter,
    }
}

#[test]
fn event_ids_are_nonzero_and_checked() {
    assert_eq!(EventId::new(7).to_text(), "7");
    assert_eq!(EventId::new(7).checked_next(), Some(EventId::new(8)));
    assert_eq!(EventId::new(u64::MAX).checked_next(), None);
}

#[test]
fn entity_summary_counts_only_related_events_and_preserves_tick_range() {
    let mut history = RecentEventHistory::default();
    history.push(event(5, 1, Some(2), vec![1, 2], SimulationEventKind::Interaction));
    history.push(event(8, 3, None, vec![3, 1], SimulationEventKind::Discovery));
    history.push(event(10, 2, Some(3), vec![2, 3], SimulationEventKind::Death));

    let summary = history.summary_for(1);
    assert_eq!(summary.entity_id, 1);
    assert_eq!(summary.total_events, 2);
    assert_eq!(summary.first_event_tick, Some(5));
    assert_eq!(summary.latest_event_tick, Some(8));
    assert_eq!(summary.interactions, 1);
    assert_eq!(summary.discoveries, 1);
    assert_eq!(summary.deaths, 0);
}

#[test]
fn entity_summary_has_explicit_empty_state() {
    let summary = RecentEventHistory::default().summary_for(99);
    assert_eq!(
        summary,
        EntityEventSummary {
            entity_id: 99,
            ..EntityEventSummary::default()
        }
    );
}

#[test]
fn pushed_events_get_consecutive_ids_and_the_oldest_leaves_a_full_history() {
    let mut history = RecentEventHistory::with_capacity(2);
    let first = history.push(event(1, 1, None, vec![], SimulationEventKind::Birth));
    let second = history.push(event(2, 1, None, vec![], SimulationEventKind::Birth));
    let third = history.push(event(3, 1, None, vec![], SimulationEventKind::Birth));
    assert_eq!((first.get(), second.get(), third.get()), (1, 2, 3));
    assert_eq!(history.len(), 2);
    assert_eq!(history.get(0).id, second);
    assert_eq!(history.get(1).tick, 3);
    assert_eq!(history.next_id().get(), 4);
}

#[test]
fn zero_capacity_history_still_consumes_ids() {
    let mut history = RecentEventHistory::with_capacity(0);
    let first = history.push(event(1, 1, None, vec![], SimulationEventKind::Death));
    assert_eq!(first, EventId::first());
    assert_eq!(history.len(), 0);
    assert_eq!(history.next_id().get(), 2);
}
