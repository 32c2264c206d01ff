use nexus_engine::chronicle::{event_listing, relative_event_time};
use nexus_engine::events::{
    EventLocation, PendingSimulationEvent, RecentEventHistory, SimulationEventCause, SimulationEventDetails,
    SimulationEventKind,
};

fn meal(tick: u64, actor_id: u32) -> PendingSimulationEvent {
    PendingSimulationEvent {
        caused_by_event_id: None,
        tick,
        location: EventLocation { x: 1, y: 2 },
        actor_id,
        target_id: None,
        related_entity_ids: vec![actor_id],
        kind: SimulationEventKind::Consumption,
        cause: SimulationEventCause::AteFood,
        details: SimulationEventDetails::Consumption { amount: 3 },
    }
}

#[test]
fn relative_times_use_hours_days_and_years() {
    assert_eq!(relative_event_time(10, 10), "just now");
    assert_eq!(relative_event_time(10, 20), "just now");
    assert_eq!(relative_event_time(41, 40), "1h ago");
    assert_eq!(relative_event_time(23, 0), "23h ago");
    assert_eq!(relative_event_time(48, 0), "2d ago");
    assert_eq!(relative_event_time(24 * 365 * 3, 0), "3y ago");
}

#[test]
fn listing_is_newest_first_and_filtered() {
    let mut history = RecentEventHistory::new();
    history.push(meal(1, 4));
    history.push(meal(2, 5));
    history.push(meal(3, 4));
    let all = event_listing(&history, 3, None);
    assert_eq!(all.iter().map(|e| e.index).collect::<Vec<_>>(), vec![2, 1, 0]);
    assert_eq!(all[0].relative_time, "just now");
    assert_eq!(all[2].relative_time, "2h ago");
    assert_eq!(all[0].kind, "consumption");
    assert_eq!(all[0].cause, "ate_food");
    let fours = event_listing(&history, 3, Some(4));
    assert_eq!(fours.iter().map(|e| e.index).collect::<Vec<_>>(), vec![2, 0]);
}
