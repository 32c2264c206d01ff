use nexus_engine::clock::SimulationClock;
use nexus_engine::lifecycle::lifespan_for;

#[test]
fn simulation_starts_paused_at_tick_zero() {
    let simulation = SimulationClock::default();
    assert_eq!(simulation.tick(), 0);
    assert!(simulation.is_paused());
}

#[test]
fn paused_simulation_does_not_advance_automatically() {
    let mut simulation = SimulationClock::default();
    assert_eq!(simulation.advance(10), 0);
}

#[test]
fn resumed_simulation_advances_by_requested_ticks() {
    let mut simulation = SimulationClock::default();
    simulation.resume();
    assert_eq!(simulation.advance(10), 10);
    assert_eq!(simulation.advance(5), 15);
}

#[test]
fn manual_step_works_while_paused() {
    let mut simulation = SimulationClock::default();
    assert_eq!(simulation.step(), 1);
    assert!(simulation.is_paused());
}

#[test]
fn pause_stops_future_automatic_advances() {
    let mut simulation = SimulationClock::default();
    simulation.resume();
    simulation.advance(3);
    simulation.pause();
    simulation.advance(8);
    assert_eq!(simulation.tick(), 3);
}

#[test]
fn lifespans_stay_within_their_range_and_repeat() {
    for id in 1..200 {
        let lifespan = lifespan_for(42, id);
        assert!((650_000..=950_000).contains(&lifespan));
        assert_eq!(lifespan, lifespan_for(42, id));
    }
}
