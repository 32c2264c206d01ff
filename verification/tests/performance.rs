use nexus_engine::performance::{
    integer_median, nearest_rank, PerformanceRun, PhaseProfile, StateGauges, TimingStats, WorkCounters,
};

fn profile(total_us: u64, actions: u64, entities: u64) -> PhaseProfile {
    let mut profile = PhaseProfile {
        total_us,
        world_maintenance_us: total_us,
        physiology_us: total_us,
        dependent_care_us: total_us,
        households_us: total_us,
        spatial_index_us: total_us,
        autonomy_us: total_us,
        survival_us: total_us,
        mortality_us: total_us,
        lifecycle_us: total_us,
        relationships_us: total_us,
        reproduction_us: total_us,
        ..PhaseProfile::default()
    };
    profile.work.actions_executed = actions;
    profile.state.entities_alive = entities;
    profile.state.known_entities_total = entities * 2;
    profile
}

fn mean(stats: &TimingStats) -> f64 {
    if stats.samples == 0 {
        0.0
    } else {
        stats.total_us as f64 / stats.samples as f64
    }
}

#[test]
fn empty_run_has_explicit_zero_summary() {
    let summary = PerformanceRun::default().summarize();
    assert_eq!(summary.samples, 0);
    assert_eq!(summary.total, TimingStats::default());
    assert_eq!(summary.work_total.actions_executed, 0);
    assert_eq!(summary.state_final.entities_alive, 0);
}

#[test]
fn single_sample_populates_every_stat_and_both_gauge_snapshots() {
    let mut run = PerformanceRun::default();
    run.record(profile(7, 3, 2));
    let summary = run.summarize();
    assert_eq!(summary.samples, 1);
    assert_eq!(
        summary.total,
        TimingStats {
            samples: 1,
            total_us: 7,
            median_us: 7,
            p95_us: 7,
            p99_us: 7,
            max_us: 7,
        }
    );
    assert_eq!(mean(&summary.total), 7.0);
    assert_eq!(summary.work_total.actions_executed, 3);
    assert_eq!(summary.state_final.entities_alive, 2);
    assert_eq!(summary.state_peak.entities_alive, 2);
}

#[test]
fn aggregation_uses_integer_median_and_nearest_rank_percentiles() {
    let mut run = PerformanceRun::default();
    for value in 1..=100 {
        run.record(profile(value, value, 101 - value));
    }
    let summary = run.summarize();
    assert_eq!(mean(&summary.total), 50.5);
    assert_eq!(summary.total.median_us, 50);
    assert_eq!(summary.total.p95_us, 95);
    assert_eq!(summary.total.p99_us, 99);
    assert_eq!(summary.total.max_us, 100);
    assert_eq!(summary.world_maintenance.p95_us, 95);
    assert_eq!(summary.physiology.p99_us, 99);
    assert_eq!(summary.dependent_care.max_us, 100);
    assert_eq!(summary.households.median_us, 50);
    assert_eq!(mean(&summary.spatial_index), 50.5);
    assert_eq!(summary.autonomy.p95_us, 95);
    assert_eq!(summary.survival.p99_us, 99);
    assert_eq!(summary.mortality.max_us, 100);
    assert_eq!(summary.lifecycle.median_us, 50);
    assert_eq!(mean(&summary.relationships), 50.5);
    assert_eq!(summary.reproduction.p99_us, 99);
    assert_eq!(summary.work_total.actions_executed, 5_050);
    assert_eq!(summary.state_final.entities_alive, 1);
    assert_eq!(summary.state_peak.entities_alive, 100);
    assert_eq!(summary.state_peak.known_entities_total, 200);
}

#[test]
fn samples_are_sorted_before_ranking() {
    let stats = TimingStats::from_samples(vec![9, 1, 5, 3, 7]);
    assert_eq!(stats.samples, 5);
    assert_eq!(stats.total_us, 25);
    assert_eq!(stats.median_us, 5);
    assert_eq!(stats.p95_us, 9);
    assert_eq!(stats.p99_us, 9);
    assert_eq!(stats.max_us, 9);
}

#[test]
fn even_count_median_is_the_truncated_mean_of_the_middle_pair() {
    assert_eq!(integer_median(&[1, 2, 4, 8]), 3);
    assert_eq!(integer_median(&[5]), 5);
    assert_eq!(integer_median(&[u64::MAX, u64::MAX]), u64::MAX);
}

#[test]
fn nearest_rank_rounds_the_rank_up() {
    let sorted: Vec<u64> = (1..=10).collect();
    assert_eq!(nearest_rank(&sorted, 95), 10);
    assert_eq!(nearest_rank(&sorted, 50), 5);
    assert_eq!(nearest_rank(&sorted, 1), 1);
    assert_eq!(nearest_rank(&sorted, 100), 10);
}

#[test]
fn work_counters_accumulate_field_by_field() {
    let mut total = WorkCounters::new();
    let mut step = WorkCounters::new();
    step.goal_changes = 2;
    step.spatial_queries = 5;
    total.accumulate(&step);
    total.accumulate(&step);
    assert_eq!(total.goal_changes, 4);
    assert_eq!(total.spatial_queries, 10);
    assert_eq!(total.actions_executed, 0);
}

#[test]
fn gauge_peaks_dominate_every_sample() {
    let mut peak = StateGauges::new();
    let mut a = StateGauges::new();
    a.entities_alive = 3;
    a.households_active = 9;
    let mut b = StateGauges::new();
    b.entities_alive = 8;
    b.households_active = 1;
    peak.retain_maximums(&a);
    peak.retain_maximums(&b);
    assert_eq!(peak.entities_alive, 8);
    assert_eq!(peak.households_active, 9);
    assert!(peak.dominates(&a));
    assert!(peak.dominates(&b));
    assert!(!a.dominates(&b));
}
