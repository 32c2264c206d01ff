//! Deterministic aggregation of per-tick performance profiles: work counters summed,
//! state gauges kept at their peaks, and timings summarised by an integer median and
//! nearest-rank percentiles.
use vstd::prelude::*;
use vstd::multiset::Multiset;

verus! {

pub open spec fn sat_add_u64(a: u64, b: u64) -> u64 {
    if a + b > u64::MAX { u64::MAX } else { (a + b) as u64 }
}

pub open spec fn max_u64(a: u64, b: u64) -> u64 {
    if a >= b { a } else { b }
}

/// Counts of work done during one tick or, summed, during a run.
#[derive(Clone, Copy, Debug, Default, PartialEq, Eq, Structural)]
pub struct WorkCounters {
    pub entities_processed: u64,
    pub entities_perceived: u64,
    pub goal_evaluations: u64,
    pub goal_changes: u64,
    pub plans_created: u64,
    pub actions_executed: u64,
    pub social_interactions: u64,
    pub spatial_queries: u64,
    pub pathfinding_searches: u64,
    pub pathfinding_nodes_expanded: u64,
    pub events_created: u64,
    pub orphan_reassignment_scans: u64,
    pub household_sync_scans: u64,
    pub household_migration_scans: u64,
    pub conception_scans: u64,
}

/// Field-by-field saturating sum of two counter sets.
pub open spec fn spec_accumulated(a: WorkCounters, b: WorkCounters) -> WorkCounters {
    WorkCounters {
        entities_processed: sat_add_u64(a.entities_processed, b.entities_processed),
        entities_perceived: sat_add_u64(a.entities_perceived, b.entities_perceived),
        goal_evaluations: sat_add_u64(a.goal_evaluations, b.goal_evaluations),
        goal_changes: sat_add_u64(a.goal_changes, b.goal_changes),
        plans_created: sat_add_u64(a.plans_created, b.plans_created),
        actions_executed: sat_add_u64(a.actions_executed, b.actions_executed),
        social_interactions: sat_add_u64(a.social_interactions, b.social_interactions),
        spatial_queries: sat_add_u64(a.spatial_queries, b.spatial_queries),
        pathfinding_searches: sat_add_u64(a.pathfinding_searches, b.pathfinding_searches),
        pathfinding_nodes_expanded: sat_add_u64(a.pathfinding_nodes_expanded, b.pathfinding_nodes_expanded),
        events_created: sat_add_u64(a.events_created, b.events_created),
        orphan_reassignment_scans: sat_add_u64(a.orphan_reassignment_scans, b.orphan_reassignment_scans),
        household_sync_scans: sat_add_u64(a.household_sync_scans, b.household_sync_scans),
        household_migration_scans: sat_add_u64(a.household_migration_scans, b.household_migration_scans),
        conception_scans: sat_add_u64(a.conception_scans, b.conception_scans),
    }
}

impl WorkCounters {
    pub fn new() -> (r: Self)
        ensures
            r == (WorkCounters {
                entities_processed: 0,
                entities_perceived: 0,
                goal_evaluations: 0,
                goal_changes: 0,
                plans_created: 0,
                actions_executed: 0,
                social_interactions: 0,
                spatial_queries: 0,
                pathfinding_searches: 0,
                pathfinding_nodes_expanded: 0,
                events_created: 0,
                orphan_reassignment_scans: 0,
                household_sync_scans: 0,
                household_migration_scans: 0,
                conception_scans: 0,
            }),
    {
        WorkCounters {
            entities_processed: 0,
            entities_perceived: 0,
            goal_evaluations: 0,
            goal_changes: 0,
            plans_created: 0,
            actions_executed: 0,
            social_interactions: 0,
            spatial_queries: 0,
            pathfinding_searches: 0,
            pathfinding_nodes_expanded: 0,
            events_created: 0,
            orphan_reassignment_scans: 0,
            household_sync_scans: 0,
            household_migration_scans: 0,
            conception_scans: 0,
        }
    }

    /// Adds `other` into these counters, saturating each at `u64::MAX`.
    pub fn accumulate(&mut self, other: &Self)
        ensures
            *final(self) == spec_accumulated(*old(self), *other),
    {
        self.entities_processed = self.entities_processed.saturating_add(other.entities_processed);
        self.entities_perceived = self.entities_perceived.saturating_add(other.entities_perceived);
        self.goal_evaluations = self.goal_evaluations.saturating_add(other.goal_evaluations);
        self.goal_changes = self.goal_changes.saturating_add(other.goal_changes);
        self.plans_created = self.plans_created.saturating_add(other.plans_created);
        self.actions_executed = self.actions_executed.saturating_add(other.actions_executed);
        self.social_interactions = self.social_interactions.saturating_add(other.social_interactions);
        self.spatial_queries = self.spatial_queries.saturating_add(other.spatial_queries);
        self.pathfinding_searches = self.pathfinding_searches.saturating_add(other.pathfinding_searches);
        self.pathfinding_nodes_expanded = self.pathfinding_nodes_expanded.saturating_add(
            other.pathfinding_nodes_expanded,
        );
        self.events_created = self.events_created.saturating_add(other.events_created);
        self.orphan_reassignment_scans = self.orphan_reassignment_scans.saturating_add(
            other.orphan_reassignment_scans,
        );
        self.household_sync_scans = self.household_sync_scans.saturating_add(other.household_sync_scans);
        self.household_migration_scans = self.household_migration_scans.saturating_add(
            other.household_migration_scans,
        );
        self.conception_scans = self.conception_scans.saturating_add(other.conception_scans);
    }
}

/// Sizes of the live state at one moment, or the peaks over a run.
#[derive(Clone, Copy, Debug, Default, PartialEq, Eq, Structural)]
pub struct StateGauges {
    pub entities_alive: u64,
    pub known_entities_total: u64,
    pub known_entities_max_per_entity: u64,
    pub known_resources_total: u64,
    pub known_resources_max_per_entity: u64,
    pub known_dead_entities_total: u64,
    pub active_grief_states: u64,
    pub recent_events_len: u64,
    pub recent_events_capacity: u64,
    pub households_active: u64,
    pub genealogy_links: u64,
}

/// Field-by-field maximum of two gauge sets.
pub open spec fn spec_maximums(a: StateGauges, b: StateGauges) -> StateGauges {
    StateGauges {
        entities_alive: max_u64(a.entities_alive, b.entities_alive),
        known_entities_total: max_u64(a.known_entities_total, b.known_entities_total),
        known_entities_max_per_entity: max_u64(a.known_entities_max_per_entity, b.known_entities_max_per_entity),
        known_resources_total: max_u64(a.known_resources_total, b.known_resources_total),
        known_resources_max_per_entity: max_u64(a.known_resources_max_per_entity, b.known_resources_max_per_entity),
        known_dead_entities_total: max_u64(a.known_dead_entities_total, b.known_dead_entities_total),
        active_grief_states: max_u64(a.active_grief_states, b.active_grief_states),
        recent_events_len: max_u64(a.recent_events_len, b.recent_events_len),
        recent_events_capacity: max_u64(a.recent_events_capacity, b.recent_events_capacity),
        households_active: max_u64(a.households_active, b.households_active),
        genealogy_links: max_u64(a.genealogy_links, b.genealogy_links),
    }
}

/// Every gauge of `a` is at least the matching gauge of `b`.
pub open spec fn spec_dominates(a: StateGauges, b: StateGauges) -> bool {
    &&& a.entities_alive >= b.entities_alive
    &&& a.known_entities_total >= b.known_entities_total
    &&& a.known_entities_max_per_entity >= b.known_entities_max_per_entity
    &&& a.known_resources_total >= b.known_resources_total
    &&& a.known_resources_max_per_entity >= b.known_resources_max_per_entity
    &&& a.known_dead_entities_total >= b.known_dead_entities_total
    &&& a.active_grief_states >= b.active_grief_states
    &&& a.recent_events_len >= b.recent_events_len
    &&& a.recent_events_capacity >= b.recent_events_capacity
    &&& a.households_active >= b.households_active
    &&& a.genealogy_links >= b.genealogy_links
}

fn max_u64_exec(a: u64, b: u64) -> (r: u64)
    ensures
        r == max_u64(a, b),
{
    if a >= b { a } else { b }
}

impl StateGauges {
    pub fn new() -> (r: Self)
        ensures
            r == (StateGauges {
                entities_alive: 0,
                known_entities_total: 0,
                known_entities_max_per_entity: 0,
                known_resources_total: 0,
                known_resources_max_per_entity: 0,
                known_dead_entities_total: 0,
                active_grief_states: 0,
                recent_events_len: 0,
                recent_events_capacity: 0,
                households_active: 0,
                genealogy_links: 0,
            }),
    {
        StateGauges {
            entities_alive: 0,
            known_entities_total: 0,
            known_entities_max_per_entity: 0,
            known_resources_total: 0,
            known_resources_max_per_entity: 0,
            known_dead_entities_total: 0,
            active_grief_states: 0,
            recent_events_len: 0,
            recent_events_capacity: 0,
            households_active: 0,
            genealogy_links: 0,
        }
    }

    /// Raises each gauge to the matching gauge of `other` where that is larger.
    pub fn retain_maximums(&mut self, other: &Self)
        ensures
            *final(self) == spec_maximums(*old(self), *other),
    {
        self.entities_alive = max_u64_exec(self.entities_alive, other.entities_alive);
        self.known_entities_total = max_u64_exec(self.known_entities_total, other.known_entities_total);
        self.known_entities_max_per_entity = max_u64_exec(
            self.known_entities_max_per_entity,
            other.known_entities_max_per_entity,
        );
        self.known_resources_total = max_u64_exec(self.known_resources_total, other.known_resources_total);
        self.known_resources_max_per_entity = max_u64_exec(
            self.known_resources_max_per_entity,
            other.known_resources_max_per_entity,
        );
        self.known_dead_entities_total = max_u64_exec(
            self.known_dead_entities_total,
            other.known_dead_entities_total,
        );
        self.active_grief_states = max_u64_exec(self.active_grief_states, other.active_grief_states);
        self.recent_events_len = max_u64_exec(self.recent_events_len, other.recent_events_len);
        self.recent_events_capacity = max_u64_exec(self.recent_events_capacity, other.recent_events_capacity);
        self.households_active = max_u64_exec(self.households_active, other.households_active);
        self.genealogy_links = max_u64_exec(self.genealogy_links, other.genealogy_links);
    }

    /// Whether every gauge is at least the matching gauge of `other`.
    pub fn dominates(&self, other: &Self) -> (r: bool)
        ensures
            r == spec_dominates(*self, *other),
    {
        self.entities_alive >= other.entities_alive && self.known_entities_total >= other.known_entities_total
            && self.known_entities_max_per_entity >= other.known_entities_max_per_entity
            && self.known_resources_total >= other.known_resources_total
            && self.known_resources_max_per_entity >= other.known_resources_max_per_entity
            && self.known_dead_entities_total >= other.known_dead_entities_total
            && self.active_grief_states >= other.active_grief_states && self.recent_events_len
            >= other.recent_events_len && self.recent_events_capacity >= other.recent_events_capacity
            && self.households_active >= other.households_active && self.genealogy_links
            >= other.genealogy_links
    }
}

/// Peaks kept by `retain_maximums` dominate both the old peaks and the new gauges.
pub proof fn lemma_maximums_dominate(a: StateGauges, b: StateGauges)
    ensures
        spec_dominates(spec_maximums(a, b), a),
        spec_dominates(spec_maximums(a, b), b),
{
}

/// The phases of one tick, in microseconds, with its work and end-of-tick gauges.
#[derive(Clone, Copy, Debug, Default, PartialEq, Eq, Structural)]
pub struct PhaseProfile {
    pub world_maintenance_us: u64,
    pub physiology_us: u64,
    pub dependent_care_us: u64,
    pub households_us: u64,
    pub spatial_index_us: u64,
    pub autonomy_us: u64,
    pub survival_us: u64,
    pub mortality_us: u64,
    pub lifecycle_us: u64,
    pub relationships_us: u64,
    pub reproduction_us: u64,
    pub total_us: u64,
    pub work: WorkCounters,
    pub state: StateGauges,
}

/// `s` is in non-decreasing order.
pub open spec fn sorted_samples(s: Seq<u64>) -> bool {
    forall|i: int, j: int| 0 <= i <= j < s.len() ==> s[i] <= s[j]
}

/// The nearest-rank index for `percentile` over `len` samples: `ceil(percentile * len /
/// 100) - 1`, held in range.
pub open spec fn nearest_rank_index(percentile: usize, len: int) -> int {
    let product = if percentile * len > usize::MAX { usize::MAX as int } else { percentile * len };
    let rank = (product + 99) / 100;
    let index = if rank >= 1 { rank - 1 } else { 0 };
    if index < len - 1 { index } else { len - 1 }
}

/// The nearest-rank percentile of a sorted, non-empty list.
pub fn nearest_rank(sorted: &[u64], percentile: usize) -> (r: u64)
    requires
        sorted@.len() > 0,
    ensures
        r == sorted@[nearest_rank_index(percentile, sorted@.len() as int)],
{
    let len = sorted.len();
    let product = match percentile.checked_mul(len) {
        Some(product) => product,
        None => usize::MAX,
    };
    let rank = product / 100 + if product % 100 == 0 { 0 } else { 1 };
    let index = if rank >= 1 { rank - 1 } else { 0 };
    let index = if index < len - 1 { index } else { len - 1 };
    sorted[index]
}

/// The integer median of a sorted, non-empty list: the middle sample, or for an even
/// count the floor of the mean of the two middle samples.
pub open spec fn spec_median(s: Seq<u64>) -> u64 {
    let len = s.len() as int;
    if len % 2 == 1 {
        s[len / 2]
    } else {
        ((s[len / 2 - 1] + s[len / 2]) / 2) as u64
    }
}

pub fn integer_median(sorted: &[u64]) -> (r: u64)
    requires
        sorted@.len() > 0,
    ensures
        r == spec_median(sorted@),
{
    let len = sorted.len();
    if len % 2 == 1 {
        sorted[len / 2]
    } else {
        let lower = sorted[len / 2 - 1];
        let upper = sorted[len / 2];
        lower / 2 + upper / 2 + (lower % 2 + upper % 2) / 2
    }
}

/// Sum of the samples.
pub open spec fn sample_sum(s: Seq<u64>) -> int
    decreases s.len(),
{
    if s.len() == 0 {
        0
    } else {
        sample_sum(s.drop_last()) + s.last()
    }
}

/// Integer summary of a list of per-tick timings. The mean is `total_us / samples`.
#[derive(Clone, Copy, Debug, Default, PartialEq, Eq, Structural)]
pub struct TimingStats {
    pub samples: u64,
    pub total_us: u128,
    pub median_us: u64,
    pub p95_us: u64,
    pub p99_us: u64,
    pub max_us: u64,
}

/// The summary of a sorted list of samples.
pub open spec fn spec_timing_stats(sorted: Seq<u64>) -> TimingStats {
    if sorted.len() == 0 {
        TimingStats { samples: 0, total_us: 0, median_us: 0, p95_us: 0, p99_us: 0, max_us: 0 }
    } else {
        TimingStats {
            samples: sorted.len() as u64,
            total_us: sample_sum(sorted) as u128,
            median_us: spec_median(sorted),
            p95_us: sorted[nearest_rank_index(95, sorted.len() as int)],
            p99_us: sorted[nearest_rank_index(99, sorted.len() as int)],
            max_us: sorted[sorted.len() - 1],
        }
    }
}

proof fn lemma_sample_sum_bound(s: Seq<u64>)
    ensures
        0 <= sample_sum(s) <= s.len() * u64::MAX,
    decreases s.len(),
{
    if s.len() > 0 {
        lemma_sample_sum_bound(s.drop_last());
    }
}

/// Sorts the samples by insertion, keeping every sample.
fn sort_samples(samples: Vec<u64>) -> (r: Vec<u64>)
    ensures
        sorted_samples(r@),
        r@.to_multiset() == samples@.to_multiset(),
{
    let mut sorted: Vec<u64> = Vec::new();
    let mut k: usize = 0;
    proof {
        assert(samples@.subrange(0, 0) =~= Seq::<u64>::empty());
        assert(sorted@ =~= Seq::<u64>::empty());
    }
    while k < samples.len()
        invariant
            0 <= k <= samples@.len(),
            sorted_samples(sorted@),
            sorted@.to_multiset() == samples@.subrange(0, k as int).to_multiset(),
        decreases samples@.len() - k,
    {
        let value = samples[k];
        let mut lo: usize = 0;
        let mut hi: usize = sorted.len();
        while lo < hi
            invariant
                sorted_samples(sorted@),
                0 <= lo <= hi <= sorted@.len(),
                forall|j: int| 0 <= j < lo ==> sorted@[j] <= value,
                forall|j: int| hi <= j < sorted@.len() ==> sorted@[j] > value,
            decreases hi - lo,
        {
            let mid = lo + (hi - lo) / 2;
            if sorted[mid] <= value {
                lo = mid + 1;
            } else {
                hi = mid;
            }
        }
        let ghost before = sorted@;
        sorted.insert(lo, value);
        proof {
            vstd::seq_lib::to_multiset_insert(before, lo as int, value);
            assert(samples@.subrange(0, k + 1) =~= samples@.subrange(0, k as int).push(value));
            vstd::seq_lib::to_multiset_build(samples@.subrange(0, k as int), value);
            assert forall|a: int, b: int| 0 <= a <= b < sorted@.len() implies sorted@[a] <= sorted@[b] by {
                if b < lo {
                    assert(sorted@[a] == before[a] && sorted@[b] == before[b]);
                } else if b == lo {
                    if a < lo {
                        assert(sorted@[a] == before[a]);
                    }
                } else if a < lo {
                    assert(sorted@[a] == before[a] && sorted@[b] == before[b - 1]);
                } else if a == lo {
                    assert(sorted@[b] == before[b - 1]);
                } else {
                    assert(sorted@[a] == before[a - 1] && sorted@[b] == before[b - 1]);
                }
            }
        }
        k += 1;
    }
    proof {
        assert(samples@.subrange(0, samples@.len() as int) =~= samples@);
    }
    sorted
}

/// The samples in non-decreasing order.
pub open spec fn sorted_copy(samples: Seq<u64>) -> Seq<u64> {
    choose|sorted: Seq<u64>| sorted_samples(sorted) && sorted.to_multiset() == samples.to_multiset()
}

/// A sorted permutation of the samples is their sorted copy.
proof fn lemma_sorted_copy(samples: Seq<u64>, sorted: Seq<u64>)
    requires
        sorted_samples(sorted),
        sorted.to_multiset() == samples.to_multiset(),
    ensures
        sorted_copy(samples) == sorted,
{
    let other = sorted_copy(samples);
    let leq = |a: u64, b: u64| a <= b;
    assert(sorted_samples(other) && other.to_multiset() == samples.to_multiset());
    assert(vstd::relations::sorted_by(sorted, leq));
    assert(vstd::relations::sorted_by(other, leq));
    assert(vstd::relations::total_ordering(leq));
    vstd::seq_lib::lemma_sorted_unique(sorted, other, leq);
}

/// The summary of a non-empty list orders its statistics: every sample lies between the
/// smallest one and `max_us`, which is one of the samples, and the median, the 95th and
/// the 99th percentiles come in that order below it. (Lists too long for
/// `percentile * len` to fit in a machine word cannot exist in memory and are left out.)
pub proof fn lemma_stats_ordered(samples: Seq<u64>)
    requires
        samples.len() > 0,
        samples.len() * 100 <= usize::MAX,
    ensures
        spec_timing_stats(sorted_copy(samples)).median_us <= spec_timing_stats(sorted_copy(samples)).p95_us,
        spec_timing_stats(sorted_copy(samples)).p95_us <= spec_timing_stats(sorted_copy(samples)).p99_us,
        spec_timing_stats(sorted_copy(samples)).p99_us <= spec_timing_stats(sorted_copy(samples)).max_us,
        samples.contains(spec_timing_stats(sorted_copy(samples)).max_us),
        forall|i: int| 0 <= i < samples.len() ==> #[trigger] samples[i] <= spec_timing_stats(sorted_copy(samples)).max_us,
        forall|i: int| 0 <= i < samples.len() ==> sorted_copy(samples)[0] <= #[trigger] samples[i],
        sorted_copy(samples)[0] <= spec_timing_stats(sorted_copy(samples)).median_us,
        spec_timing_stats(sorted_copy(samples)).samples == samples.len(),
{
    let leq = |a: u64, b: u64| a <= b;
    assert(vstd::relations::total_ordering(leq));
    samples.lemma_sort_by_ensures(leq);
    let sorted = samples.sort_by(leq);
    assert(sorted_samples(sorted)) by {
        assert forall|i: int, j: int| 0 <= i <= j < sorted.len() implies sorted[i] <= sorted[j] by {
            if i < j {
                assert(leq(sorted[i], sorted[j]));
            }
        }
    }
    lemma_sorted_copy(samples, sorted);
    let len = sorted.len() as int;
    assert(len == samples.len()) by {
        samples.to_multiset_ensures();
        sorted.to_multiset_ensures();
    }
    let n = len;
    assert(nearest_rank_index(95, n) <= nearest_rank_index(99, n));
    assert(nearest_rank_index(99, n) <= n - 1);
    assert(n / 2 <= nearest_rank_index(95, n));
    let st = spec_timing_stats(sorted);
    assert(st.p95_us <= st.p99_us);
    assert(st.p99_us <= st.max_us);
    if n % 2 == 1 {
        assert(st.median_us == sorted[n / 2]);
    } else {
        assert(sorted[n / 2 - 1] <= sorted[n / 2]);
    }
    assert(st.median_us <= sorted[n / 2]);
    assert(sorted[0] <= st.median_us);
    assert(sorted.contains(sorted[n - 1]));
    vstd::seq_lib::to_multiset_contains(sorted, sorted[n - 1]);
    vstd::seq_lib::to_multiset_contains(samples, sorted[n - 1]);
    assert forall|i: int| 0 <= i < samples.len() implies #[trigger] samples[i] <= st.max_us && sorted[0]
        <= samples[i] by {
        vstd::seq_lib::to_multiset_contains(samples, samples[i]);
        vstd::seq_lib::to_multiset_contains(sorted, samples[i]);
        let j = choose|j: int| 0 <= j < sorted.len() && sorted[j] == samples[i];
        assert(sorted[j] <= sorted[n - 1]);
        assert(sorted[0] <= sorted[j]);
    }
}

impl TimingStats {
    /// Summarises the samples: count, total, integer median, nearest-rank 95th and 99th
    /// percentiles and maximum; all zero when there are none.
    pub fn from_samples(samples: Vec<u64>) -> (r: Self)
        ensures
            r == spec_timing_stats(sorted_copy(samples@)),
    {
        let ghost original = samples@;
        let sorted = sort_samples(samples);
        proof {
            lemma_sorted_copy(original, sorted@);
        }
        let len = sorted.len();
        if len == 0 {
            return TimingStats { samples: 0, total_us: 0, median_us: 0, p95_us: 0, p99_us: 0, max_us: 0 };
        }
        let mut total: u128 = 0;
        let mut i: usize = 0;
        while i < len
            invariant
                len == sorted@.len(),
                0 <= i <= len,
                total == sample_sum(sorted@.subrange(0, i as int)),
            decreases len - i,
        {
            proof {
                assert(sorted@.subrange(0, i + 1).drop_last() =~= sorted@.subrange(0, i as int));
                lemma_sample_sum_bound(sorted@.subrange(0, i + 1));
                assert((i + 1) * u64::MAX <= u128::MAX) by (nonlinear_arith)
                    requires
                        i < len,
                        len <= usize::MAX,
                ;
            }
            total = total + sorted[i] as u128;
            i += 1;
        }
        assert(sorted@.subrange(0, len as int) =~= sorted@);
        TimingStats {
            samples: len as u64,
            total_us: total,
            median_us: integer_median(sorted.as_slice()),
            p95_us: nearest_rank(sorted.as_slice(), 95),
            p99_us: nearest_rank(sorted.as_slice(), 99),
            max_us: sorted[len - 1],
        }
    }
}

/// The timing of phase `phase` in a profile, phases numbered in declaration order with the
/// whole tick last.
pub open spec fn phase_value(profile: PhaseProfile, phase: int) -> u64 {
    if phase == 0 {
        profile.world_maintenance_us
    } else if phase == 1 {
        profile.physiology_us
    } else if phase == 2 {
        profile.dependent_care_us
    } else if phase == 3 {
        profile.households_us
    } else if phase == 4 {
        profile.spatial_index_us
    } else if phase == 5 {
        profile.autonomy_us
    } else if phase == 6 {
        profile.survival_us
    } else if phase == 7 {
        profile.mortality_us
    } else if phase == 8 {
        profile.lifecycle_us
    } else if phase == 9 {
        profile.relationships_us
    } else if phase == 10 {
        profile.reproduction_us
    } else {
        profile.total_us
    }
}

fn phase_value_exec(profile: &PhaseProfile, phase: usize) -> (r: u64)
    ensures
        r == phase_value(*profile, phase as int),
{
    if phase == 0 {
        profile.world_maintenance_us
    } else if phase == 1 {
        profile.physiology_us
    } else if phase == 2 {
        profile.dependent_care_us
    } else if phase == 3 {
        profile.households_us
    } else if phase == 4 {
        profile.spatial_index_us
    } else if phase == 5 {
        profile.autonomy_us
    } else if phase == 6 {
        profile.survival_us
    } else if phase == 7 {
        profile.mortality_us
    } else if phase == 8 {
        profile.lifecycle_us
    } else if phase == 9 {
        profile.relationships_us
    } else if phase == 10 {
        profile.reproduction_us
    } else {
        profile.total_us
    }
}

/// The timings of one phase across the profiles, in recording order.
pub open spec fn phase_column(profiles: Seq<PhaseProfile>, phase: int) -> Seq<u64> {
    Seq::new(profiles.len(), |i: int| phase_value(profiles[i], phase))
}

/// The timing summary of one phase.
pub open spec fn phase_stats(profiles: Seq<PhaseProfile>, phase: int) -> TimingStats {
    spec_timing_stats(sorted_copy(phase_column(profiles, phase)))
}

/// The work of every profile, summed in recording order from zero.
pub open spec fn work_sum(profiles: Seq<PhaseProfile>) -> WorkCounters
    decreases profiles.len(),
{
    if profiles.len() == 0 {
        WorkCounters::default_spec()
    } else {
        spec_accumulated(work_sum(profiles.drop_last()), profiles.last().work)
    }
}

/// The peak of every gauge across the profiles, from zero.
pub open spec fn gauge_peaks(profiles: Seq<PhaseProfile>) -> StateGauges
    decreases profiles.len(),
{
    if profiles.len() == 0 {
        StateGauges::default_spec()
    } else {
        spec_maximums(gauge_peaks(profiles.drop_last()), profiles.last().state)
    }
}

impl WorkCounters {
    pub open spec fn default_spec() -> WorkCounters {
        WorkCounters {
            entities_processed: 0,
            entities_perceived: 0,
            goal_evaluations: 0,
            goal_changes: 0,
            plans_created: 0,
            actions_executed: 0,
            social_interactions: 0,
            spatial_queries: 0,
            pathfinding_searches: 0,
            pathfinding_nodes_expanded: 0,
            events_created: 0,
            orphan_reassignment_scans: 0,
            household_sync_scans: 0,
            household_migration_scans: 0,
            conception_scans: 0,
        }
    }
}

impl StateGauges {
    pub open spec fn default_spec() -> StateGauges {
        StateGauges {
            entities_alive: 0,
            known_entities_total: 0,
            known_entities_max_per_entity: 0,
            known_resources_total: 0,
            known_resources_max_per_entity: 0,
            known_dead_entities_total: 0,
            active_grief_states: 0,
            recent_events_len: 0,
            recent_events_capacity: 0,
            households_active: 0,
            genealogy_links: 0,
        }
    }
}

/// A summary of a run: per-phase timing statistics, total work, and the gauges at the
/// last tick and at their peaks.
#[derive(Clone, Copy, Debug, Default, PartialEq, Eq, Structural)]
pub struct PerformanceSummary {
    pub samples: u64,
    pub total: TimingStats,
    pub world_maintenance: TimingStats,
    pub physiology: TimingStats,
    pub dependent_care: TimingStats,
    pub households: TimingStats,
    pub spatial_index: TimingStats,
    pub autonomy: TimingStats,
    pub survival: TimingStats,
    pub mortality: TimingStats,
    pub lifecycle: TimingStats,
    pub relationships: TimingStats,
    pub reproduction: TimingStats,
    pub work_total: WorkCounters,
    pub state_final: StateGauges,
    pub state_peak: StateGauges,
}

/// The profiles recorded during a measured run.
pub struct PerformanceRun {
    profiles: Vec<PhaseProfile>,
}

impl PerformanceRun {
    pub closed spec fn spec_profiles(&self) -> Seq<PhaseProfile> {
        self.profiles@
    }

    pub fn new() -> (r: Self)
        ensures
            r.spec_profiles() == Seq::<PhaseProfile>::empty(),
    {
        PerformanceRun { profiles: Vec::new() }
    }

    pub fn record(&mut self, profile: PhaseProfile)
        ensures
            final(self).spec_profiles() == old(self).spec_profiles().push(profile),
    {
        self.profiles.push(profile);
    }

    /// The timings of one phase, in recording order.
    fn column(&self, phase: usize) -> (r: Vec<u64>)
        ensures
            r@ == phase_column(self.spec_profiles(), phase as int),
    {
        let mut out: Vec<u64> = Vec::new();
        let mut i: usize = 0;
        while i < self.profiles.len()
            invariant
                0 <= i <= self.profiles@.len(),
                out@ == phase_column(self.profiles@.subrange(0, i as int), phase as int),
            decreases self.profiles@.len() - i,
        {
            out.push(phase_value_exec(&self.profiles[i], phase));
            proof {
                assert(out@ =~= phase_column(self.profiles@.subrange(0, i + 1), phase as int));
            }
            i += 1;
        }
        assert(self.profiles@.subrange(0, self.profiles@.len() as int) =~= self.profiles@);
        out
    }

    /// Summarises the run; all zero when nothing was recorded.
    pub fn summarize(self) -> (r: PerformanceSummary)
        ensures
            self.spec_profiles().len() == 0 ==> r == (PerformanceSummary {
                samples: 0,
                total: spec_timing_stats(Seq::empty()),
                world_maintenance: spec_timing_stats(Seq::empty()),
                physiology: spec_timing_stats(Seq::empty()),
                dependent_care: spec_timing_stats(Seq::empty()),
                households: spec_timing_stats(Seq::empty()),
                spatial_index: spec_timing_stats(Seq::empty()),
                autonomy: spec_timing_stats(Seq::empty()),
                survival: spec_timing_stats(Seq::empty()),
                mortality: spec_timing_stats(Seq::empty()),
                lifecycle: spec_timing_stats(Seq::empty()),
                relationships: spec_timing_stats(Seq::empty()),
                reproduction: spec_timing_stats(Seq::empty()),
                work_total: WorkCounters::default_spec(),
                state_final: StateGauges::default_spec(),
                state_peak: StateGauges::default_spec(),
            }),
            self.spec_profiles().len() > 0 ==> r == (PerformanceSummary {
                samples: self.spec_profiles().len() as u64,
                total: phase_stats(self.spec_profiles(), 11),
                world_maintenance: phase_stats(self.spec_profiles(), 0),
                physiology: phase_stats(self.spec_profiles(), 1),
                dependent_care: phase_stats(self.spec_profiles(), 2),
                households: phase_stats(self.spec_profiles(), 3),
                spatial_index: phase_stats(self.spec_profiles(), 4),
                autonomy: phase_stats(self.spec_profiles(), 5),
                survival: phase_stats(self.spec_profiles(), 6),
                mortality: phase_stats(self.spec_profiles(), 7),
                lifecycle: phase_stats(self.spec_profiles(), 8),
                relationships: phase_stats(self.spec_profiles(), 9),
                reproduction: phase_stats(self.spec_profiles(), 10),
                work_total: work_sum(self.spec_profiles()),
                state_final: self.spec_profiles().last().state,
                state_peak: gauge_peaks(self.spec_profiles()),
            }),
    {
        let count = self.profiles.len();
        if count == 0 {
            let empty = TimingStats { samples: 0, total_us: 0, median_us: 0, p95_us: 0, p99_us: 0, max_us: 0 };
            return PerformanceSummary {
                samples: 0,
                total: empty,
                world_maintenance: empty,
                physiology: empty,
                dependent_care: empty,
                households: empty,
                spatial_index: empty,
                autonomy: empty,
                survival: empty,
                mortality: empty,
                lifecycle: empty,
                relationships: empty,
                reproduction: empty,
                work_total: WorkCounters::new(),
                state_final: StateGauges::new(),
                state_peak: StateGauges::new(),
            };
        }
        let mut work_total = WorkCounters::new();
        let mut state_peak = StateGauges::new();
        let mut i: usize = 0;
        while i < count
            invariant
                count == self.profiles@.len(),
                0 <= i <= count,
                work_total == work_sum(self.profiles@.subrange(0, i as int)),
                state_peak == gauge_peaks(self.profiles@.subrange(0, i as int)),
            decreases count - i,
        {
            proof {
                assert(self.profiles@.subrange(0, i + 1).drop_last() =~= self.profiles@.subrange(0, i as int));
            }
            work_total.accumulate(&self.profiles[i].work);
            state_peak.retain_maximums(&self.profiles[i].state);
            i += 1;
        }
        assert(self.profiles@.subrange(0, count as int) =~= self.profiles@);
        let state_final = self.profiles[count - 1].state;
        PerformanceSummary {
            samples: count as u64,
            total: TimingStats::from_samples(self.column(11)),
            world_maintenance: TimingStats::from_samples(self.column(0)),
            physiology: TimingStats::from_samples(self.column(1)),
            dependent_care: TimingStats::from_samples(self.column(2)),
            households: TimingStats::from_samples(self.column(3)),
            spatial_index: TimingStats::from_samples(self.column(4)),
            autonomy: TimingStats::from_samples(self.column(5)),
            survival: TimingStats::from_samples(self.column(6)),
            mortality: TimingStats::from_samples(self.column(7)),
            lifecycle: TimingStats::from_samples(self.column(8)),
            relationships: TimingStats::from_samples(self.column(9)),
            reproduction: TimingStats::from_samples(self.column(10)),
            work_total,
            state_final,
            state_peak,
        }
    }
}

impl Default for PerformanceRun {
    fn default() -> (r: Self)
        ensures
            r.spec_profiles() == Seq::<PhaseProfile>::empty(),
    {
        PerformanceRun::new()
    }
}

} // verus!
