//! The registry of deterministic benchmark scenarios and the synthetic lineage fixture
//! that exercises kinship queries on a population that has relatives.
use vstd::prelude::*;
use vstd::string::StringExecFns;
use crate::events::{decimal_text, u64_to_string};
use crate::genealogy::{has_parent, spec_children, Genealogy, LineageRecord};
use crate::idset::IdSet;
use crate::kinship::{
    children_of, descendants_of, lists_relatives, relationship_between, spec_relationship, KinshipRelation,
};

verus! {

/// Upper bound on the population a simulation holds.
pub const MAX_POPULATION: usize = 10_000;

/// What a benchmark scenario stresses beyond the baseline simulation.
#[derive(Clone, Copy, Debug, PartialEq, Eq, Structural)]
pub enum BenchmarkWorkload {
    Baseline,
    DenseSocial { compact_population: bool, enclosed_walkable_arena: bool },
    Scarcity { food_retention_stride: usize },
    Households { household_pairs: u32, food_per_household: u16 },
    PathfindingHeavy { compact_population: bool, initial_hunger: u16, known_food_targets: u8 },
    LongRun { window_count: u32, food_grid_spacing: u32, food_capacity: u16 },
    /// A seeded multi-generation lineage, placed in a compact arena.
    SeededLineage { generations: u32 },
}

/// The registered scenario names, in registration order.
pub open spec fn spec_scenario_names() -> Seq<Seq<char>> {
    seq![
        "baseline-100"@,
        "baseline-1000"@,
        "baseline-10000"@,
        "dense-social-1000"@,
        "scarcity-1000"@,
        "households-1000"@,
        "pathfinding-heavy-1000"@,
        "lineage-1000"@,
        "long-run-1000"@,
    ]
}

/// The registered scenario populations, in registration order.
pub open spec fn spec_scenario_populations() -> Seq<u32> {
    seq![100u32, 1_000, 10_000, 1_000, 1_000, 1_000, 1_000, 1_000, 1_000]
}

/// Names of the registered scenarios, in registration order.
pub fn scenario_names() -> (r: Vec<&'static str>)
    ensures
        r@.len() == spec_scenario_names().len(),
        forall|i: int| 0 <= i < r@.len() ==> (#[trigger] r@[i])@ == spec_scenario_names()[i],
{
    let r = vec![
        "baseline-100",
        "baseline-1000",
        "baseline-10000",
        "dense-social-1000",
        "scarcity-1000",
        "households-1000",
        "pathfinding-heavy-1000",
        "lineage-1000",
        "long-run-1000",
    ];
    r
}

/// Populations of the registered scenarios, in registration order.
pub fn scenario_populations() -> (r: Vec<u32>)
    ensures
        r@ == spec_scenario_populations(),
{
    vec![100, 1_000, 10_000, 1_000, 1_000, 1_000, 1_000, 1_000, 1_000]
}

/// The splitmix32 finalizer used to draw fixture parents.
pub open spec fn spec_fixture_hash(value: u32) -> u32 {
    let s1 = vstd::wrapping::u32_specs::wrapping_add(value, 0x9E37_79B9);
    let s2 = vstd::wrapping::u32_specs::wrapping_mul(s1 ^ (s1 >> 16u32), 0x7FEB_352D);
    let s3 = vstd::wrapping::u32_specs::wrapping_mul(s2 ^ (s2 >> 15u32), 0x846C_A68B);
    s3 ^ (s3 >> 16u32)
}

/// Deterministic pseudo-random draw for fixture construction.
pub fn fixture_hash(value: u32) -> (r: u32)
    ensures
        r == spec_fixture_hash(value),
{
    let mut state = value.wrapping_add(0x9E37_79B9);
    state = (state ^ (state >> 16)).wrapping_mul(0x7FEB_352D);
    state = (state ^ (state >> 15)).wrapping_mul(0x846C_A68B);
    state ^ (state >> 16)
}

/// Mother and father of one entity, as indices into the population.
pub type LineageParents = (Option<u32>, Option<u32>);

/// The parents drawn for the entity at `position` in a tree of `generations`
/// generations of `generation_size` each: none for founders; otherwise two draws from
/// the previous generation, the father's nudged once when it collides with the mother.
pub open spec fn spec_lineage_parents_at(generation_size: u32, position: int) -> LineageParents {
    let generation = (position / generation_size as int) as u32;
    let index = (position % generation_size as int) as u32;
    if generation == 0 {
        (None, None)
    } else {
        let previous_start = ((generation - 1) * generation_size) as u32;
        let mother = (previous_start + spec_fixture_hash(index ^ generation) % generation_size) as u32;
        let drawn = spec_fixture_hash(index ^ generation ^ 0x8000_0000u32) % generation_size;
        let father_offset = if previous_start + drawn == mother && generation_size > 1 {
            (drawn + 1) % generation_size as int
        } else {
            drawn as int
        };
        (Some(mother), Some((previous_start + father_offset) as u32))
    }
}

/// The message for a population that cannot fill the generations evenly.
pub open spec fn lineage_population_message(population: u32, generations: u32) -> Seq<char> {
    "lineage population "@ + decimal_text(population as u64) + " must be a nonzero multiple of "@
        + decimal_text(generations as u64)
}

/// Mother and father for every entity of a synthetic tree of `generations` equal
/// generations, as indices into a population of `population`.
pub fn synthetic_lineage_parents(population: u32, generations: u32) -> (r: Result<Vec<LineageParents>, String>)
    ensures
        generations == 0 ==> (r matches Err(message) && message@ == "lineage needs at least one generation"@),
        generations != 0 && (population == 0 || population % generations != 0) ==> (r matches Err(message)
            && message@ == lineage_population_message(population, generations)),
        generations != 0 && population != 0 && population % generations == 0 ==> (r matches Ok(parents)
            && parents@.len() == population && forall|i: int|
            0 <= i < population ==> #[trigger] parents@[i] == spec_lineage_parents_at(population / generations, i)),
{
    if generations == 0 {
        return Err(String::from_str("lineage needs at least one generation"));
    }
    if population == 0 || population % generations != 0 {
        let mut message = String::from_str("lineage population ");
        message.append(u64_to_string(population as u64).as_str());
        message.append(" must be a nonzero multiple of ");
        message.append(u64_to_string(generations as u64).as_str());
        return Err(message);
    }
    let generation_size = population / generations;
    assert(generation_size * generations == population && generation_size > 0) by (nonlinear_arith)
        requires
            generation_size == population / generations,
            population % generations == 0,
            generations > 0,
            population > 0,
    ;
    let mut parents: Vec<LineageParents> = Vec::new();
    let mut generation: u32 = 0;
    while generation < generations
        invariant
            generation_size == population / generations,
            generation_size * generations == population,
            generation_size > 0,
            0 <= generation <= generations,
            parents@.len() == generation * generation_size,
            forall|i: int| 0 <= i < parents@.len() ==> #[trigger] parents@[i] == spec_lineage_parents_at(generation_size, i),
        decreases generations - generation,
    {
        assert(generation * generation_size + generation_size <= population) by (nonlinear_arith)
            requires
                generation < generations,
                generation_size * generations == population,
                generation_size > 0,
        ;
        assert(generation == 0 || (generation - 1) * generation_size + generation_size <= population) by (nonlinear_arith)
            requires
                generation * generation_size + generation_size <= population,
                generation_size > 0,
        ;
        let previous_start = if generation == 0 { 0 } else { (generation - 1) * generation_size };
        assert(previous_start + generation_size <= population) by (nonlinear_arith)
            requires
                previous_start == if generation == 0 { 0 } else { (generation - 1) * generation_size },
                generation * generation_size + generation_size <= population,
                generation_size > 0,
        ;
        let mut index: u32 = 0;
        while index < generation_size
            invariant
                generation_size == population / generations,
                generation_size * generations == population,
                generation_size > 0,
                0 <= generation < generations,
                previous_start == if generation == 0 { 0 } else { (generation - 1) * generation_size },
                previous_start + generation_size <= population,
                0 <= index <= generation_size,
                parents@.len() == generation * generation_size + index,
                forall|i: int| 0 <= i < parents@.len() ==> #[trigger] parents@[i] == spec_lineage_parents_at(generation_size, i),
            decreases generation_size - index,
        {
            let ghost position = generation * generation_size + index;
            assert(position / generation_size as int == generation && position % generation_size as int == index)
                by (nonlinear_arith)
                requires
                    position == generation * generation_size + index,
                    index < generation_size,
                    generation_size > 0,
            ;
            if generation == 0 {
                parents.push((None, None));
            } else {
                let mother = previous_start + fixture_hash(index ^ generation) % generation_size;
                let mut father_offset = fixture_hash(index ^ generation ^ 0x8000_0000) % generation_size;
                if previous_start + father_offset == mother && generation_size > 1 {
                    father_offset = (father_offset + 1) % generation_size;
                }
                parents.push((Some(mother), Some(previous_start + father_offset)));
            }
            assert(parents@[position] == spec_lineage_parents_at(generation_size, position));
            index += 1;
        }
        assert(parents@.len() == (generation + 1) * generation_size) by (nonlinear_arith)
            requires
                parents@.len() == generation * generation_size + generation_size,
        ;
        generation += 1;
    }
    assert(parents@.len() == population) by (nonlinear_arith)
        requires
            parents@.len() == generations * generation_size,
            generation_size * generations == population,
    ;
    Ok(parents)
}

/// Evenly spaced samples from `start` up to `end_exclusive`: `count` of them, or fewer
/// when the span is shorter, and at least one.
pub open spec fn spread_span(start: u32, end_exclusive: u32) -> int {
    if end_exclusive > start { end_exclusive - start } else { 1 }
}

pub open spec fn spread_take(start: u32, end_exclusive: u32, count: usize) -> int {
    let span = spread_span(start, end_exclusive);
    if count == 0 { 1 } else if count < span { count as int } else { span }
}

pub fn spread_sample(start: u32, end_exclusive: u32, count: usize) -> (r: Vec<u32>)
    ensures
        r@.len() == spread_take(start, end_exclusive, count),
        forall|i: int|
            0 <= i < r@.len() ==> #[trigger] r@[i] == start + i * spread_span(start, end_exclusive) / spread_take(
                start,
                end_exclusive,
                count,
            ),
{
    let span: u64 = if end_exclusive > start { (end_exclusive - start) as u64 } else { 1 };
    let take: u64 = if count == 0 { 1 } else if (count as u64) < span { count as u64 } else { span };
    let mut out: Vec<u32> = Vec::new();
    let mut i: u64 = 0;
    while i < take
        invariant
            span == spread_span(start, end_exclusive),
            take == spread_take(start, end_exclusive, count),
            1 <= take <= span,
            span <= u32::MAX,
            0 <= i <= take,
            out@.len() == i,
            forall|j: int| 0 <= j < i ==> #[trigger] out@[j] == start + j * span / (take as int),
        decreases take - i,
    {
        assert(i * span / (take as int) < span && 0 <= i * span) by (nonlinear_arith)
            requires
                i < take,
                1 <= take <= span,
        {
            assert(i * span <= take * span - span);
        }
        assert(i * span <= u64::MAX) by (nonlinear_arith)
            requires
                i < take,
                take <= span,
                span <= u32::MAX,
        ;
        let offset = i * span / take;
        out.push(start + offset as u32);
        i += 1;
    }
    out
}

pub const KINSHIP_FIXTURE_GENERATIONS: u32 = 10;
pub const KINSHIP_FIXTURE_PARENT_SAMPLES: usize = 64;
pub const KINSHIP_FIXTURE_FOCAL_SAMPLES: usize = 16;
pub const KINSHIP_FIXTURE_PAIR_SAMPLES: usize = 16;

/// A population index turned into a one-based entity id.
pub open spec fn shifted(parent: Option<u32>) -> Option<u32> {
    match parent {
        Some(index) => Some((index + 1) as u32),
        None => None,
    }
}

/// The lineage record of the entity at `position` in the fixture tree.
pub open spec fn fixture_record(generation_size: u32, position: int) -> LineageRecord {
    let parents = spec_lineage_parents_at(generation_size, position);
    LineageRecord { entity_id: (position + 1) as u32, mother_id: shifted(parents.0), father_id: shifted(parents.1) }
}

/// The records of the fixture tree over `population` entities.
pub open spec fn fixture_records(population: u32) -> Seq<LineageRecord> {
    Seq::new(population as nat, |i: int| fixture_record(population / KINSHIP_FIXTURE_GENERATIONS, i))
}

/// `v` is named as a parent by some record.
pub open spec fn is_recorded_parent(records: Seq<LineageRecord>, v: u32) -> bool {
    exists|i: int| 0 <= i < records.len() && has_parent(#[trigger] records[i], v)
}

/// Sum of a list of ids.
pub open spec fn id_sum(ids: Seq<u32>) -> int
    decreases ids.len(),
{
    if ids.len() == 0 {
        0
    } else {
        id_sum(ids.drop_last()) + ids.last()
    }
}

/// Sum, over `parents`, of the ids of each one's children.
pub open spec fn children_total(records: Seq<LineageRecord>, parents: Seq<u32>) -> int
    decreases parents.len(),
{
    if parents.len() == 0 {
        0
    } else {
        children_total(records, parents.drop_last()) + id_sum(spec_children(records, parents.last()))
    }
}

/// The individuals reachable from `origin` in one direction, `origin` excluded.
pub open spec fn relative_set(records: Seq<LineageRecord>, upward: bool, origin: u32) -> Set<u32> {
    Set::new(|v: u32| v != origin && crate::kinship::reachable(records, upward, origin, v))
}

/// Sum, over `focal_ids`, of the number of descendants of each.
pub open spec fn descendant_total(records: Seq<LineageRecord>, focal_ids: Seq<u32>) -> int
    decreases focal_ids.len(),
{
    if focal_ids.len() == 0 {
        0
    } else {
        descendant_total(records, focal_ids.drop_last()) + relative_set(records, false, focal_ids.last()).len()
    }
}

/// How many of `pairs` are related in some way.
pub open spec fn related_pair_count(records: Seq<LineageRecord>, pairs: Seq<(u32, u32)>) -> int
    decreases pairs.len(),
{
    if pairs.len() == 0 {
        0
    } else {
        related_pair_count(records, pairs.drop_last()) + if spec_relationship(records, pairs.last().0, pairs.last().1)
            != KinshipRelation::Unrelated {
            1int
        } else {
            0int
        }
    }
}

proof fn lemma_id_sum_nonnegative(ids: Seq<u32>)
    ensures
        id_sum(ids) >= 0,
    decreases ids.len(),
{
    if ids.len() > 0 {
        lemma_id_sum_nonnegative(ids.drop_last());
    }
}

proof fn lemma_children_total_grows(records: Seq<LineageRecord>, parents: Seq<u32>, k: int)
    requires
        0 <= k <= parents.len(),
    ensures
        children_total(records, parents.subrange(0, k)) <= children_total(records, parents),
    decreases parents.len() - k,
{
    if k < parents.len() {
        lemma_children_total_grows(records, parents.drop_last(), k);
        assert(parents.drop_last().subrange(0, k) =~= parents.subrange(0, k));
        lemma_id_sum_nonnegative(spec_children(records, parents.last()));
    } else {
        assert(parents.subrange(0, k) =~= parents);
    }
}

/// The listed relatives are exactly the relative set, each once.
proof fn lemma_relatives_len(records: Seq<LineageRecord>, upward: bool, origin: u32, s: Seq<crate::kinship::KinshipGeneration>)
    requires
        lists_relatives(records, upward, origin, s),
    ensures
        s.len() == relative_set(records, upward, origin).len(),
        relative_set(records, upward, origin).finite(),
{
    let ids = Seq::new(s.len(), |i: int| s[i].entity_id);
    assert forall|i: int, j: int| 0 <= i < j < ids.len() implies ids[i] != ids[j] by {
        assert(crate::kinship::generation_before(s[i], s[j]));
    }
    assert(ids.no_duplicates());
    assert forall|v: u32| #[trigger] ids.to_set().contains(v) <==> relative_set(records, upward, origin).contains(v) by {
        if ids.to_set().contains(v) {
            assert(ids.contains(v));
            let i = choose|i: int| 0 <= i < ids.len() && ids[i] == v;
            crate::kinship::lemma_listed_public(records, upward, origin, s, v);
            assert(exists|i: int| 0 <= i < s.len() && s[i].entity_id == v);
        }
        if relative_set(records, upward, origin).contains(v) {
            crate::kinship::lemma_listed_public(records, upward, origin, s, v);
            let i = choose|i: int| 0 <= i < s.len() && s[i].entity_id == v;
            assert(ids[i] == v);
            assert(ids.contains(v));
        }
    }
    assert(ids.to_set() =~= relative_set(records, upward, origin));
    ids.unique_seq_to_set();
}

/// A synthetic multi-generation lineage for measuring kinship queries that return
/// children: ten equal generations, ids `1..=population` in generation order, founders
/// without parents and everyone else with two distinct parents from the previous
/// generation.
pub struct BenchmarkKinshipFixture {
    genealogy: Genealogy,
    parent_ids: Vec<u32>,
    focal_ids: Vec<u32>,
    pair_ids: Vec<(u32, u32)>,
}

impl BenchmarkKinshipFixture {
    pub closed spec fn spec_genealogy(&self) -> Genealogy {
        self.genealogy
    }

    pub closed spec fn spec_parent_ids(&self) -> Seq<u32> {
        self.parent_ids@
    }

    pub closed spec fn spec_focal_ids(&self) -> Seq<u32> {
        self.focal_ids@
    }

    pub closed spec fn spec_pair_ids(&self) -> Seq<(u32, u32)> {
        self.pair_ids@
    }

    /// The genealogy is well formed.
    pub closed spec fn wf(&self) -> bool {
        self.genealogy.wf()
    }

    /// Builds the fixture over `population` entities, which must fill the ten generations
    /// evenly. Samples 64 parents that have children, 16 founders, and 16 consecutive-id
    /// pairs from the last generation.
    pub fn new(population: u32) -> (r: Result<Self, String>)
        ensures
            (population == 0 || population % KINSHIP_FIXTURE_GENERATIONS != 0) ==> (r matches Err(message)
                && message@ == lineage_population_message(population, KINSHIP_FIXTURE_GENERATIONS)),
            population != 0 && population % KINSHIP_FIXTURE_GENERATIONS == 0 ==> (r matches Ok(fixture) && {
                let size = population / KINSHIP_FIXTURE_GENERATIONS;
                let records = fixture_records(population);
                &&& fixture.wf()
                &&& fixture.spec_genealogy().spec_records() == records
                &&& exists|parents: Seq<u32>|
                    {
                        &&& crate::idset::strictly_increasing(parents)
                        &&& forall|v: u32| #[trigger] parents.contains(v) <==> is_recorded_parent(records, v)
                        &&& fixture.spec_parent_ids().len() == spread_take(
                            0,
                            parents.len() as u32,
                            KINSHIP_FIXTURE_PARENT_SAMPLES,
                        )
                        &&& forall|k: int|
                            0 <= k < fixture.spec_parent_ids().len() ==> #[trigger] fixture.spec_parent_ids()[k]
                                == parents[k * spread_span(0, parents.len() as u32) / spread_take(
                                0,
                                parents.len() as u32,
                                KINSHIP_FIXTURE_PARENT_SAMPLES,
                            )]
                    }
                &&& fixture.spec_focal_ids().len() == spread_take(1, (1 + size) as u32, KINSHIP_FIXTURE_FOCAL_SAMPLES)
                &&& forall|k: int|
                    0 <= k < fixture.spec_focal_ids().len() ==> #[trigger] fixture.spec_focal_ids()[k] == 1 + k
                        * spread_span(1, (1 + size) as u32) / spread_take(
                        1,
                        (1 + size) as u32,
                        KINSHIP_FIXTURE_FOCAL_SAMPLES,
                    )
                &&& fixture.spec_pair_ids().len() == spread_take(
                    (1 + 9 * size) as u32,
                    population,
                    KINSHIP_FIXTURE_PAIR_SAMPLES,
                )
                &&& forall|k: int|
                    0 <= k < fixture.spec_pair_ids().len() ==> {
                        let first = (1 + 9 * size) + k * spread_span((1 + 9 * size) as u32, population) / spread_take(
                            (1 + 9 * size) as u32,
                            population,
                            KINSHIP_FIXTURE_PAIR_SAMPLES,
                        );
                        #[trigger] fixture.spec_pair_ids()[k] == (first as u32, (first + 1) as u32)
                    }
            }),
    {
        let parents = match synthetic_lineage_parents(population, KINSHIP_FIXTURE_GENERATIONS) {
            Ok(parents) => parents,
            Err(message) => {
                return Err(message);
            },
        };
        let generation_size = population / KINSHIP_FIXTURE_GENERATIONS;
        let ghost records = fixture_records(population);
        let mut genealogy = Genealogy::new();
        let mut index: u32 = 0;
        while index < population
            invariant
                genealogy.wf(),
                population % KINSHIP_FIXTURE_GENERATIONS == 0,
                generation_size == population / KINSHIP_FIXTURE_GENERATIONS,
                records == fixture_records(population),
                parents@.len() == population,
                forall|i: int| 0 <= i < population ==> #[trigger] parents@[i] == spec_lineage_parents_at(generation_size, i),
                0 <= index <= population,
                genealogy.spec_records() == records.subrange(0, index as int),
            decreases population - index,
        {
            let (mother, father) = parents[index as usize];
            proof {
                assert(parents@[index as int] == spec_lineage_parents_at(generation_size, index as int));
                lemma_lineage_parents_in_range(population, index as int);
            }
            let mother_id = match mother {
                Some(m) => Some(m + 1),
                None => None,
            };
            let father_id = match father {
                Some(f) => Some(f + 1),
                None => None,
            };
            proof {
                if index > 0 {
                    assert(genealogy.spec_records().last() == records[index - 1]);
                }
            }
            genealogy.register(index + 1, mother_id, father_id);
            proof {
                assert(records[index as int] == LineageRecord { entity_id: (index + 1) as u32, mother_id, father_id });
                assert(genealogy.spec_records() =~= records.subrange(0, index + 1));
            }
            index += 1;
        }
        proof {
            assert(records.subrange(0, population as int) =~= records);
        }
        // Parents that are known to have children, in increasing id order.
        let mut with_children = IdSet::new();
        let all = genealogy.records();
        let mut i: usize = 0;
        while i < all.len()
            invariant
                with_children.wf(),
                0 <= i <= all@.len(),
                forall|v: u32| #[trigger] with_children@.contains(v) <==> is_recorded_parent(all@.subrange(0, i as int), v),
            decreases all@.len() - i,
        {
            let record = all[i];
            let ghost prefix = all@.subrange(0, i as int);
            match record.mother_id {
                Some(m) => {
                    with_children.insert(m);
                },
                None => {},
            }
            match record.father_id {
                Some(f) => {
                    with_children.insert(f);
                },
                None => {},
            }
            proof {
                let extended = all@.subrange(0, i + 1);
                assert forall|v: u32| #[trigger] with_children@.contains(v) <==> is_recorded_parent(extended, v) by {
                    if is_recorded_parent(prefix, v) {
                        let j = choose|j: int| 0 <= j < prefix.len() && has_parent(#[trigger] prefix[j], v);
                        assert(extended[j] == prefix[j]);
                    }
                    if is_recorded_parent(extended, v) {
                        let j = choose|j: int| 0 <= j < extended.len() && has_parent(#[trigger] extended[j], v);
                        if j < i {
                            assert(prefix[j] == extended[j]);
                        } else {
                            assert(extended[j] == record);
                        }
                    }
                    if has_parent(record, v) {
                        assert(extended[i as int] == record);
                    }
                }
            }
            i += 1;
        }
        proof {
            assert(all@.subrange(0, all@.len() as int) =~= all@);
            with_children.lemma_increasing();
        }
        let parent_count = with_children.len();
        proof {
            let size = generation_size;
            assert(size * 10 == population && size > 0) by (nonlinear_arith)
                requires
                    size == population / 10,
                    population % 10 == 0,
                    population > 0,
            ;
            // The first entity of the second generation has a mother, so some parent exists.
            lemma_first_child_has_mother(population);
            let m = spec_lineage_parents_at(size, size as int).0->0;
            assert(records[size as int] == fixture_record(size, size as int));
            assert(has_parent(records[size as int], (m + 1) as u32));
            assert(with_children@.contains((m + 1) as u32));
            // Every recorded parent is an id in `1..=population`.
            assert forall|j: int| 0 <= j < with_children@.len() implies 1 <= #[trigger] with_children@[j] <= population by {
                assert(with_children@.contains(with_children@[j]));
                let r = choose|r: int| 0 <= r < records.len() && has_parent(#[trigger] records[r], with_children@[j]);
                lemma_lineage_parents_in_range(population, r);
            }
            lemma_increasing_ids_bounded(with_children@, population);
        }
        let samples = spread_sample(0, parent_count as u32, KINSHIP_FIXTURE_PARENT_SAMPLES);
        let mut parent_ids: Vec<u32> = Vec::new();
        let mut k: usize = 0;
        while k < samples.len()
            invariant
                with_children.wf(),
                parent_count == with_children@.len(),
                parent_count > 0,
                samples@.len() == spread_take(0, parent_count as u32, KINSHIP_FIXTURE_PARENT_SAMPLES),
                forall|j: int|
                    0 <= j < samples@.len() ==> #[trigger] samples@[j] == j * spread_span(0, parent_count as u32)
                        / spread_take(0, parent_count as u32, KINSHIP_FIXTURE_PARENT_SAMPLES),
                0 <= k <= samples@.len(),
                parent_ids@.len() == k,
                forall|j: int|
                    0 <= j < k ==> #[trigger] parent_ids@[j] == with_children@[j * spread_span(0, parent_count as u32)
                        / spread_take(0, parent_count as u32, KINSHIP_FIXTURE_PARENT_SAMPLES)],
            decreases samples@.len() - k,
        {
            proof {
                let span = spread_span(0, parent_count as u32);
                let take = spread_take(0, parent_count as u32, KINSHIP_FIXTURE_PARENT_SAMPLES);
                assert(k * span / take < span) by (nonlinear_arith)
                    requires
                        k < take,
                        1 <= take <= span,
                {
                    assert(k * span <= take * span - span);
                }
            }
            parent_ids.push(with_children.get(samples[k] as usize));
            k += 1;
        }
        let focal_ids = spread_sample(1, 1 + generation_size, KINSHIP_FIXTURE_FOCAL_SAMPLES);
        let last_generation_start = 1 + (KINSHIP_FIXTURE_GENERATIONS - 1) * generation_size;
        let firsts = spread_sample(last_generation_start, population, KINSHIP_FIXTURE_PAIR_SAMPLES);
        let mut pair_ids: Vec<(u32, u32)> = Vec::new();
        let mut m: usize = 0;
        while m < firsts.len()
            invariant
                population % 10 == 0,
                last_generation_start <= population,
                firsts@.len() == spread_take(last_generation_start, population, KINSHIP_FIXTURE_PAIR_SAMPLES),
                forall|j: int|
                    0 <= j < firsts@.len() ==> #[trigger] firsts@[j] == last_generation_start + j * spread_span(
                        last_generation_start,
                        population,
                    ) / spread_take(last_generation_start, population, KINSHIP_FIXTURE_PAIR_SAMPLES),
                0 <= m <= firsts@.len(),
                pair_ids@.len() == m,
                forall|j: int| 0 <= j < m ==> #[trigger] pair_ids@[j] == (firsts@[j], (firsts@[j] + 1) as u32),
            decreases firsts@.len() - m,
        {
            proof {
                let span = spread_span(last_generation_start, population);
                let take = spread_take(last_generation_start, population, KINSHIP_FIXTURE_PAIR_SAMPLES);
                assert(m * span / take < span) by (nonlinear_arith)
                    requires
                        m < take,
                        1 <= take <= span,
                {
                    assert(m * span <= take * span - span);
                }
                assert(firsts@[m as int] == last_generation_start + m * span / take);
                assert(population <= 4_294_967_290);
            }
            pair_ids.push((firsts[m], firsts[m] + 1));
            m += 1;
        }
        let fixture = BenchmarkKinshipFixture { genealogy, parent_ids, focal_ids, pair_ids };
        proof {
            assert(fixture.spec_genealogy().spec_records() == records);
            let parents = with_children@;
            assert(forall|v: u32| #[trigger] parents.contains(v) <==> is_recorded_parent(records, v));
        }
        Ok(fixture)
    }
}

/// The first entity of the second generation has a mother.
proof fn lemma_first_child_has_mother(population: u32)
    requires
        population > 0,
        population % KINSHIP_FIXTURE_GENERATIONS == 0,
    ensures
        spec_lineage_parents_at(population / KINSHIP_FIXTURE_GENERATIONS, (population / KINSHIP_FIXTURE_GENERATIONS) as int).0
            is Some,
        (population / KINSHIP_FIXTURE_GENERATIONS) < population,
{
    let size = population / KINSHIP_FIXTURE_GENERATIONS;
    assert(size * 10 == population && size > 0) by (nonlinear_arith)
        requires
            size == population / 10,
            population % 10 == 0,
            population > 0,
    ;
    assert((size as int) / (size as int) == 1 && (size as int) % (size as int) == 0) by (nonlinear_arith)
        requires
            size > 0,
    ;
}

/// A strictly increasing list of ids in `1..=bound` has at most `bound` entries.
proof fn lemma_increasing_ids_bounded(ids: Seq<u32>, bound: u32)
    requires
        crate::idset::strictly_increasing(ids),
        forall|j: int| 0 <= j < ids.len() ==> 1 <= #[trigger] ids[j] <= bound,
    ensures
        ids.len() <= bound,
{
    if ids.len() > 0 {
        assert forall|j: int| 0 <= j < ids.len() implies #[trigger] ids[j] >= j + 1 by {
            lemma_increasing_from_start(ids, j);
        }
        assert(ids[ids.len() - 1] >= ids.len());
    }
}

proof fn lemma_increasing_from_start(ids: Seq<u32>, j: int)
    requires
        crate::idset::strictly_increasing(ids),
        forall|k: int| 0 <= k < ids.len() ==> 1 <= #[trigger] ids[k],
        0 <= j < ids.len(),
    ensures
        ids[j] >= j + 1,
    decreases j,
{
    if j > 0 {
        lemma_increasing_from_start(ids, j - 1);
        assert(ids[j - 1] < ids[j]);
    }
}

/// Parent indices of the fixture stay below `population`, so the shifted ids fit.
proof fn lemma_lineage_parents_in_range(population: u32, position: int)
    requires
        population > 0,
        population % KINSHIP_FIXTURE_GENERATIONS == 0,
        0 <= position < population,
    ensures
        ({
            let parents = spec_lineage_parents_at(population / KINSHIP_FIXTURE_GENERATIONS, position);
            &&& parents.0 matches Some(m) ==> m < population
            &&& parents.1 matches Some(f) ==> f < population
        }),
{
    let size = population / KINSHIP_FIXTURE_GENERATIONS;
    assert(size * 10 == population && size > 0) by (nonlinear_arith)
        requires
            size == population / 10,
            population % 10 == 0,
            population > 0,
    ;
    let generation = position / size as int;
    assert(generation < 10 && generation >= 0) by (nonlinear_arith)
        requires
            generation == position / size as int,
            0 <= position < size * 10,
            size > 0,
    ;
    if generation > 0 {
        assert((generation - 1) * size + size <= population) by (nonlinear_arith)
            requires
                generation <= 9,
                generation >= 1,
                size * 10 == population,
                size > 0,
        ;
    }
}

impl BenchmarkKinshipFixture {
    /// The fixture's genealogy.
    pub fn genealogy(&self) -> (r: &Genealogy)
        ensures
            *r == self.spec_genealogy(),
    {
        &self.genealogy
    }

    /// Sum of the children's ids of every sampled parent, read through `children_of`.
    pub fn children_of_index(&self) -> (r: usize)
        requires
            self.wf(),
            children_total(self.spec_genealogy().spec_records(), self.spec_parent_ids()) <= usize::MAX,
        ensures
            r == children_total(self.spec_genealogy().spec_records(), self.spec_parent_ids()),
    {
        let ghost records = self.genealogy.spec_records();
        let mut total: usize = 0;
        let mut k: usize = 0;
        while k < self.parent_ids.len()
            invariant
                self.wf(),
                records == self.spec_genealogy().spec_records(),
                children_total(records, self.parent_ids@) <= usize::MAX,
                0 <= k <= self.parent_ids@.len(),
                total == children_total(records, self.parent_ids@.subrange(0, k as int)),
            decreases self.parent_ids@.len() - k,
        {
            let children = children_of(&self.genealogy, self.parent_ids[k]);
            let ghost base = total as int;
            proof {
                lemma_children_total_grows(records, self.parent_ids@, k + 1);
                assert(self.parent_ids@.subrange(0, k + 1).drop_last() =~= self.parent_ids@.subrange(0, k as int));
            }
            let mut sum: usize = 0;
            let mut c: usize = 0;
            while c < children.len()
                invariant
                    0 <= c <= children@.len(),
                    base + id_sum(children@) <= usize::MAX,
                    sum == id_sum(children@.subrange(0, c as int)),
                    total == base,
                decreases children@.len() - c,
            {
                proof {
                    assert(children@.subrange(0, c + 1).drop_last() =~= children@.subrange(0, c as int));
                    lemma_id_sum_prefix(children@, c + 1);
                }
                sum = sum + children[c] as usize;
                c += 1;
            }
            assert(children@.subrange(0, children@.len() as int) =~= children@);
            total = total + sum;
            k += 1;
        }
        assert(self.parent_ids@.subrange(0, self.parent_ids@.len() as int) =~= self.parent_ids@);
        total
    }

    /// The same lookups as `children_of_index`, reading the genealogy's index directly.
    pub fn children_of_index_without_copy(&self) -> (r: usize)
        requires
            self.wf(),
            children_total(self.spec_genealogy().spec_records(), self.spec_parent_ids()) <= usize::MAX,
        ensures
            r == children_total(self.spec_genealogy().spec_records(), self.spec_parent_ids()),
    {
        let ghost records = self.genealogy.spec_records();
        let mut total: usize = 0;
        let mut k: usize = 0;
        while k < self.parent_ids.len()
            invariant
                self.wf(),
                records == self.spec_genealogy().spec_records(),
                children_total(records, self.parent_ids@) <= usize::MAX,
                0 <= k <= self.parent_ids@.len(),
                total == children_total(records, self.parent_ids@.subrange(0, k as int)),
            decreases self.parent_ids@.len() - k,
        {
            let children = self.genealogy.children_of(self.parent_ids[k]);
            let ghost base = total as int;
            proof {
                lemma_children_total_grows(records, self.parent_ids@, k + 1);
                assert(self.parent_ids@.subrange(0, k + 1).drop_last() =~= self.parent_ids@.subrange(0, k as int));
            }
            let mut sum: usize = 0;
            let mut c: usize = 0;
            while c < children.len()
                invariant
                    0 <= c <= children@.len(),
                    base + id_sum(children@) <= usize::MAX,
                    sum == id_sum(children@.subrange(0, c as int)),
                    total == base,
                decreases children@.len() - c,
            {
                proof {
                    assert(children@.subrange(0, c + 1).drop_last() =~= children@.subrange(0, c as int));
                    lemma_id_sum_prefix(children@, c + 1);
                }
                sum = sum + children[c] as usize;
                c += 1;
            }
            assert(children@.subrange(0, children@.len() as int) =~= children@);
            total = total + sum;
            k += 1;
        }
        assert(self.parent_ids@.subrange(0, self.parent_ids@.len() as int) =~= self.parent_ids@);
        total
    }

    /// The same sum found by scanning every record for each sampled parent.
    pub fn children_of_scan(&self) -> (r: usize)
        requires
            self.wf(),
            children_total(self.spec_genealogy().spec_records(), self.spec_parent_ids()) <= usize::MAX,
        ensures
            r == children_total(self.spec_genealogy().spec_records(), self.spec_parent_ids()),
    {
        let ghost records = self.genealogy.spec_records();
        let all = self.genealogy.records();
        let mut total: usize = 0;
        let mut k: usize = 0;
        while k < self.parent_ids.len()
            invariant
                records == self.spec_genealogy().spec_records(),
                all@ == records,
                children_total(records, self.parent_ids@) <= usize::MAX,
                0 <= k <= self.parent_ids@.len(),
                total == children_total(records, self.parent_ids@.subrange(0, k as int)),
            decreases self.parent_ids@.len() - k,
        {
            let parent_id = self.parent_ids[k];
            let ghost base = total as int;
            proof {
                lemma_children_total_grows(records, self.parent_ids@, k + 1);
                assert(self.parent_ids@.subrange(0, k + 1).drop_last() =~= self.parent_ids@.subrange(0, k as int));
            }
            let mut sum: usize = 0;
            let mut i: usize = 0;
            while i < all.len()
                invariant
                    all@ == records,
                    0 <= i <= records.len(),
                    base + id_sum(spec_children(records, parent_id)) <= usize::MAX,
                    sum == id_sum(spec_children(records.subrange(0, i as int), parent_id)),
                    total == base,
                decreases records.len() - i,
            {
                let record = all[i];
                proof {
                    let prefix = records.subrange(0, i + 1);
                    let before = spec_children(records.subrange(0, i as int), parent_id);
                    assert(prefix.drop_last() =~= records.subrange(0, i as int));
                    assert(prefix.last() == record);
                    assert(spec_children(prefix, parent_id) == if has_parent(record, parent_id) {
                        before.push(record.entity_id)
                    } else {
                        before
                    });
                    assert(before.push(record.entity_id).drop_last() =~= before);
                    lemma_children_sum_prefix(records, parent_id, i + 1);
                }
                let named = match record.mother_id {
                    Some(m) => m == parent_id,
                    None => false,
                } || match record.father_id {
                    Some(f) => f == parent_id,
                    None => false,
                };
                if named {
                    sum = sum + record.entity_id as usize;
                }
                i += 1;
            }
            assert(records.subrange(0, records.len() as int) =~= records);
            total = total + sum;
            k += 1;
        }
        assert(self.parent_ids@.subrange(0, self.parent_ids@.len() as int) =~= self.parent_ids@);
        total
    }

    /// Number of descendants of every sampled founder, added up.
    pub fn descendants(&self) -> (r: usize)
        requires
            self.wf(),
            descendant_total(self.spec_genealogy().spec_records(), self.spec_focal_ids()) <= usize::MAX,
        ensures
            r == descendant_total(self.spec_genealogy().spec_records(), self.spec_focal_ids()),
    {
        let ghost records = self.genealogy.spec_records();
        let mut total: usize = 0;
        let mut k: usize = 0;
        while k < self.focal_ids.len()
            invariant
                self.wf(),
                records == self.spec_genealogy().spec_records(),
                descendant_total(records, self.focal_ids@) <= usize::MAX,
                0 <= k <= self.focal_ids@.len(),
                total == descendant_total(records, self.focal_ids@.subrange(0, k as int)),
            decreases self.focal_ids@.len() - k,
        {
            let found = descendants_of(&self.genealogy, self.focal_ids[k]);
            proof {
                lemma_relatives_len(records, false, self.focal_ids@[k as int], found@);
                lemma_descendant_total_grows(records, self.focal_ids@, k + 1);
                assert(self.focal_ids@.subrange(0, k + 1).drop_last() =~= self.focal_ids@.subrange(0, k as int));
            }
            total = total + found.len();
            k += 1;
        }
        assert(self.focal_ids@.subrange(0, self.focal_ids@.len() as int) =~= self.focal_ids@);
        total
    }

    /// How many sampled pairs are related in some way.
    pub fn relationships(&self) -> (r: usize)
        requires
            self.wf(),
        ensures
            r == related_pair_count(self.spec_genealogy().spec_records(), self.spec_pair_ids()),
    {
        let ghost records = self.genealogy.spec_records();
        let mut count: usize = 0;
        let mut k: usize = 0;
        while k < self.pair_ids.len()
            invariant
                self.wf(),
                records == self.spec_genealogy().spec_records(),
                0 <= k <= self.pair_ids@.len(),
                count == related_pair_count(records, self.pair_ids@.subrange(0, k as int)),
                count <= k,
            decreases self.pair_ids@.len() - k,
        {
            let (first_id, second_id) = self.pair_ids[k];
            proof {
                assert(self.pair_ids@.subrange(0, k + 1).drop_last() =~= self.pair_ids@.subrange(0, k as int));
            }
            if relationship_between(&self.genealogy, first_id, second_id) != KinshipRelation::Unrelated {
                count = count + 1;
            }
            k += 1;
        }
        assert(self.pair_ids@.subrange(0, self.pair_ids@.len() as int) =~= self.pair_ids@);
        count
    }
}

proof fn lemma_id_sum_prefix(ids: Seq<u32>, k: int)
    requires
        0 <= k <= ids.len(),
    ensures
        id_sum(ids.subrange(0, k)) <= id_sum(ids),
    decreases ids.len() - k,
{
    if k < ids.len() {
        lemma_id_sum_prefix(ids.drop_last(), k);
        assert(ids.drop_last().subrange(0, k) =~= ids.subrange(0, k));
    } else {
        assert(ids.subrange(0, k) =~= ids);
    }
}

proof fn lemma_children_sum_prefix(records: Seq<LineageRecord>, parent_id: u32, k: int)
    requires
        0 <= k <= records.len(),
    ensures
        id_sum(spec_children(records.subrange(0, k), parent_id)) <= id_sum(spec_children(records, parent_id)),
    decreases records.len() - k,
{
    if k < records.len() {
        lemma_children_sum_prefix(records.drop_last(), parent_id, k);
        assert(records.drop_last().subrange(0, k) =~= records.subrange(0, k));
        let rest = spec_children(records.drop_last(), parent_id);
        if has_parent(records.last(), parent_id) {
            assert(rest.push(records.last().entity_id).drop_last() =~= rest);
        }
    } else {
        assert(records.subrange(0, k) =~= records);
    }
}

proof fn lemma_descendant_total_grows(records: Seq<LineageRecord>, focal_ids: Seq<u32>, k: int)
    requires
        0 <= k <= focal_ids.len(),
    ensures
        descendant_total(records, focal_ids.subrange(0, k)) <= descendant_total(records, focal_ids),
    decreases focal_ids.len() - k,
{
    if k < focal_ids.len() {
        lemma_descendant_total_grows(records, focal_ids.drop_last(), k);
        assert(focal_ids.drop_last().subrange(0, k) =~= focal_ids.subrange(0, k));
    } else {
        assert(focal_ids.subrange(0, k) =~= focal_ids);
    }
}

} // verus!
