use nexus_engine::benchmarking::{
    fixture_hash, scenario_names, scenario_populations, spread_sample, synthetic_lineage_parents,
    BenchmarkKinshipFixture, BenchmarkWorkload, KINSHIP_FIXTURE_GENERATIONS, MAX_POPULATION,
};
use nexus_engine::kinship::descendants_of;
use std::collections::HashSet;

#[test]
fn seeded_lineage_does_not_give_every_parent_the_same_number_of_children() {
    let parents = synthetic_lineage_parents(1_000, 10).expect("valid lineage population");

    let mut by_parent: Vec<u32> = parents
        .iter()
        .flat_map(|(mother, father)| [(*mother), (*father)])
        .flatten()
        .collect();
    by_parent.sort_unstable();
    let mut unique = by_parent.clone();
    unique.dedup();

    let counts: Vec<usize> = unique
        .iter()
        .map(|parent| by_parent.iter().filter(|other| *other == parent).count())
        .collect();
    let fewest = counts.iter().min().expect("seeded parents");
    let most = counts.iter().max().expect("seeded parents");
    assert!(
        most > fewest,
        "degenerate lineage: every parent has exactly {fewest} children, so every \
         kinship query returns the same size and measures nothing"
    );
}

#[test]
fn registered_names_are_unique_and_stable() {
    let names: Vec<_> = scenario_names();
    assert_eq!(
        names,
        vec![
            "baseline-100",
            "baseline-1000",
            "baseline-10000",
            "dense-social-1000",
            "scarcity-1000",
            "households-1000",
            "pathfinding-heavy-1000",
            "lineage-1000",
            "long-run-1000",
        ]
    );
    assert_eq!(names.iter().copied().collect::<HashSet<_>>().len(), names.len());
    assert!(scenario_populations()
        .iter()
        .all(|&population| population as usize <= MAX_POPULATION));
}

#[test]
fn kinship_fixture_rejects_populations_that_cannot_fill_ten_generations() {
    assert!(BenchmarkKinshipFixture::new(0).is_err());
    // 95 does not divide into ten equal generations.
    assert!(BenchmarkKinshipFixture::new(95).is_err());
    assert!(BenchmarkKinshipFixture::new(10).is_ok());
    assert!(BenchmarkKinshipFixture::new(1_000).is_ok());
}

#[test]
fn kinship_fixture_links_every_non_founder_to_two_distinct_parents() {
    let population = 1_000u32;
    let generation_size = population / KINSHIP_FIXTURE_GENERATIONS;
    let fixture = BenchmarkKinshipFixture::new(population).unwrap();
    let records = fixture.genealogy().records();

    assert_eq!(records.len(), population as usize);

    let mut link_count = 0usize;
    for (position, record) in records.iter().enumerate() {
        let generation = position as u32 / generation_size;
        if generation == 0 {
            assert_eq!(
                (record.mother_id, record.father_id),
                (None, None),
                "founder {} must have no parents",
                record.entity_id
            );
            continue;
        }
        let (Some(mother_id), Some(father_id)) = (record.mother_id, record.father_id) else {
            panic!("entity {} must have two parents", record.entity_id);
        };
        assert_ne!(mother_id, father_id, "entity {} has the same parent twice", record.entity_id);
        let previous_start = 1 + (generation - 1) * generation_size;
        let previous_end = previous_start + generation_size;
        assert!(
            (previous_start..previous_end).contains(&mother_id)
                && (previous_start..previous_end).contains(&father_id),
            "entity {} has parents outside the previous generation",
            record.entity_id
        );
        link_count += 2;
    }

    assert_eq!(
        link_count,
        2 * (population - generation_size) as usize,
        "every non-founder contributes exactly two links"
    );
    for leaf_id in (1 + (KINSHIP_FIXTURE_GENERATIONS - 1) * generation_size)..=population {
        assert!(fixture.genealogy().children_of(leaf_id).is_empty());
    }
}

#[test]
fn kinship_fixture_lineages_actually_intermarry() {
    let population = 10_000u32;
    let generation_size = population / KINSHIP_FIXTURE_GENERATIONS;
    let fixture = BenchmarkKinshipFixture::new(population).unwrap();

    let deepest = descendants_of(fixture.genealogy(), 1).len();
    assert!(
        deepest > 2 * KINSHIP_FIXTURE_GENERATIONS as usize,
        "founder 1 has only {deepest} descendants; lineages are not mixing"
    );

    let founders_with_lineage = (1..=generation_size)
        .filter(|&founder_id| descendants_of(fixture.genealogy(), founder_id).len() > 2)
        .count();
    assert!(
        founders_with_lineage > generation_size as usize / 2,
        "only {founders_with_lineage} of {generation_size} founders have grandchildren"
    );
}

#[test]
fn kinship_fixture_index_matches_scan_with_real_children() {
    let fixture = BenchmarkKinshipFixture::new(10_000).unwrap();
    let indexed = fixture.children_of_index();
    let scanned = fixture.children_of_scan();

    assert!(indexed > 0, "the fixture must produce real children");
    assert_eq!(indexed, scanned, "the index disagrees with a record scan");
    assert_eq!(indexed, fixture.children_of_index_without_copy());
}

#[test]
fn kinship_fixture_walks_real_descendants_and_relationships() {
    let fixture = BenchmarkKinshipFixture::new(10_000).unwrap();

    let descendants = fixture.descendants();
    assert!(descendants > 0, "a founder must have descendants in a seeded lineage");

    let relationships = fixture.relationships();
    assert!(
        relationships > 0,
        "same-generation pairs must resolve to a real relation, not Unrelated"
    );

    let second = BenchmarkKinshipFixture::new(10_000).unwrap();
    assert_eq!(fixture.descendants(), descendants);
    assert_eq!(second.descendants(), descendants);
    assert_eq!(second.relationships(), relationships);
}

#[test]
fn lineage_errors_name_the_rejected_population() {
    assert_eq!(
        synthetic_lineage_parents(10, 0).unwrap_err(),
        "lineage needs at least one generation"
    );
    assert_eq!(
        synthetic_lineage_parents(95, 10).unwrap_err(),
        "lineage population 95 must be a nonzero multiple of 10"
    );
    match BenchmarkKinshipFixture::new(0) {
        Err(message) => assert_eq!(message, "lineage population 0 must be a nonzero multiple of 10"),
        Ok(_) => panic!("an empty population cannot fill ten generations"),
    }
}

#[test]
fn founders_have_no_parents_and_children_draw_from_the_previous_generation() {
    let parents = synthetic_lineage_parents(20, 2).unwrap();
    assert!(parents[..10].iter().all(|&pair| pair == (None, None)));
    for &(mother, father) in &parents[10..] {
        let (mother, father) = (mother.unwrap(), father.unwrap());
        assert!(mother < 10 && father < 10 && mother != father);
    }
}

#[test]
fn spread_sample_is_even_and_never_empty() {
    assert_eq!(spread_sample(0, 10, 5), vec![0, 2, 4, 6, 8]);
    assert_eq!(spread_sample(3, 5, 10), vec![3, 4]);
    assert_eq!(spread_sample(7, 7, 4), vec![7]);
    assert_eq!(spread_sample(7, 2, 0), vec![7]);
}

#[test]
fn fixture_hash_is_the_splitmix32_finalizer() {
    let reference = |value: u32| {
        let mut state = value.wrapping_add(0x9E37_79B9);
        state = (state ^ (state >> 16)).wrapping_mul(0x7FEB_352D);
        state = (state ^ (state >> 15)).wrapping_mul(0x846C_A68B);
        state ^ (state >> 16)
    };
    for value in [0, 1, 2, 0x8000_0000, u32::MAX] {
        assert_eq!(fixture_hash(value), reference(value));
    }
    assert_ne!(fixture_hash(0), fixture_hash(1));
}

#[test]
fn lineage_workload_records_its_generation_count() {
    let workload = BenchmarkWorkload::SeededLineage { generations: 10 };
    assert_eq!(workload, BenchmarkWorkload::SeededLineage { generations: 10 });
    assert_ne!(workload, BenchmarkWorkload::Baseline);
}
