use nexus_engine::entity::{Pregnancy, Sex};
use nexus_engine::lifecycle::{
    adjacent_birth_position, conception_roll, entity_random, founder_age_for, process_due_pregnancies,
    select_reproduction_partner, sex_for, spawn_candidates, PartnerCandidate, PendingBirth, ReproductiveState,
    DAILY_CONCEPTION_SCALE, FOUNDER_AGE_SALT, SEX_SALT,
};
use nexus_engine::time::{FOUNDER_AGE_MAX, FOUNDER_AGE_MIN, POSTPARTUM_TICKS, TICKS_PER_YEAR};
use nexus_engine::world::{Grid, Region, ResourceDeposit, ResourceKind, Terrain, Tile};

fn splitmix(mut value: u64) -> u64 {
    value ^= value >> 30;
    value = value.wrapping_mul(0xbf58_476d_1ce4_e5b9);
    value ^= value >> 27;
    value = value.wrapping_mul(0x94d0_49bb_1331_11eb);
    value ^ (value >> 31)
}

fn grid_from_rows(rows: &[&str]) -> Grid {
    let height = rows.len() as u32;
    let width = rows[0].len() as u32;
    let tiles = rows
        .iter()
        .flat_map(|row| row.chars())
        .map(|symbol| Tile {
            terrain: match symbol {
                'P' => Terrain::Plains,
                '#' => Terrain::DeepWater,
                _ => panic!("unknown terrain symbol: {symbol}"),
            },
        })
        .collect();
    Grid {
        width,
        height,
        tiles,
        region_ids: Vec::new(),
        regions: Vec::<Region>::new(),
        resources: vec![None; (width * height) as usize],
        renewable_resources: Vec::new(),
    }
}

#[test]
fn entity_draws_mix_seed_id_and_salt() {
    let seed = 0x1234_5678_9abc_def0;
    let expected = splitmix(seed ^ 7u64.wrapping_mul(0x9e37_79b9_7f4a_7c15) ^ SEX_SALT);
    assert_eq!(entity_random(seed, 7, SEX_SALT), expected);
    assert_ne!(entity_random(seed, 7, SEX_SALT), entity_random(seed, 7, FOUNDER_AGE_SALT));
}

#[test]
fn sex_follows_the_low_bit_of_the_draw() {
    for id in 0..64 {
        let draw = entity_random(99, id, SEX_SALT);
        let expected = if draw & 1 == 0 { Sex::Female } else { Sex::Male };
        assert_eq!(sex_for(99, id), expected);
    }
}

#[test]
fn founder_ages_stay_between_eighteen_and_forty_years() {
    for id in 0..200 {
        let age = founder_age_for(42, id);
        assert!((FOUNDER_AGE_MIN..=FOUNDER_AGE_MAX).contains(&age));
        let span = FOUNDER_AGE_MAX - FOUNDER_AGE_MIN + 1;
        assert_eq!(age, FOUNDER_AGE_MIN + entity_random(42, id, FOUNDER_AGE_SALT) % span);
    }
    assert_eq!(FOUNDER_AGE_MIN, 18 * TICKS_PER_YEAR);
    assert_eq!(FOUNDER_AGE_MAX, 40 * TICKS_PER_YEAR);
}

#[test]
fn conception_roll_is_deterministic_and_below_scale() {
    let seed = 5;
    let value = seed
        ^ 3u64.wrapping_mul(0x9e37_79b9_7f4a_7c15)
        ^ 4u64.wrapping_mul(0xbf58_476d_1ce4_e5b9)
        ^ 100u64.wrapping_mul(0x94d0_49bb_1331_11eb);
    assert_eq!(conception_roll(seed, 3, 4, 100), splitmix(value) % DAILY_CONCEPTION_SCALE);
    for tick in 0..100 {
        assert!(conception_roll(seed, 3, 4, tick) < DAILY_CONCEPTION_SCALE);
    }
}

#[test]
fn birth_spot_scans_rows_from_above() {
    let world = grid_from_rows(&["PPP", "PPP", "PPP"]);
    assert_eq!(adjacent_birth_position(&world, (1, 1), &Vec::new()), Some((0, 0)));
    assert_eq!(adjacent_birth_position(&world, (1, 1), &vec![(0, 0)]), Some((1, 0)));
}

#[test]
fn birth_spot_skips_the_border_and_occupied_tiles() {
    let world = grid_from_rows(&["PPP", "PPP", "PPP"]);
    assert_eq!(adjacent_birth_position(&world, (0, 0), &Vec::new()), Some((1, 0)));
    assert_eq!(adjacent_birth_position(&world, (0, 0), &vec![(1, 0)]), Some((0, 1)));
}

#[test]
fn birth_spot_needs_walkable_ground() {
    let world = grid_from_rows(&["###", "#P#", "###"]);
    assert_eq!(adjacent_birth_position(&world, (1, 1), &Vec::new()), None);
    let world = grid_from_rows(&["###", "#P#", "##P"]);
    assert_eq!(adjacent_birth_position(&world, (1, 1), &Vec::new()), Some((2, 2)));
}

fn plains_world(width: u32, height: u32) -> Grid {
    Grid {
        width,
        height,
        tiles: vec![Tile { terrain: Terrain::Plains }; (width * height) as usize],
        region_ids: Vec::new(),
        regions: Vec::<Region>::new(),
        resources: vec![None; (width * height) as usize],
        renewable_resources: Vec::new(),
    }
}

#[test]
fn spawn_points_ring_the_food_first() {
    let mut world = plains_world(30, 30);
    world.resources[15 * 30 + 15] = Some(ResourceDeposit { kind: ResourceKind::Food, amount: 50 });
    let candidates = spawn_candidates(&world);
    assert_eq!(&candidates[..5], &[(9, 15), (10, 16), (10, 14), (11, 17), (11, 13)]);
    assert_eq!(candidates.len(), 900);
    let mut sorted = candidates.clone();
    sorted.sort_unstable();
    sorted.dedup();
    assert_eq!(sorted.len(), 900);
    let ring_points = (6..=12).map(|radius| 4 * radius).sum::<usize>();
    for (x, y) in &candidates[..ring_points] {
        let distance = x.abs_diff(15) + y.abs_diff(15);
        assert!((6..=12).contains(&distance));
    }
    assert_eq!(candidates[ring_points], (15, 15));
}

#[test]
fn spawn_points_without_food_start_at_the_centre() {
    let world = plains_world(5, 5);
    let candidates = spawn_candidates(&world);
    assert_eq!(&candidates[..5], &[(2, 2), (2, 1), (1, 2), (3, 2), (2, 3)]);
    assert_eq!(candidates.len(), 25);
}

#[test]
fn spawn_points_skip_water_and_empty_deposits() {
    let mut world = grid_from_rows(&["P#P", "###", "P#P"]);
    world.resources[0] = Some(ResourceDeposit { kind: ResourceKind::Food, amount: 0 });
    world.resources[2] = Some(ResourceDeposit { kind: ResourceKind::Stone, amount: 9 });
    let candidates = spawn_candidates(&world);
    assert_eq!(candidates, vec![(0, 0), (2, 0), (0, 2), (2, 2)]);
}

#[test]
fn partner_is_kept_while_eligible() {
    let candidate = |id: u32, position: (u32, u32), fertile: bool, mine: Option<i16>, theirs: Option<i16>| {
        PartnerCandidate { id, position, fertile, affinity_from_female: mine, affinity_to_female: theirs }
    };
    let candidates = vec![
        candidate(4, (5, 5), true, Some(500), Some(500)),
        candidate(7, (6, 5), true, Some(0), None),
    ];
    assert_eq!(select_reproduction_partner((5, 6), Some(7), &candidates), Some(7));
    assert_eq!(select_reproduction_partner((5, 6), None, &candidates), Some(4));
    let far = vec![candidate(7, (9, 9), true, None, None), candidate(4, (5, 5), true, None, None)];
    assert_eq!(select_reproduction_partner((5, 6), Some(7), &far), Some(4));
}

#[test]
fn partner_ranking_prefers_reciprocity_then_total_then_distance_then_id() {
    let candidate = |id: u32, position: (u32, u32), mine: i16, theirs: i16| PartnerCandidate {
        id,
        position,
        fertile: true,
        affinity_from_female: Some(mine),
        affinity_to_female: Some(theirs),
    };
    let female = (10, 10);
    assert_eq!(
        select_reproduction_partner(female, None, &vec![candidate(1, (10, 11), 900, 10), candidate(2, (10, 11), 50, 60)]),
        Some(2)
    );
    assert_eq!(
        select_reproduction_partner(female, None, &vec![candidate(1, (10, 11), 50, 70), candidate(2, (10, 11), 50, 60)]),
        Some(1)
    );
    assert_eq!(
        select_reproduction_partner(female, None, &vec![candidate(1, (10, 12), 50, 60), candidate(2, (10, 11), 50, 60)]),
        Some(2)
    );
    assert_eq!(
        select_reproduction_partner(female, None, &vec![candidate(9, (10, 11), 50, 60), candidate(3, (11, 10), 50, 60)]),
        Some(3)
    );
}

#[test]
fn partners_must_be_fertile_close_and_not_hostile() {
    let female = (0, 0);
    let base = PartnerCandidate {
        id: 1,
        position: (1, 1),
        fertile: true,
        affinity_from_female: None,
        affinity_to_female: None,
    };
    assert_eq!(select_reproduction_partner(female, None, &vec![base]), Some(1));
    assert_eq!(select_reproduction_partner(female, None, &vec![PartnerCandidate { fertile: false, ..base }]), None);
    assert_eq!(select_reproduction_partner(female, None, &vec![PartnerCandidate { position: (2, 1), ..base }]), None);
    assert_eq!(
        select_reproduction_partner(female, None, &vec![PartnerCandidate { affinity_from_female: Some(-201), ..base }]),
        None
    );
    assert_eq!(
        select_reproduction_partner(female, None, &vec![PartnerCandidate { affinity_to_female: Some(-200), ..base }]),
        Some(1)
    );
    assert_eq!(select_reproduction_partner(female, None, &Vec::new()), None);
}

#[test]
fn due_mothers_give_birth_beside_them_up_to_the_limit() {
    let world = plains_world(6, 6);
    let pregnant = |id: u32, position: (u32, u32), due_tick: u64| ReproductiveState {
        id,
        position,
        pregnancy: Some(Pregnancy { father_id: 100 + id, conceived_tick: 0, due_tick }),
        postpartum_until_tick: 0,
    };
    let mut states = vec![
        pregnant(1, (1, 1), 50),
        pregnant(2, (0, 1), 80),
        pregnant(3, (1, 0), 50),
        ReproductiveState { id: 4, position: (0, 0), pregnancy: None, postpartum_until_tick: 0 },
        pregnant(5, (4, 4), 10),
    ];
    let births = process_due_pregnancies(&mut states, &world, 60, 2);
    assert_eq!(
        births,
        vec![
            PendingBirth { position: (2, 0), mother_id: 1, father_id: 101 },
            PendingBirth { position: (2, 1), mother_id: 3, father_id: 103 },
        ]
    );
    assert_eq!(states[0].pregnancy, None);
    assert_eq!(states[0].postpartum_until_tick, 60 + POSTPARTUM_TICKS);
    assert!(states[1].pregnancy.is_some());
    assert_eq!(states[2].pregnancy, None);
    assert!(states[4].pregnancy.is_some());
}

#[test]
fn a_boxed_in_mother_waits() {
    let world = grid_from_rows(&["###", "#P#", "###"]);
    let mut states = vec![ReproductiveState {
        id: 1,
        position: (1, 1),
        pregnancy: Some(Pregnancy { father_id: 2, conceived_tick: 0, due_tick: 5 }),
        postpartum_until_tick: 0,
    }];
    assert!(process_due_pregnancies(&mut states, &world, 9, 10).is_empty());
    assert!(states[0].pregnancy.is_some());
}
