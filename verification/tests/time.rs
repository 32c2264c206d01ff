use nexus_engine::time::{
    years_from_ticks, GESTATION_TICKS, POSTPARTUM_TICKS, TICKS_PER_DAY, TICKS_PER_WEEK, TICKS_PER_YEAR,
};

#[test]
fn calendar_units_nest() {
    assert_eq!(TICKS_PER_DAY, 24);
    assert_eq!(TICKS_PER_WEEK, 7 * TICKS_PER_DAY);
    assert_eq!(TICKS_PER_YEAR, 365 * TICKS_PER_DAY);
    assert_eq!(GESTATION_TICKS, 40 * TICKS_PER_WEEK);
    assert_eq!(POSTPARTUM_TICKS, 180 * TICKS_PER_DAY);
}

#[test]
fn whole_years_round_down() {
    assert_eq!(years_from_ticks(0), 0);
    assert_eq!(years_from_ticks(TICKS_PER_YEAR - 1), 0);
    assert_eq!(years_from_ticks(TICKS_PER_YEAR), 1);
    assert_eq!(years_from_ticks(18 * TICKS_PER_YEAR + 5), 18);
}

