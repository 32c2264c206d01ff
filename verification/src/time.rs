//! The simulation calendar: one tick is one hour, a day is 24 ticks and a year 8,760.
use vstd::prelude::*;

verus! {

pub const TICKS_PER_DAY: u64 = 24;
pub const TICKS_PER_WEEK: u64 = 168;
pub const TICKS_PER_YEAR: u64 = 8_760;

/// Life stages begin at two, twelve, sixteen and sixty years.
pub const INFANT_AGE_END: u64 = 17_520;
pub const CHILD_AGE_END: u64 = 105_120;
pub const ADOLESCENT_AGE_END: u64 = 140_160;
pub const ELDER_AGE_START: u64 = 525_600;

/// A forty-week gestation.
pub const GESTATION_TICKS: u64 = 6_720;
/// A hundred-and-eighty-day postpartum period.
pub const POSTPARTUM_TICKS: u64 = 4_320;

/// Lifespans range from 650,000 to 950,000 ticks around this middle.
pub const BASE_LIFESPAN_TICKS: u64 = 800_000;
pub const LIFESPAN_VARIATION_TICKS: u64 = 150_000;

/// Founders are between eighteen and forty years old.
pub const FOUNDER_AGE_MIN: u64 = 157_680;
pub const FOUNDER_AGE_MAX: u64 = 350_400;

/// Whole years in an age given in ticks.
pub fn years_from_ticks(ticks: u64) -> (r: u64)
    ensures
        r == ticks / TICKS_PER_YEAR,
{
    ticks / TICKS_PER_YEAR
}

/// The calendar constants agree with one another.
pub proof fn lemma_calendar()
    ensures
        TICKS_PER_WEEK == 7 * TICKS_PER_DAY,
        TICKS_PER_YEAR == 365 * TICKS_PER_DAY,
        GESTATION_TICKS == 40 * TICKS_PER_WEEK,
        POSTPARTUM_TICKS == 180 * TICKS_PER_DAY,
        FOUNDER_AGE_MIN == 18 * TICKS_PER_YEAR,
        FOUNDER_AGE_MAX == 40 * TICKS_PER_YEAR,
{
}

} // verus!
