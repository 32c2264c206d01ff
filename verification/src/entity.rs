//! The plain-valued parts of an individual: sex, activity, pregnancy and life stage.
use vstd::prelude::*;
use crate::time::{ADOLESCENT_AGE_END, CHILD_AGE_END, ELDER_AGE_START, INFANT_AGE_END};

verus! {

#[derive(Clone, Copy, Debug, PartialEq, Eq, Hash, Structural)]
pub enum Sex {
    Female,
    Male,
}

impl Sex {
    pub fn label(self) -> (r: &'static str)
        ensures
            r@ == (match self {
                Sex::Female => "Female"@,
                Sex::Male => "Male"@,
            }),
    {
        match self {
            Sex::Female => "Female",
            Sex::Male => "Male",
        }
    }
}

#[derive(Clone, Copy, Debug, PartialEq, Eq, Structural)]
pub struct Pregnancy {
    pub father_id: u32,
    pub conceived_tick: u64,
    pub due_tick: u64,
}

#[derive(Clone, Copy, Debug, PartialEq, Eq, Structural)]
pub enum EntityActivity {
    Idle,
    SeekingFood,
    Moving,
    Starving,
    Exploring,
    Resting,
    Socializing,
}

pub open spec fn spec_activity_label(activity: EntityActivity) -> Seq<char> {
    match activity {
        EntityActivity::Idle => "Idle"@,
        EntityActivity::SeekingFood => "Seeking food"@,
        EntityActivity::Moving => "Moving"@,
        EntityActivity::Starving => "Starving"@,
        EntityActivity::Exploring => "Exploring"@,
        EntityActivity::Resting => "Resting"@,
        EntityActivity::Socializing => "Socializing"@,
    }
}

pub open spec fn spec_activity_code(activity: EntityActivity) -> u32 {
    match activity {
        EntityActivity::Idle => 0,
        EntityActivity::SeekingFood => 1,
        EntityActivity::Moving => 2,
        EntityActivity::Starving => 3,
        EntityActivity::Exploring => 4,
        EntityActivity::Resting => 5,
        EntityActivity::Socializing => 6,
    }
}

impl EntityActivity {
    pub fn label(self) -> (r: &'static str)
        ensures
            r@ == spec_activity_label(self),
    {
        match self {
            EntityActivity::Idle => "Idle",
            EntityActivity::SeekingFood => "Seeking food",
            EntityActivity::Moving => "Moving",
            EntityActivity::Starving => "Starving",
            EntityActivity::Exploring => "Exploring",
            EntityActivity::Resting => "Resting",
            EntityActivity::Socializing => "Socializing",
        }
    }

    /// The number that state hashes and the frontend use for this activity.
    pub fn code(self) -> (r: u32)
        ensures
            r == spec_activity_code(self),
    {
        match self {
            EntityActivity::Idle => 0,
            EntityActivity::SeekingFood => 1,
            EntityActivity::Moving => 2,
            EntityActivity::Starving => 3,
            EntityActivity::Exploring => 4,
            EntityActivity::Resting => 5,
            EntityActivity::Socializing => 6,
        }
    }
}

#[derive(Clone, Copy, Debug, PartialEq, Eq, Structural)]
pub enum LifeStage {
    Infant,
    Child,
    Adolescent,
    Adult,
    Elder,
}

pub open spec fn spec_life_stage(age_ticks: u64) -> LifeStage {
    if age_ticks < INFANT_AGE_END {
        LifeStage::Infant
    } else if age_ticks < CHILD_AGE_END {
        LifeStage::Child
    } else if age_ticks < ADOLESCENT_AGE_END {
        LifeStage::Adolescent
    } else if age_ticks < ELDER_AGE_START {
        LifeStage::Adult
    } else {
        LifeStage::Elder
    }
}

/// Rank of a life stage in the order they are lived.
pub open spec fn spec_stage_rank(stage: LifeStage) -> int {
    match stage {
        LifeStage::Infant => 0,
        LifeStage::Child => 1,
        LifeStage::Adolescent => 2,
        LifeStage::Adult => 3,
        LifeStage::Elder => 4,
    }
}

impl LifeStage {
    pub fn from_age_ticks(age_ticks: u64) -> (r: LifeStage)
        ensures
            r == spec_life_stage(age_ticks),
    {
        if age_ticks < INFANT_AGE_END {
            LifeStage::Infant
        } else if age_ticks < CHILD_AGE_END {
            LifeStage::Child
        } else if age_ticks < ADOLESCENT_AGE_END {
            LifeStage::Adolescent
        } else if age_ticks < ELDER_AGE_START {
            LifeStage::Adult
        } else {
            LifeStage::Elder
        }
    }

    pub fn label(self) -> (r: &'static str)
        ensures
            r@ == (match self {
                LifeStage::Infant => "Infant"@,
                LifeStage::Child => "Child"@,
                LifeStage::Adolescent => "Adolescent"@,
                LifeStage::Adult => "Adult"@,
                LifeStage::Elder => "Elder"@,
            }),
    {
        match self {
            LifeStage::Infant => "Infant",
            LifeStage::Child => "Child",
            LifeStage::Adolescent => "Adolescent",
            LifeStage::Adult => "Adult",
            LifeStage::Elder => "Elder",
        }
    }
}

/// Ageing never moves an individual back to an earlier life stage.
pub proof fn lemma_life_stage_monotonic(younger: u64, older: u64)
    requires
        younger <= older,
    ensures
        spec_stage_rank(spec_life_stage(younger)) <= spec_stage_rank(spec_life_stage(older)),
{
}

} // verus!
