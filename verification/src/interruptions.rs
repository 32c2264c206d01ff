//! The checks at the start of an individual's turn that drop a plan which no longer
//! fits: provisioning or protecting dependents, a household migration, and urgent
//! hunger with food within reach.
use vstd::prelude::*;
use crate::entity::{spec_life_stage, LifeStage};
use crate::mind::{same_outlook, Goal, Mind};

verus! {

/// The goal being pursued is feeding: eating or gathering.
pub open spec fn feeding(goal: Option<Goal>) -> bool {
    goal == Some(Goal::Eat) || goal == Some(Goal::AcquireResource)
}

/// Old enough to walk with the household.
pub open spec fn migrates_with_household(stage: LifeStage) -> bool {
    stage == LifeStage::Adolescent || stage == LifeStage::Adult || stage == LifeStage::Elder
}

/// Whether the plan toward `goal` is dropped: a dependent needs provisioning that is
/// not what is being done; a dependent needs protection, nothing else presses and it
/// is not being given; the household migrates, nothing weightier is under way and the
/// individual is not already walking with it; or hunger is urgent, the goal is not
/// feeding and food is within reach.
pub open spec fn spec_plan_interrupted(
    goal: Option<Goal>,
    hunger_urgent: bool,
    provisioning: Option<Goal>,
    protection_target: Option<u32>,
    migration_target: Option<(u32, u32)>,
    age_ticks: u64,
    food_reachable: bool,
) -> bool {
    let weightier = provisioning is Some || goal == Some(Goal::ProtectDependent) || (hunger_urgent && feeding(
        goal,
    ));
    ||| (provisioning matches Some(p) && goal != Some(p))
    ||| (provisioning is None && protection_target is Some && !hunger_urgent && goal != Some(
        Goal::ProtectDependent,
    ))
    ||| (migration_target is Some && migrates_with_household(spec_life_stage(age_ticks)) && !weightier && goal
        != Some(Goal::MigrateHousehold))
    ||| (hunger_urgent && !feeding(goal) && food_reachable)
}

/// Urgent hunger interrupts any goal but feeding once food is within reach, whatever
/// else holds; a feeding plan is never dropped for hunger alone.
pub proof fn lemma_urgent_hunger_interrupts(
    goal: Option<Goal>,
    provisioning: Option<Goal>,
    protection_target: Option<u32>,
    migration_target: Option<(u32, u32)>,
    age_ticks: u64,
)
    ensures
        !feeding(goal) ==> spec_plan_interrupted(
            goal,
            true,
            provisioning,
            protection_target,
            migration_target,
            age_ticks,
            true,
        ),
        feeding(goal) && provisioning is None ==> !spec_plan_interrupted(
            goal,
            true,
            provisioning,
            protection_target,
            migration_target,
            age_ticks,
            true,
        ),
{
}

/// Drops the current goal and plan when `spec_plan_interrupted` says so and reports
/// whether it did; the caller then forgets the path being walked.
pub fn revalidate_plan(
    mind: &mut Mind,
    hunger_urgent: bool,
    provisioning: Option<Goal>,
    protection_target: Option<u32>,
    migration_target: Option<(u32, u32)>,
    age_ticks: u64,
    food_reachable: bool,
) -> (cleared: bool)
    ensures
        cleared == spec_plan_interrupted(
            old(mind).current_goal,
            hunger_urgent,
            provisioning,
            protection_target,
            migration_target,
            age_ticks,
            food_reachable,
        ),
        cleared ==> final(mind).current_goal is None && final(mind).current_plan@.len() == 0,
        cleared ==> final(mind).plan_index == 0,
        !cleared ==> final(mind).current_goal == old(mind).current_goal,
        !cleared ==> final(mind).current_plan@ == old(mind).current_plan@,
        !cleared ==> final(mind).plan_index == old(mind).plan_index,
        final(mind).goal_since_tick == old(mind).goal_since_tick,
        same_outlook(*old(mind), *final(mind)),
{
    let goal = mind.current_goal;
    let mut cleared = false;
    if let Some(p) = provisioning {
        if goal != Some(p) {
            mind.clear_goal();
            cleared = true;
        }
    }
    if provisioning.is_none() && protection_target.is_some() && !hunger_urgent
        && mind.current_goal != Some(Goal::ProtectDependent) {
        mind.clear_goal();
        cleared = true;
    }
    let current = mind.current_goal;
    let stage = LifeStage::from_age_ticks(age_ticks);
    let feeding_now = current == Some(Goal::Eat) || current == Some(Goal::AcquireResource);
    let weightier = provisioning.is_some() || current == Some(Goal::ProtectDependent) || (hunger_urgent
        && feeding_now);
    let of_age = stage == LifeStage::Adolescent || stage == LifeStage::Adult || stage == LifeStage::Elder;
    if migration_target.is_some() && of_age && !weightier && current != Some(Goal::MigrateHousehold) {
        mind.clear_goal();
        cleared = true;
    }
    let current = mind.current_goal;
    let feeding_now = current == Some(Goal::Eat) || current == Some(Goal::AcquireResource);
    if hunger_urgent && !feeding_now && food_reachable {
        mind.clear_goal();
        cleared = true;
    }
    cleared
}

} // verus!
