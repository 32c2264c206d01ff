use nexus_engine::interruptions::revalidate_plan;
use nexus_engine::mind::{Goal, Mind};
use nexus_engine::time::{ADOLESCENT_AGE_END, CHILD_AGE_END};

fn mind_pursuing(goal: Goal) -> Mind {
    let mut mind = Mind::new();
    mind.current_goal = Some(goal);
    mind
}

#[test]
fn urgent_hunger_interrupts_exploration_when_food_is_within_reach() {
    let mut mind = mind_pursuing(Goal::Explore);
    assert!(revalidate_plan(&mut mind, true, None, None, None, ADOLESCENT_AGE_END, true));
    assert_eq!(mind.current_goal, None);
    assert!(mind.current_plan.is_empty());
}

#[test]
fn urgent_hunger_without_food_keeps_exploring() {
    let mut mind = mind_pursuing(Goal::Explore);
    assert!(!revalidate_plan(&mut mind, true, None, None, None, ADOLESCENT_AGE_END, false));
    assert_eq!(mind.current_goal, Some(Goal::Explore));
}

#[test]
fn urgent_hunger_keeps_a_feeding_plan() {
    let mut mind = mind_pursuing(Goal::Eat);
    assert!(!revalidate_plan(&mut mind, true, None, None, None, ADOLESCENT_AGE_END, true));
    assert_eq!(mind.current_goal, Some(Goal::Eat));
}

#[test]
fn provisioning_replaces_another_goal() {
    let mut mind = mind_pursuing(Goal::Rest);
    assert!(revalidate_plan(&mut mind, false, Some(Goal::ShareFood), None, None, ADOLESCENT_AGE_END, false));
    assert_eq!(mind.current_goal, None);
    let mut sharing = mind_pursuing(Goal::ShareFood);
    assert!(!revalidate_plan(&mut sharing, false, Some(Goal::ShareFood), None, None, ADOLESCENT_AGE_END, false));
}

#[test]
fn protecting_a_dependent_waits_for_hunger() {
    let mut calm = mind_pursuing(Goal::Rest);
    assert!(revalidate_plan(&mut calm, false, None, Some(7), None, ADOLESCENT_AGE_END, false));
    let mut hungry = mind_pursuing(Goal::Eat);
    assert!(!revalidate_plan(&mut hungry, true, None, Some(7), None, ADOLESCENT_AGE_END, false));
}

#[test]
fn a_household_migration_takes_along_those_old_enough() {
    let mut adolescent = mind_pursuing(Goal::Explore);
    assert!(revalidate_plan(&mut adolescent, false, None, None, Some((3, 4)), CHILD_AGE_END, false));
    let mut child = mind_pursuing(Goal::Explore);
    assert!(!revalidate_plan(&mut child, false, None, None, Some((3, 4)), CHILD_AGE_END - 1, false));
    let mut walking = mind_pursuing(Goal::MigrateHousehold);
    assert!(!revalidate_plan(&mut walking, false, None, None, Some((3, 4)), CHILD_AGE_END, false));
}
