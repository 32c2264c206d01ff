use nexus_engine::engagement::{engage_turn, EngageOutcome, SHARE_FOOD_AMOUNT};
use nexus_engine::mind::{Action, Goal, Mind};
use nexus_engine::perception::EntityPosition;
use nexus_engine::sharing::FoodShareAttempt;

fn mind_seeing(ids: &[u32], goal: Goal, plan: Vec<Action>) -> Mind {
    let mut mind = Mind::new();
    mind.visible_entities = ids.to_vec();
    mind.set_plan(goal, plan, 0);
    mind
}

#[test]
fn talking_to_someone_in_reach_finishes_the_action() {
    let mut mind = mind_seeing(&[4], Goal::Socialize, vec![Action::ApproachEntity(4), Action::Interact(4)]);
    mind.advance_action();
    let population = vec![EntityPosition { id: 4, x: 3, y: 3 }];
    let (outcome, share) = engage_turn(&mut mind, 1, (2, 2), Action::Interact(4), &population, 0, 7);
    assert_eq!(outcome, EngageOutcome::Done);
    assert!(share.is_none());
    assert_eq!(mind.plan_index, 2);
}

#[test]
fn someone_out_of_reach_is_approached_again() {
    let mut mind = mind_seeing(&[4], Goal::Socialize, vec![Action::Interact(4)]);
    let population = vec![EntityPosition { id: 4, x: 9, y: 9 }];
    let (outcome, _) = engage_turn(&mut mind, 1, (2, 2), Action::Interact(4), &population, 0, 7);
    assert_eq!(outcome, EngageOutcome::Replanned);
    assert_eq!(mind.current_plan, vec![Action::ApproachEntity(4), Action::Interact(4)]);
    assert_eq!(mind.plan_index, 0);
}

#[test]
fn someone_out_of_view_is_given_up() {
    let mut mind = mind_seeing(&[], Goal::Socialize, vec![Action::Interact(4)]);
    let population = vec![EntityPosition { id: 4, x: 2, y: 2 }];
    let (outcome, _) = engage_turn(&mut mind, 1, (2, 2), Action::Interact(4), &population, 0, 7);
    assert_eq!(outcome, EngageOutcome::Abandoned);
    assert_eq!(mind.current_goal, None);
}

#[test]
fn sharing_hands_over_one_share_when_food_allows() {
    let mut mind = mind_seeing(&[4], Goal::ShareFood, vec![Action::ShareFood(4)]);
    let population = vec![EntityPosition { id: 4, x: 2, y: 3 }];
    let (outcome, share) = engage_turn(&mut mind, 1, (2, 2), Action::ShareFood(4), &population, 25, 7);
    assert_eq!(outcome, EngageOutcome::Done);
    assert_eq!(
        share,
        Some(FoodShareAttempt { actor_id: 1, target_id: 4, actor_location: (2, 2), amount: SHARE_FOOD_AMOUNT })
    );
    let mut poor = mind_seeing(&[4], Goal::ShareFood, vec![Action::ShareFood(4)]);
    let (outcome, share) = engage_turn(&mut poor, 1, (2, 2), Action::ShareFood(4), &population, 5, 7);
    assert_eq!(outcome, EngageOutcome::Done);
    assert!(share.is_none());
}
