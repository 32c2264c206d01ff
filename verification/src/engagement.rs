//! One turn of an action aimed at another individual: talking with it, or handing it
//! food. The other must be in view and within reach; out of reach the plan starts
//! over with an approach, out of view it is dropped.
use vstd::prelude::*;
use crate::mind::{same_outlook, spec_manhattan, Action, Goal, Mind};
use crate::perception::EntityPosition;
use crate::sharing::FoodShareAttempt;
use crate::social::SOCIAL_RADIUS;

verus! {

/// Food handed over in one share.
pub const SHARE_FOOD_AMOUNT: u16 = 10;

/// How a turn of engaging another individual ended.
#[derive(Clone, Copy, Debug, PartialEq, Eq, Structural)]
pub enum EngageOutcome {
    /// The other is not in view or not known: goal and plan are dropped.
    Abandoned,
    /// The other is out of reach: the plan starts over with an approach.
    Replanned,
    /// The action is done and the plan moves on.
    Done,
}

/// Where the first individual listed with `id` from position `k` on stands.
pub open spec fn first_position_from(population: Seq<EntityPosition>, id: u32, k: int) -> Option<(u32, u32)>
    decreases population.len() - k,
{
    if k < 0 || k >= population.len() {
        None
    } else if population[k].id == id {
        Some((population[k].x, population[k].y))
    } else {
        first_position_from(population, id, k + 1)
    }
}

/// The individual an engaging action is aimed at.
pub open spec fn engaged_target(action: Action) -> u32 {
    match action {
        Action::Interact(t) => t,
        Action::ShareFood(t) => t,
        _ => 0,
    }
}

/// How the turn ends for `action` taken at `position`.
pub open spec fn spec_engage(
    visible: Seq<u32>,
    position: (u32, u32),
    action: Action,
    population: Seq<EntityPosition>,
    food_held: u16,
) -> EngageOutcome {
    let target = engaged_target(action);
    if !visible.contains(target) {
        EngageOutcome::Abandoned
    } else {
        match first_position_from(population, target, 0) {
            None => EngageOutcome::Abandoned,
            Some(at) => if spec_manhattan(position, at) > SOCIAL_RADIUS {
                EngageOutcome::Replanned
            } else {
                EngageOutcome::Done
            },
        }
    }
}

/// The goal an engaging action serves.
pub open spec fn engaged_goal(action: Action) -> Goal {
    match action {
        Action::ShareFood(_) => Goal::ShareFood,
        _ => Goal::Socialize,
    }
}

fn first_position(population: &Vec<EntityPosition>, id: u32) -> (r: Option<(u32, u32)>)
    ensures
        r == first_position_from(population@, id, 0),
{
    let mut k: usize = population.len();
    let mut found: Option<(u32, u32)> = None;
    while k > 0
        invariant
            0 <= k <= population@.len(),
            found == first_position_from(population@, id, k as int),
        decreases k,
    {
        k -= 1;
        let entry = population[k];
        if entry.id == id {
            found = Some((entry.x, entry.y));
        }
    }
    found
}

fn is_listed(ids: &Vec<u32>, id: u32) -> (r: bool)
    ensures
        r == ids@.contains(id),
{
    let mut k: usize = 0;
    while k < ids.len()
        invariant
            0 <= k <= ids@.len(),
            forall|j: int| 0 <= j < k ==> ids@[j] != id,
        decreases ids@.len() - k,
    {
        if ids[k] == id {
            assert(ids@[k as int] == id);
            return true;
        }
        k += 1;
    }
    false
}

fn distance(left: (u32, u32), right: (u32, u32)) -> (r: u64)
    ensures
        r == spec_manhattan(left, right),
{
    let dx: u64 = if left.0 >= right.0 { (left.0 - right.0) as u64 } else { (right.0 - left.0) as u64 };
    let dy: u64 = if left.1 >= right.1 { (left.1 - right.1) as u64 } else { (right.1 - left.1) as u64 };
    dx + dy
}

/// Takes one turn of `action`, an `Interact` or a `ShareFood` aimed at another
/// individual. Done with a share, it hands back the attempt to settle, unless the
/// actor holds less than one share of food.
pub fn engage_turn(
    mind: &mut Mind,
    actor_id: u32,
    position: (u32, u32),
    action: Action,
    population: &Vec<EntityPosition>,
    food_held: u16,
    tick: u64,
) -> (r: (EngageOutcome, Option<FoodShareAttempt>))
    requires
        action is Interact || action is ShareFood,
    ensures
        r.0 == spec_engage(old(mind).visible_entities@, position, action, population@, food_held),
        r.0 == EngageOutcome::Abandoned ==> final(mind).current_goal is None && final(mind).current_plan@.len() == 0,
        r.0 == EngageOutcome::Replanned ==> final(mind).current_goal == Some(engaged_goal(action))
            && final(mind).current_plan@ == seq![Action::ApproachEntity(engaged_target(action)), action]
            && final(mind).plan_index == 0,
        r.0 == EngageOutcome::Done ==> final(mind).current_goal == old(mind).current_goal && final(mind).current_plan@
            == old(mind).current_plan@ && final(mind).plan_index == if old(mind).plan_index == usize::MAX {
            usize::MAX
        } else {
            (old(mind).plan_index + 1) as usize
        },
        r.1 == (if r.0 == EngageOutcome::Done && action is ShareFood && food_held >= SHARE_FOOD_AMOUNT {
            Some(
                FoodShareAttempt {
                    actor_id,
                    target_id: engaged_target(action),
                    actor_location: position,
                    amount: SHARE_FOOD_AMOUNT,
                },
            )
        } else {
            None
        }),
        same_outlook(*old(mind), *final(mind)),
{
    let (target, sharing) = match action {
        Action::ShareFood(t) => (t, true),
        Action::Interact(t) => (t, false),
        _ => (0, false),
    };
    if !is_listed(&mind.visible_entities, target) {
        mind.clear_goal();
        return (EngageOutcome::Abandoned, None);
    }
    let at = match first_position(population, target) {
        Some(at) => at,
        None => {
            mind.clear_goal();
            return (EngageOutcome::Abandoned, None);
        },
    };
    if distance(position, at) > SOCIAL_RADIUS as u64 {
        let goal = if sharing { Goal::ShareFood } else { Goal::Socialize };
        let mut actions = Vec::new();
        actions.push(Action::ApproachEntity(target));
        actions.push(action);
        proof {
            assert(actions@ =~= seq![Action::ApproachEntity(engaged_target(action)), action]);
        }
        mind.set_plan(goal, actions, tick);
        return (EngageOutcome::Replanned, None);
    }
    mind.advance_action();
    if sharing && food_held >= SHARE_FOOD_AMOUNT {
        (
            EngageOutcome::Done,
            Some(FoodShareAttempt { actor_id, target_id: target, actor_location: position, amount: SHARE_FOOD_AMOUNT }),
        )
    } else {
        (EngageOutcome::Done, None)
    }
}

} // verus!
