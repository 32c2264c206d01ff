//! One turn of walking a planned path: a step onto the next tile when the walker can
//! afford it, the plan dropped when the next tile cannot be entered, and the move
//! action finished at the path's end.
use vstd::prelude::*;
use crate::mind::{same_outlook, Mind};
use crate::pathfinding::{spec_step_cost, step_cost};
use crate::world::Grid;

verus! {

/// How a turn of walking ended.
#[derive(Clone, Copy, Debug, PartialEq, Eq, Structural)]
pub enum WalkOutcome {
    /// The next tile cannot be entered from here: goal, plan and path are dropped.
    Blocked,
    /// Still on the way (whether or not a step was taken).
    Walking,
    /// The path is used up: the move action is done and the plan moves on.
    Arrived,
}

/// Where the walker stands and how far along the path it is after this turn.
pub open spec fn spec_walk(
    world: &Grid,
    position: (u32, u32),
    path: Seq<(u32, u32)>,
    index: int,
    affordable: bool,
) -> (WalkOutcome, (u32, u32), int) {
    if index < path.len() && spec_step_cost(world, position, path[index]) is None {
        (WalkOutcome::Blocked, position, 0)
    } else {
        let (moved_to, next_index) = if index < path.len() && affordable {
            (path[index], index + 1)
        } else {
            (position, index)
        };
        if next_index >= path.len() {
            (WalkOutcome::Arrived, moved_to, 0)
        } else {
            (WalkOutcome::Walking, moved_to, next_index)
        }
    }
}

/// The cost of the next step along `path`, if there is a next tile and it can be
/// entered; the caller weighs it against the walker's movement credit.
pub fn next_step_cost(world: &Grid, position: (u32, u32), path: &Vec<(u32, u32)>, index: usize) -> (r: Option<u64>)
    ensures
        r == (if index < path@.len() {
            spec_step_cost(world, position, path@[index as int])
        } else {
            None
        }),
{
    if index < path.len() {
        step_cost(world, position, path[index])
    } else {
        None
    }
}

/// Walks one turn: steps onto the next tile when `affordable`, drops goal, plan and
/// path when that tile cannot be entered, and finishes the move action (clearing the
/// path) once the path is used up.
pub fn walk_path(
    mind: &mut Mind,
    world: &Grid,
    position: &mut (u32, u32),
    path: &mut Vec<(u32, u32)>,
    index: &mut usize,
    affordable: bool,
) -> (r: WalkOutcome)
    ensures
        ({
            let (outcome, at, next_index) = spec_walk(world, *old(position), old(path)@, *old(index) as int, affordable);
            &&& r == outcome
            &&& *final(position) == at
            &&& *final(index) == next_index
            &&& r == WalkOutcome::Walking ==> final(path)@ == old(path)@
            &&& r != WalkOutcome::Walking ==> final(path)@.len() == 0
        }),
        r == WalkOutcome::Blocked ==> final(mind).current_goal is None && final(mind).current_plan@.len() == 0
            && final(mind).plan_index == 0,
        r == WalkOutcome::Arrived ==> final(mind).current_goal == old(mind).current_goal && final(mind).current_plan@
            == old(mind).current_plan@ && final(mind).plan_index == if old(mind).plan_index == usize::MAX {
            usize::MAX
        } else {
            (old(mind).plan_index + 1) as usize
        },
        r == WalkOutcome::Walking ==> *final(mind) == *old(mind),
        final(mind).goal_since_tick == old(mind).goal_since_tick,
        same_outlook(*old(mind), *final(mind)),
{
    if *index < path.len() {
        let next = path[*index];
        match step_cost(world, *position, next) {
            None => {
                mind.clear_goal();
                path.clear();
                *index = 0;
                return WalkOutcome::Blocked;
            },
            Some(_) => {
                if affordable {
                    *position = next;
                    *index = *index + 1;
                }
            },
        }
    }
    if *index >= path.len() {
        path.clear();
        *index = 0;
        mind.advance_action();
        return WalkOutcome::Arrived;
    }
    WalkOutcome::Walking
}

} // verus!
