//! One turn of walking toward another individual: where to head for (where it is
//! seen, else where it was last seen), keeping the route pointed there, and what
//! happens on getting close.
use vstd::prelude::*;
use crate::engagement::first_position_from;
use crate::mind::{
    sat_add_u64, same_outlook, spec_manhattan, Goal, KnownEntity, Mind, FAILED_SOCIAL_SEEK_RETRY_TICKS,
};
use crate::pathfinding::{
    find_path_with_workspace, route_between, route_cost, spec_step_cost, step_cost, PathfindingWorkspace,
};
use crate::perception::EntityPosition;
use crate::social::SOCIAL_RADIUS;
use crate::world::Grid;

verus! {

/// How close a caregiver must come to a dependent it protects.
pub const DEPENDENT_REUNION_RADIUS: u32 = 2;

/// Where an approach heads for and whether the other is in view.
#[derive(Clone, Copy, Debug, PartialEq, Eq, Structural)]
pub struct Heading {
    pub x: u32,
    pub y: u32,
    pub visible: bool,
}

/// Where the first acquaintance with `id` from position `k` on was last seen.
pub open spec fn last_seen_from(known: Seq<KnownEntity>, id: u32, k: int) -> Option<(u32, u32)>
    decreases known.len() - k,
{
    if k < 0 || k >= known.len() {
        None
    } else if known[k].id == id {
        Some((known[k].last_seen_x, known[k].last_seen_y))
    } else {
        last_seen_from(known, id, k + 1)
    }
}

/// Where to head for `target`: where it is seen when in view, else where it was last
/// seen; nothing when a protected individual is no longer a dependent in care or
/// nothing is known of the target.
pub open spec fn spec_heading(mind: Mind, target: u32, population: Seq<EntityPosition>, dependent_in_care: bool) -> Option<
    Heading,
> {
    if mind.current_goal == Some(Goal::ProtectDependent) && !dependent_in_care {
        None
    } else {
        let visible = mind.visible_entities@.contains(target);
        let at = if visible {
            first_position_from(population, target, 0)
        } else {
            last_seen_from(mind.memory.known_entities@, target, 0)
        };
        match at {
            Some(p) => Some(Heading { x: p.0, y: p.1, visible }),
            None => None,
        }
    }
}

fn last_seen(known: &Vec<KnownEntity>, id: u32) -> (r: Option<(u32, u32)>)
    ensures
        r == last_seen_from(known@, id, 0),
{
    let mut k: usize = known.len();
    let mut found: Option<(u32, u32)> = None;
    while k > 0
        invariant
            0 <= k <= known@.len(),
            found == last_seen_from(known@, id, k as int),
        decreases k,
    {
        k -= 1;
        let entry = known[k];
        if entry.id == id {
            found = Some((entry.last_seen_x, entry.last_seen_y));
        }
    }
    found
}

fn first_seen_position(population: &Vec<EntityPosition>, id: u32) -> (r: Option<(u32, u32)>)
    ensures
        r == first_position_from(population@, id, 0),
{
    let mut k: usize = population.len();
    let mut found: Option<(u32, u32)> = None;
    while k > 0
        invariant
            0 <= k <= population@.len(),
            found == first_position_from(population@, id, k as int),
        decreases k,
    {
        k -= 1;
        let entry = population[k];
        if entry.id == id {
            found = Some((entry.x, entry.y));
        }
    }
    found
}

fn in_view(ids: &Vec<u32>, id: u32) -> (r: bool)
    ensures
        r == ids@.contains(id),
{
    let mut k: usize = 0;
    while k < ids.len()
        invariant
            0 <= k <= ids@.len(),
            forall|j: int| 0 <= j < k ==> ids@[j] != id,
        decreases ids@.len() - k,
    {
        if ids[k] == id {
            assert(ids@[k as int] == id);
            return true;
        }
        k += 1;
    }
    false
}

/// Where to head for `target`; drops the goal and plan when there is nowhere to go.
/// The caller then forgets its path.
pub fn approach_heading(
    mind: &mut Mind,
    target: u32,
    population: &Vec<EntityPosition>,
    dependent_in_care: bool,
) -> (r: Option<Heading>)
    ensures
        r == spec_heading(*old(mind), target, population@, dependent_in_care),
        r is None ==> final(mind).current_goal is None && final(mind).current_plan@.len() == 0
            && final(mind).plan_index == 0,
        r is Some ==> *final(mind) == *old(mind),
        final(mind).goal_since_tick == old(mind).goal_since_tick,
        same_outlook(*old(mind), *final(mind)),
{
    let protecting = match mind.current_goal {
        Some(goal) => goal == Goal::ProtectDependent,
        None => false,
    };
    if protecting && !dependent_in_care {
        mind.clear_goal();
        return None;
    }
    let visible = in_view(&mind.visible_entities, target);
    let at = if visible {
        first_seen_position(population, target)
    } else {
        last_seen(&mind.memory.known_entities, target)
    };
    match at {
        Some(p) => Some(Heading { x: p.0, y: p.1, visible }),
        None => {
            mind.clear_goal();
            None
        },
    }
}

/// How an approach stands after a check of the distance.
#[derive(Clone, Copy, Debug, PartialEq, Eq, Structural)]
pub enum ApproachState {
    /// Close to the other, in view: the approach is done (for a protector, the goal
    /// too).
    Reached,
    /// Close to where the other was last seen, or at the path's end, without it in
    /// view: the goal is dropped.
    GaveUp,
    /// Still on the way.
    OnTheWay,
}

/// How close an approach must come: to a protected dependent, or to anyone else.
pub open spec fn reach_radius(protecting: bool) -> u32 {
    if protecting { DEPENDENT_REUNION_RADIUS } else { SOCIAL_RADIUS }
}

/// How the approach stands at `position`, given whether the path is used up.
pub open spec fn spec_approach_state(position: (u32, u32), heading: Heading, path_done: bool, protecting: bool) -> ApproachState {
    if spec_manhattan(position, (heading.x, heading.y)) <= reach_radius(protecting) {
        if heading.visible {
            ApproachState::Reached
        } else {
            ApproachState::GaveUp
        }
    } else if path_done && !heading.visible {
        ApproachState::GaveUp
    } else {
        ApproachState::OnTheWay
    }
}

fn distance(left: (u32, u32), right: (u32, u32)) -> (r: u64)
    ensures
        r == spec_manhattan(left, right),
{
    let dx: u64 = if left.0 >= right.0 { (left.0 - right.0) as u64 } else { (right.0 - left.0) as u64 };
    let dy: u64 = if left.1 >= right.1 { (left.1 - right.1) as u64 } else { (right.1 - left.1) as u64 };
    dx + dy
}

/// Checks the distance to the heading. Reaching one in view finishes the approach
/// action (a protector's whole goal); reaching where it was last seen, or the path's
/// end, without it in view drops the goal and, unless protecting, holds off seeking it
/// for a while.
pub fn settle_approach(
    mind: &mut Mind,
    position: (u32, u32),
    target: u32,
    heading: Heading,
    path_done: bool,
    tick: u64,
) -> (r: ApproachState)
    ensures
        r == spec_approach_state(position, heading, path_done, old(mind).current_goal == Some(Goal::ProtectDependent)),
        r == ApproachState::OnTheWay ==> *final(mind) == *old(mind),
        r == ApproachState::Reached && old(mind).current_goal == Some(Goal::ProtectDependent) ==> final(mind).current_goal is None && final(mind).current_plan@.len() == 0,
        r == ApproachState::Reached && old(mind).current_goal != Some(Goal::ProtectDependent) ==> final(mind).current_goal == old(mind).current_goal && final(mind).current_plan@ == old(mind).current_plan@
            && final(mind).plan_index == if old(mind).plan_index == usize::MAX {
            usize::MAX
        } else {
            (old(mind).plan_index + 1) as usize
        },
        r == ApproachState::GaveUp ==> final(mind).current_goal is None && final(mind).current_plan@.len() == 0,
        r == ApproachState::GaveUp && old(mind).current_goal == Some(Goal::ProtectDependent) ==> final(mind).memory.known_entities@ == old(mind).memory.known_entities@,
        r != ApproachState::GaveUp ==> final(mind).memory.known_entities@ == old(mind).memory.known_entities@,
        final(mind).memory.known_entities@.len() == old(mind).memory.known_entities@.len(),
        forall|i: int|
            0 <= i < old(mind).memory.known_entities@.len() ==> (#[trigger] final(mind).memory.known_entities@[i]
                == old(mind).memory.known_entities@[i] || (old(mind).memory.known_entities@[i].id == target
                && final(mind).memory.known_entities@[i] == (KnownEntity {
                seek_retry_after_tick: Some(sat_add_u64(tick, FAILED_SOCIAL_SEEK_RETRY_TICKS)),
                ..old(mind).memory.known_entities@[i]
            }))),
        final(mind).memory.known_resources@ == old(mind).memory.known_resources@,
        final(mind).visible_entities@ == old(mind).visible_entities@,
        final(mind).goal_since_tick == old(mind).goal_since_tick,
{
    let protecting = match mind.current_goal {
        Some(goal) => goal == Goal::ProtectDependent,
        None => false,
    };
    let radius = if protecting { DEPENDENT_REUNION_RADIUS } else { SOCIAL_RADIUS };
    let close = distance(position, (heading.x, heading.y)) <= radius as u64;
    if close && heading.visible {
        if protecting {
            mind.clear_goal();
        } else {
            mind.advance_action();
        }
        return ApproachState::Reached;
    }
    if close || (path_done && !heading.visible) {
        if !protecting {
            mind.memory.mark_failed_social_seek(target, tick);
        }
        mind.clear_goal();
        return ApproachState::GaveUp;
    }
    ApproachState::OnTheWay
}

/// The tile a path leads to: its last tile, or `origin` when it is empty.
pub open spec fn path_end(origin: (u32, u32), path: Seq<(u32, u32)>) -> (u32, u32) {
    if path.len() == 0 {
        origin
    } else {
        path.last()
    }
}

/// Points the path at the heading: when it leads elsewhere, a new route is searched
/// and, if one is found, walked from its start.
pub fn refresh_route(
    workspace: &mut PathfindingWorkspace,
    world: &Grid,
    origin: (u32, u32),
    heading: Heading,
    path: &mut Vec<(u32, u32)>,
    index: &mut usize,
)
    requires
        world.wf(),
        old(workspace).wf(),
    ensures
        final(workspace).wf(),
        path_end(origin, old(path)@) == (heading.x, heading.y) ==> final(path)@ == old(path)@ && *final(index)
            == *old(index),
        final(path)@ == old(path)@ && *final(index) == *old(index) || (*final(index) == 0 && route_between(
            world,
            seq![origin] + final(path)@,
            origin,
            (heading.x, heading.y),
        ) && (forall|other: Seq<(u32, u32)>|
            route_between(world, other, origin, (heading.x, heading.y)) ==> route_cost(
                world,
                seq![origin] + final(path)@,
            ) <= route_cost(world, other))),
{
    let end = if path.len() == 0 {
        origin
    } else {
        path[path.len() - 1]
    };
    if end.0 == heading.x && end.1 == heading.y {
        return;
    }
    let target = (heading.x, heading.y);
    if let Some(route) = find_path_with_workspace(workspace, world, origin, target) {
        let ghost whole = route@;
        let mut rest: Vec<(u32, u32)> = Vec::new();
        let mut k: usize = 1;
        while k < route.len()
            invariant
                1 <= k <= route@.len(),
                route@.len() >= 1,
                rest@ == route@.subrange(1, k as int),
            decreases route@.len() - k,
        {
            rest.push(route[k]);
            k += 1;
        }
        proof {
            assert(whole =~= seq![origin] + rest@);
        }
        *path = rest;
        *index = 0;
    }
}

/// How a turn of walking toward another individual ended.
#[derive(Clone, Copy, Debug, PartialEq, Eq, Structural)]
pub enum ApproachWalk {
    /// The next tile cannot be entered: goal, plan and path are dropped.
    Blocked,
    /// A step was taken or not; the path goes on.
    Walking,
    /// The path is used up; the approach stands as given.
    PathDone(ApproachState),
}

/// Steps onto the next tile when `affordable`; at the end of the path, clears it and
/// settles the approach.
pub fn approach_walk(
    mind: &mut Mind,
    world: &Grid,
    position: &mut (u32, u32),
    path: &mut Vec<(u32, u32)>,
    index: &mut usize,
    target: u32,
    heading: Heading,
    affordable: bool,
    tick: u64,
) -> (r: ApproachWalk)
    ensures
        ({
            let blocked = *old(index) < old(path)@.len() && spec_step_cost(
                world,
                *old(position),
                old(path)@[*old(index) as int],
            ) is None;
            let stepped = !blocked && *old(index) < old(path)@.len() && affordable;
            let at = if stepped { old(path)@[*old(index) as int] } else { *old(position) };
            let next_index = if stepped { *old(index) + 1 } else { *old(index) as int };
            &&& blocked ==> r == ApproachWalk::Blocked && *final(position) == *old(position) && final(path)@.len() == 0
                && *final(index) == 0 && final(mind).current_goal is None
            &&& !blocked ==> *final(position) == at
            &&& !blocked && next_index < old(path)@.len() ==> r == ApproachWalk::Walking && final(path)@ == old(path)@
                && *final(index) == next_index && *final(mind) == *old(mind)
            &&& !blocked && next_index >= old(path)@.len() ==> r == ApproachWalk::PathDone(
                spec_approach_state(at, heading, true, old(mind).current_goal == Some(Goal::ProtectDependent)),
            ) && final(path)@.len() == 0 && *final(index) == 0
        }),
        final(mind).goal_since_tick == old(mind).goal_since_tick,
{
    if *index < path.len() {
        let next = path[*index];
        match step_cost(world, *position, next) {
            None => {
                mind.clear_goal();
                path.clear();
                *index = 0;
                return ApproachWalk::Blocked;
            },
            Some(_) => {
                if affordable {
                    *position = next;
                    *index = *index + 1;
                }
            },
        }
    }
    if *index >= path.len() {
        path.clear();
        *index = 0;
        let state = settle_approach(mind, *position, target, heading, true, tick);
        return ApproachWalk::PathDone(state);
    }
    ApproachWalk::Walking
}

} // verus!
