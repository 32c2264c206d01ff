//! Plans for the goals that need no search beyond a route home: eating what is held,
//! resting at home with a deposit of spare food, and walking with a migrating
//! household.
use vstd::prelude::*;
use crate::entity::{spec_life_stage, LifeStage};
use crate::mind::{same_outlook, Action, Goal, Mind};
use crate::pathfinding::{
    find_path_with_workspace, reachable, route_between, route_cost, trivial_search_outcome, PathfindingWorkspace,
    DEFAULT_MAX_ITERATIONS,
};
use crate::households::{
    find_household, household_index, households_by_id, spec_active_migration_target, Household, Member,
};
use crate::inventory::{spec_item_index, spec_total, ItemKind};
use crate::world::{Grid, ResourceKind};

verus! {

/// Food an adult keeps on hand rather than deposit.
pub const HOUSEHOLD_PERSONAL_FOOD_RESERVE: u16 = 20;

/// What planning needs to know of the planner's household.
#[derive(Clone, Copy, Debug)]
pub struct HomeContext {
    pub residence_x: u32,
    pub residence_y: u32,
    /// Where the household is moving to, while it migrates.
    pub migration_target: Option<(u32, u32)>,
    pub storage_remaining_capacity: u16,
    pub storage_food_amount: u16,
}

/// The context of the household `household_id`, when it exists and is active.
pub open spec fn spec_home_context(households: Seq<Household>, household_id: Option<u32>) -> Option<HomeContext> {
    match household_id {
        Some(id) => match household_index(households, id) {
            Some(i) => if households[i].dissolved_tick is None {
                Some(
                    HomeContext {
                        residence_x: households[i].residence_x,
                        residence_y: households[i].residence_y,
                        migration_target: spec_active_migration_target(households[i]),
                        storage_remaining_capacity: (households[i].storage.spec_capacity() - spec_total(
                            households[i].storage.spec_amounts(),
                        )) as u16,
                        storage_food_amount: households[i].storage.spec_amounts()[spec_item_index(ItemKind::Food)],
                    },
                )
            } else {
                None
            },
            None => None,
        },
        None => None,
    }
}

/// Looks up what planning needs of an individual's household.
pub fn home_context(households: &Vec<Household>, household_id: Option<u32>) -> (r: Option<HomeContext>)
    requires
        households_by_id(households@),
    ensures
        r == spec_home_context(households@, household_id),
{
    let id = match household_id {
        Some(id) => id,
        None => {
            return None;
        },
    };
    let index = match find_household(households, id) {
        Some(index) => index,
        None => {
            return None;
        },
    };
    let household = &households[index];
    if household.dissolved_tick.is_some() {
        return None;
    }
    Some(
        HomeContext {
            residence_x: household.residence_x,
            residence_y: household.residence_y,
            migration_target: household.active_migration_target(),
            storage_remaining_capacity: household.storage.remaining_capacity(),
            storage_food_amount: household.storage.amount(ItemKind::Food),
        },
    )
}

/// The food an adult of a settled household leaves in storage: what exceeds the
/// personal reserve, as far as storage has room.
pub open spec fn spec_deposit_amount(home: Option<HomeContext>, age_ticks: u64, food_held: u16) -> u16 {
    match home {
        Some(c) => if c.migration_target is None && spec_life_stage(age_ticks) == LifeStage::Adult {
            let spare = if food_held > HOUSEHOLD_PERSONAL_FOOD_RESERVE {
                (food_held - HOUSEHOLD_PERSONAL_FOOD_RESERVE) as u16
            } else {
                0
            };
            if spare < c.storage_remaining_capacity {
                spare
            } else {
                c.storage_remaining_capacity
            }
        } else {
            0
        },
        None => 0,
    }
}

/// Where a rest is taken: the migration target while the household migrates, else the
/// residence; `None` without a household or when already there.
pub open spec fn spec_rest_place(home: Option<HomeContext>, origin: (u32, u32)) -> Option<(u32, u32)> {
    match home {
        Some(c) => {
            let place = match c.migration_target {
                Some(t) => t,
                None => (c.residence_x, c.residence_y),
            };
            if place == origin {
                None
            } else {
                Some(place)
            }
        },
        None => None,
    }
}

/// The actions of a rest: walk to `destination` if there is one, deposit if there is
/// anything to deposit, then wait.
pub open spec fn spec_rest_actions(destination: Option<(u32, u32)>, deposit: u16) -> Seq<Action> {
    let walk = match destination {
        Some(d) => seq![Action::MoveTo(d.0, d.1)],
        None => Seq::empty(),
    };
    let store = if deposit > 0 {
        seq![Action::DepositHouseholdFood(deposit)]
    } else {
        Seq::empty()
    };
    walk + store + seq![Action::Wait]
}

/// `path` is what remains to walk of a cheapest route from `origin` to `destination`.
pub open spec fn walks_cheapest_route(
    world: &Grid,
    origin: (u32, u32),
    destination: (u32, u32),
    path: Seq<(u32, u32)>,
) -> bool {
    let route = seq![origin] + path;
    &&& route_between(world, route, origin, destination)
    &&& forall|other: Seq<(u32, u32)>|
        route_between(world, other, origin, destination) ==> route_cost(world, route) <= route_cost(world, other)
}

/// The plan adopted after a search toward `destination` that returned `found`: the
/// path is the found route without its first tile, or nothing.
fn remaining_path(found: Option<Vec<(u32, u32)>>) -> (r: Vec<(u32, u32)>)
    ensures
        (found matches Some(route) && route@.len() >= 1) ==> (found matches Some(route) && route@ == seq![route@[0]] + r@),
        found is None ==> r@.len() == 0,
{
    match found {
        Some(route) => {
            let mut rest: Vec<(u32, u32)> = Vec::new();
            let mut k: usize = 1;
            while k < route.len()
                invariant
                    1 <= k <= route@.len() || route@.len() == 0,
                    route@.len() >= 1 ==> rest@ == route@.subrange(1, k as int),
                decreases route@.len() - k,
            {
                rest.push(route[k]);
                k += 1;
            }
            proof {
                if route@.len() >= 1 {
                    assert(route@ =~= seq![route@[0]] + rest@);
                }
            }
            rest
        },
        None => Vec::new(),
    }
}

/// Plans to eat from what is held; there is nowhere to walk.
pub fn plan_eat(mind: &mut Mind, tick: u64) -> (path: Vec<(u32, u32)>)
    ensures
        path@.len() == 0,
        final(mind).current_goal == Some(Goal::Eat),
        final(mind).current_plan@ == seq![Action::Consume(ResourceKind::Food)],
        final(mind).plan_index == 0,
        same_outlook(*old(mind), *final(mind)),
{
    let mut actions = Vec::new();
    actions.push(Action::Consume(ResourceKind::Food));
    mind.set_plan(Goal::Eat, actions, tick);
    Vec::new()
}

/// Plans a rest: an adult of a settled household first deposits its spare food, and
/// anyone with a household walks home (or to the migration target) first when a
/// route is found. Returns the path to walk.
pub fn plan_rest(
    mind: &mut Mind,
    workspace: &mut PathfindingWorkspace,
    world: &Grid,
    origin: (u32, u32),
    tick: u64,
    home: Option<HomeContext>,
    age_ticks: u64,
    food_held: u16,
) -> (path: Vec<(u32, u32)>)
    requires
        world.wf(),
        old(workspace).wf(),
    ensures
        final(workspace).wf(),
        final(mind).current_goal == Some(Goal::Rest),
        final(mind).plan_index == 0,
        same_outlook(*old(mind), *final(mind)),
        path@.len() > 0 ==> (spec_rest_place(home, origin) matches Some(place) && walks_cheapest_route(
            world,
            origin,
            place,
            path@,
        )),
        final(mind).current_plan@ == spec_rest_actions(
            if path@.len() > 0 { spec_rest_place(home, origin) } else { None },
            spec_deposit_amount(home, age_ticks, food_held),
        ),
        path@.len() == 0 ==> ((spec_rest_place(home, origin) matches Some(place) && trivial_search_outcome(
            world,
            origin,
            place,
        ) is None && reachable(world, origin, place)) ==> final(workspace).spec_expansions()
            == DEFAULT_MAX_ITERATIONS),
{
    let stage = LifeStage::from_age_ticks(age_ticks);
    let deposit: u16 = match home {
        Some(c) => if c.migration_target.is_none() && stage == LifeStage::Adult {
            let spare = if food_held > HOUSEHOLD_PERSONAL_FOOD_RESERVE {
                food_held - HOUSEHOLD_PERSONAL_FOOD_RESERVE
            } else {
                0
            };
            if spare < c.storage_remaining_capacity {
                spare
            } else {
                c.storage_remaining_capacity
            }
        } else {
            0
        },
        None => 0,
    };
    let place: Option<(u32, u32)> = match home {
        Some(c) => {
            let target = match c.migration_target {
                Some(t) => t,
                None => (c.residence_x, c.residence_y),
            };
            if target.0 == origin.0 && target.1 == origin.1 {
                None
            } else {
                Some(target)
            }
        },
        None => None,
    };
    let mut path: Vec<(u32, u32)> = Vec::new();
    let mut actions: Vec<Action> = Vec::new();
    if let Some(destination) = place {
        let found = find_path_with_workspace(workspace, world, origin, destination);
        let ghost found_route = match found {
            Some(ref v) => Some(v@),
            None => None,
        };
        let moving = found.is_some();
        path = remaining_path(found);
        proof {
            if let Some(route) = found_route {
                assert(route.len() >= 2);
                assert(route[0] == origin);
                assert(route == seq![origin] + path@);
            }
        }
        if moving {
            actions.push(Action::MoveTo(destination.0, destination.1));
        }
    }
    if deposit > 0 {
        actions.push(Action::DepositHouseholdFood(deposit));
    }
    actions.push(Action::Wait);
    proof {
        assert(actions@ =~= spec_rest_actions(
            if path@.len() > 0 { spec_rest_place(home, origin) } else { None },
            spec_deposit_amount(home, age_ticks, food_held),
        ));
    }
    mind.set_plan(Goal::Rest, actions, tick);
    path
}

/// Plans to walk with the migrating household to `target`: wait when already there or
/// when no route is found. Returns the path to walk.
pub fn plan_migration(
    mind: &mut Mind,
    workspace: &mut PathfindingWorkspace,
    world: &Grid,
    origin: (u32, u32),
    tick: u64,
    target: (u32, u32),
) -> (path: Vec<(u32, u32)>)
    requires
        world.wf(),
        old(workspace).wf(),
    ensures
        final(workspace).wf(),
        final(mind).current_goal == Some(Goal::MigrateHousehold),
        final(mind).plan_index == 0,
        same_outlook(*old(mind), *final(mind)),
        path@.len() > 0 ==> origin != target && walks_cheapest_route(world, origin, target, path@)
            && final(mind).current_plan@ == seq![Action::MoveTo(target.0, target.1)],
        path@.len() == 0 ==> final(mind).current_plan@ == seq![Action::Wait],
        path@.len() == 0 && origin != target && trivial_search_outcome(world, origin, target) is None
            && reachable(world, origin, target) ==> final(workspace).spec_expansions() == DEFAULT_MAX_ITERATIONS,
{
    let mut actions: Vec<Action> = Vec::new();
    if origin.0 == target.0 && origin.1 == target.1 {
        actions.push(Action::Wait);
        mind.set_plan(Goal::MigrateHousehold, actions, tick);
        return Vec::new();
    }
    let found = find_path_with_workspace(workspace, world, origin, target);
    let ghost found_route = match found {
        Some(ref v) => Some(v@),
        None => None,
    };
    let moving = found.is_some();
    let path = remaining_path(found);
    proof {
        if let Some(route) = found_route {
            assert(route.len() >= 2);
            assert(route[0] == origin);
            assert(route == seq![origin] + path@);
        }
    }
    if moving {
        actions.push(Action::MoveTo(target.0, target.1));
    } else {
        actions.push(Action::Wait);
    }
    mind.set_plan(Goal::MigrateHousehold, actions, tick);
    path
}

/// Whether an individual takes a turn: alive and past infancy.
pub open spec fn takes_turn(member: Member) -> bool {
    member.alive && spec_life_stage(member.age_ticks) != LifeStage::Infant
}

/// The positions, in order, of those who take a turn: everyone alive and past infancy.
pub fn acting_members(members: &Vec<Member>) -> (r: Vec<usize>)
    ensures
        forall|k: int| 0 <= k < r@.len() ==> r@[k] < members@.len() && takes_turn(members@[#[trigger] r@[k] as int]),
        forall|k1: int, k2: int| 0 <= k1 < k2 < r@.len() ==> r@[k1] < r@[k2],
        forall|i: int| 0 <= i < members@.len() && takes_turn(#[trigger] members@[i]) ==> r@.contains(i as usize),
{
    let mut r: Vec<usize> = Vec::new();
    let mut i: usize = 0;
    while i < members.len()
        invariant
            0 <= i <= members@.len(),
            forall|k: int| 0 <= k < r@.len() ==> r@[k] < i && takes_turn(members@[#[trigger] r@[k] as int]),
            forall|k1: int, k2: int| 0 <= k1 < k2 < r@.len() ==> r@[k1] < r@[k2],
            forall|j: int| 0 <= j < i && takes_turn(#[trigger] members@[j]) ==> r@.contains(j as usize),
        decreases members@.len() - i,
    {
        let member = &members[i];
        if member.alive && LifeStage::from_age_ticks(member.age_ticks) != LifeStage::Infant {
            let ghost before = r@;
            r.push(i);
            proof {
                assert forall|j: int| 0 <= j < i + 1 && takes_turn(#[trigger] members@[j]) implies r@.contains(j as usize) by {
                    if j < i {
                        let k = choose|k: int| 0 <= k < before.len() && before[k] == j as usize;
                        assert(r@[k] == before[k]);
                    } else {
                        assert(r@[before.len() as int] == i);
                    }
                }
            }
        }
        i += 1;
    }
    r
}

} // verus!
