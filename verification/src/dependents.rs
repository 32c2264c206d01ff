//! Caregivers and their dependents: infants ride along with their caregiver, grown
//! dependents are released, and orphaned dependents are given the nearest suitable
//! caregiver in their region.
use vstd::prelude::*;
use crate::households::{find_member, member_index, members_by_id, Member};
use crate::entity::{spec_life_stage, LifeStage};
use crate::mind::Goal;
use crate::world::Grid;

verus! {

/// Who may care for dependents, best first: adults, then elders.
pub open spec fn spec_caregiver_priority(stage: LifeStage) -> Option<u8> {
    match stage {
        LifeStage::Adult => Some(0),
        LifeStage::Elder => Some(1),
        _ => None,
    }
}

/// The rank of `stage` as a caregiver, if it can be one.
pub fn caregiver_priority(stage: LifeStage) -> (r: Option<u8>)
    ensures
        r == spec_caregiver_priority(stage),
{
    match stage {
        LifeStage::Adult => Some(0),
        LifeStage::Elder => Some(1),
        _ => None,
    }
}

/// An infant or a child.
pub open spec fn is_dependent_age(age_ticks: u64) -> bool {
    spec_life_stage(age_ticks) == LifeStage::Infant || spec_life_stage(age_ticks) == LifeStage::Child
}

/// A living infant whose listed caregiver is alive takes the caregiver's position.
pub open spec fn snap_target(members: Seq<Member>, m: Member) -> Option<(u32, u32)> {
    if m.alive && spec_life_stage(m.age_ticks) == LifeStage::Infant {
        match m.caregiver_id {
            Some(c) => match member_index(members, c) {
                Some(k) => if members[k].alive {
                    Some((members[k].x, members[k].y))
                } else {
                    None
                },
                None => None,
            },
            None => None,
        }
    } else {
        None
    }
}

/// Moves every living infant onto its living caregiver's tile, using the positions
/// before any move.
pub fn snap_infants_to_caregivers(members: &mut Vec<Member>)
    requires
        members_by_id(old(members)@),
    ensures
        final(members)@.len() == old(members)@.len(),
        forall|i: int| 0 <= i < old(members)@.len() ==> #[trigger] final(members)@[i] == match snap_target(
            old(members)@,
            old(members)@[i],
        ) {
            Some((x, y)) => Member { x, y, ..old(members)@[i] },
            None => old(members)@[i],
        },
        members_by_id(final(members)@),
{
    let ghost before = members@;
    let mut updates: Vec<(usize, u32, u32)> = Vec::new();
    let mut i: usize = 0;
    while i < members.len()
        invariant
            members@ == before,
            members_by_id(before),
            i <= before.len(),
            forall|k: int| 0 <= k < updates@.len() ==> {
                let (idx, x, y) = #[trigger] updates@[k];
                &&& idx < i
                &&& snap_target(before, before[idx as int]) == Some((x, y))
            },
            forall|k: int, l: int| 0 <= k < l < updates@.len() ==> updates@[k].0 < updates@[l].0,
            forall|j: int| 0 <= j < i && snap_target(before, before[j]) is Some ==> exists|k: int| 0 <= k < updates@.len() && (#[trigger] updates@[k]).0 == j,
        decreases before.len() - i,
    {
        let ghost earlier = updates@;
        if members[i].alive && matches!(LifeStage::from_age_ticks(members[i].age_ticks), LifeStage::Infant) {
            if let Some(caregiver_id) = members[i].caregiver_id {
                if let Some(k) = find_member(members, caregiver_id) {
                    if members[k].alive {
                        updates.push((i, members[k].x, members[k].y));
                        proof {
                            assert(updates@.last().0 == i);
                        }
                    }
                }
            }
        }
        proof {
            assert forall|j: int| 0 <= j < i + 1 && snap_target(before, before[j]) is Some implies exists|k: int| 0 <= k < updates@.len() && (#[trigger] updates@[k]).0 == j by {
                if j < i {
                    let k = choose|k: int| 0 <= k < earlier.len() && (#[trigger] earlier[k]).0 == j;
                    assert(updates@[k] == earlier[k]);
                } else {
                    assert(updates@.len() == earlier.len() + 1);
                    assert(updates@[earlier.len() as int].0 == j);
                }
            }
        }
        i += 1;
    }
    let mut u: usize = 0;
    while u < updates.len()
        invariant
            members@.len() == before.len(),
            members_by_id(before),
            u <= updates@.len(),
            forall|k: int| 0 <= k < updates@.len() ==> {
                let (idx, x, y) = #[trigger] updates@[k];
                &&& idx < before.len()
                &&& snap_target(before, before[idx as int]) == Some((x, y))
            },
            forall|k: int, l: int| 0 <= k < l < updates@.len() ==> updates@[k].0 < updates@[l].0,
            forall|j: int| 0 <= j < before.len() && snap_target(before, before[j]) is Some ==> exists|k: int| 0 <= k < updates@.len() && (#[trigger] updates@[k]).0 == j,
            forall|j: int| 0 <= j < before.len() ==> #[trigger] members@[j] == if exists|k: int| 0 <= k < u && (#[trigger] updates@[k]).0 == j {
                match snap_target(before, before[j]) {
                    Some((x, y)) => Member { x, y, ..before[j] },
                    None => before[j],
                }
            } else {
                before[j]
            },
        decreases updates@.len() - u,
    {
        let (idx, x, y) = updates[u];
        let ghost prev = members@;
        members[idx].x = x;
        members[idx].y = y;
        proof {
            assert forall|j: int| 0 <= j < before.len() implies #[trigger] members@[j] == if exists|k: int| 0 <= k < u + 1 && (#[trigger] updates@[k]).0 == j {
                match snap_target(before, before[j]) {
                    Some((x, y)) => Member { x, y, ..before[j] },
                    None => before[j],
                }
            } else {
                before[j]
            } by {
                if j == idx {
                    assert(updates@[u as int].0 == j);
                    assert forall|k: int| 0 <= k < u implies (#[trigger] updates@[k]).0 != j by {
                        assert(updates@[k].0 < updates@[u as int].0);
                    }
                } else {
                    assert(prev[j] == members@[j]);
                    if exists|k: int| 0 <= k < u + 1 && (#[trigger] updates@[k]).0 == j {
                        let k = choose|k: int| 0 <= k < u + 1 && (#[trigger] updates@[k]).0 == j;
                        assert(k < u);
                    }
                }
            }
        }
        u += 1;
    }
    proof {
        assert forall|j: int| 0 <= j < before.len() implies #[trigger] members@[j] == match snap_target(before, before[j]) {
            Some((x, y)) => Member { x, y, ..before[j] },
            None => before[j],
        } by {
            if snap_target(before, before[j]) is Some {
                let k = choose|k: int| 0 <= k < updates@.len() && (#[trigger] updates@[k]).0 == j;
                assert(k < u);
            } else {
                if exists|k: int| 0 <= k < u && (#[trigger] updates@[k]).0 == j {
                    let k = choose|k: int| 0 <= k < u && (#[trigger] updates@[k]).0 == j;
                    assert(snap_target(before, before[updates@[k].0 as int]) is Some);
                }
            }
        }
        assert forall|a: int, b: int| 0 <= a < b < members@.len() implies members@[a].id < members@[b].id by {
            assert(members@[a].id == before[a].id && members@[b].id == before[b].id);
        }
    }
}

/// A living individual past childhood who still has a caregiver loses it; one that was
/// following stops.
pub open spec fn graduated(m: Member) -> Member {
    if m.alive && !is_dependent_age(m.age_ticks) && m.caregiver_id is Some {
        Member {
            caregiver_id: None,
            current_goal: if m.current_goal == Some(Goal::Follow) {
                None
            } else {
                m.current_goal
            },
            ..m
        }
    } else {
        m
    }
}

/// The graduate was following its caregiver, so its plan must be dropped.
pub open spec fn stops_following(m: Member) -> bool {
    m.alive && !is_dependent_age(m.age_ticks) && m.caregiver_id is Some && m.current_goal == Some(Goal::Follow)
}

/// The indices, in increasing order, are exactly those where `p` holds.
pub open spec fn lists_indices(r: Seq<usize>, n: int, p: spec_fn(int) -> bool) -> bool {
    &&& forall|k: int, l: int| 0 <= k < l < r.len() ==> r[k] < r[l]
    &&& forall|k: int| 0 <= k < r.len() ==> r[k] < n && p(r[k] as int)
    &&& forall|j: int| 0 <= j < n && #[trigger] p(j) ==> r.contains(j as usize)
}

/// Releases every living individual past childhood from its caregiver; returns the
/// indices of those that were following it, whose plans the caller drops.
pub fn clear_graduated_caregivers(members: &mut Vec<Member>) -> (stopped: Vec<usize>)
    requires
        members_by_id(old(members)@),
    ensures
        final(members)@.len() == old(members)@.len(),
        forall|i: int| 0 <= i < old(members)@.len() ==> #[trigger] final(members)@[i] == graduated(old(members)@[i]),
        lists_indices(stopped@, old(members)@.len() as int, |j: int| stops_following(old(members)@[j])),
        members_by_id(final(members)@),
{
    let ghost before = members@;
    let mut stopped: Vec<usize> = Vec::new();
    let mut i: usize = 0;
    while i < members.len()
        invariant
            i <= before.len(),
            members@.len() == before.len(),
            forall|j: int| 0 <= j < i ==> #[trigger] members@[j] == graduated(before[j]),
            forall|j: int| i <= j < before.len() ==> #[trigger] members@[j] == before[j],
            forall|k: int, l: int| 0 <= k < l < stopped@.len() ==> stopped@[k] < stopped@[l],
            forall|k: int| 0 <= k < stopped@.len() ==> stopped@[k] < i && stops_following(before[stopped@[k] as int]),
            forall|j: int| 0 <= j < i && stops_following(before[j]) ==> stopped@.contains(j as usize),
        decreases before.len() - i,
    {
        let ghost earlier = stopped@;
        if members[i].alive && !matches!(
            LifeStage::from_age_ticks(members[i].age_ticks),
            LifeStage::Infant | LifeStage::Child
        ) && members[i].caregiver_id.is_some() {
            members[i].caregiver_id = None;
            if matches!(members[i].current_goal, Some(Goal::Follow)) {
                members[i].current_goal = None;
                stopped.push(i);
            }
        }
        proof {
            assert forall|j: int| 0 <= j < i + 1 && stops_following(before[j]) implies stopped@.contains(j as usize) by {
                if j < i {
                    assert(earlier.contains(j as usize));
                    let k = choose|k: int| 0 <= k < earlier.len() && earlier[k] == j as usize;
                    assert(stopped@[k] == earlier[k]);
                } else {
                    assert(stopped@[stopped@.len() - 1] == j as usize);
                }
            }
        }
        i += 1;
    }
    proof {
        assert forall|a: int, b: int| 0 <= a < b < members@.len() implies members@[a].id < members@[b].id by {
            assert(members@[a].id == before[a].id && members@[b].id == before[b].id);
        }
    }
    stopped
}

/// Both tiles lie in the same detected region, or neither lies in one.
pub open spec fn same_region(left: Option<u32>, right: Option<u32>) -> bool {
    match (left, right) {
        (Some(l), Some(r)) => l == r,
        (None, None) => true,
        _ => false,
    }
}

/// A living adult or elder in the region of `position`.
pub open spec fn may_care(world: Grid, position: (u32, u32), m: Member) -> bool {
    &&& m.alive
    &&& spec_caregiver_priority(spec_life_stage(m.age_ticks)) is Some
    &&& same_region(
        world.spec_region_id_at(position.0 as int, position.1 as int),
        world.spec_region_id_at(m.x as int, m.y as int),
    )
}

/// How a caregiver candidate ranks: by priority, then distance, then id.
pub open spec fn care_key(position: (u32, u32), m: Member) -> (int, int, int) {
    (
        spec_caregiver_priority(spec_life_stage(m.age_ticks)).unwrap() as int,
        (if m.x >= position.0 { m.x - position.0 } else { position.0 - m.x }) + (if m.y >= position.1 {
            m.y - position.1
        } else {
            position.1 - m.y
        }),
        m.id as int,
    )
}

pub open spec fn care_key_lt(a: (int, int, int), b: (int, int, int)) -> bool {
    a.0 < b.0 || (a.0 == b.0 && (a.1 < b.1 || (a.1 == b.1 && a.2 < b.2)))
}

/// The best caregiver for a dependent at `position`: among the living adults and elders
/// of its region, adults before elders, then the nearest, then the lowest id.
pub open spec fn is_nearest_caregiver(members: Seq<Member>, world: Grid, position: (u32, u32), r: Option<u32>) -> bool {
    match r {
        Some(id) => exists|i: int|
            0 <= i < members.len() && #[trigger] members[i].id == id && may_care(world, position, members[i]) && forall|j: int|
                0 <= j < members.len() && may_care(world, position, #[trigger] members[j]) ==> !care_key_lt(
                    care_key(position, members[j]),
                    care_key(position, members[i]),
                ),
        None => forall|j: int| 0 <= j < members.len() ==> !may_care(world, position, #[trigger] members[j]),
    }
}

/// Finds the best caregiver for a dependent at `position`.
pub fn find_nearest_caregiver(members: &Vec<Member>, position: (u32, u32), world: &Grid) -> (r: Option<u32>)
    ensures
        is_nearest_caregiver(members@, *world, position, r),
        members_by_id(members@) ==> r == nearest_caregiver(members@, *world, position),
{
    let dependent_region = world.region_id_at(position.0, position.1);
    let mut best: Option<usize> = None;
    let mut best_key: (u8, u64, u32) = (0, 0, 0);
    let mut i: usize = 0;
    while i < members.len()
        invariant
            i <= members@.len(),
            dependent_region == world.spec_region_id_at(position.0 as int, position.1 as int),
            best matches Some(b) ==> b < i && may_care(*world, position, members@[b as int]) && care_key(position, members@[b as int])
                == (best_key.0 as int, best_key.1 as int, best_key.2 as int),
            best is None ==> forall|j: int| 0 <= j < i ==> !may_care(*world, position, #[trigger] members@[j]),
            best matches Some(b) ==> forall|j: int| 0 <= j < i && may_care(*world, position, #[trigger] members@[j]) ==> !care_key_lt(
                care_key(position, members@[j]),
                care_key(position, members@[b as int]),
            ),
        decreases members@.len() - i,
    {
        let candidate = &members[i];
        if candidate.alive {
            if let Some(priority) = caregiver_priority(LifeStage::from_age_ticks(candidate.age_ticks)) {
                let region = world.region_id_at(candidate.x, candidate.y);
                let same = match (dependent_region, region) {
                    (Some(l), Some(r)) => l == r,
                    (None, None) => true,
                    _ => false,
                };
                if same {
                    let dx: u64 = if candidate.x >= position.0 {
                        (candidate.x - position.0) as u64
                    } else {
                        (position.0 - candidate.x) as u64
                    };
                    let dy: u64 = if candidate.y >= position.1 {
                        (candidate.y - position.1) as u64
                    } else {
                        (position.1 - candidate.y) as u64
                    };
                    let key = (priority, dx + dy, candidate.id);
                    let better = match best {
                        None => true,
                        Some(_) => key.0 < best_key.0 || (key.0 == best_key.0 && (key.1 < best_key.1 || (key.1 == best_key.1
                            && key.2 < best_key.2))),
                    };
                    if better {
                        best = Some(i);
                        best_key = key;
                    }
                }
            }
        }
        i += 1;
    }
    let r = match best {
        Some(b) => Some(members[b].id),
        None => None,
    };
    proof {
        if members_by_id(members@) {
            lemma_nearest_caregiver_unique(members@, *world, position, r);
        }
    }
    r
}

/// The best caregiver for a dependent at `position` (see `is_nearest_caregiver`).
pub open spec fn nearest_caregiver(members: Seq<Member>, world: Grid, position: (u32, u32)) -> Option<u32> {
    choose|r: Option<u32>| is_nearest_caregiver(members, world, position, r)
}

/// With ids distinct, at most one caregiver is the best.
pub proof fn lemma_nearest_caregiver_unique(members: Seq<Member>, world: Grid, position: (u32, u32), r: Option<u32>)
    requires
        members_by_id(members),
        is_nearest_caregiver(members, world, position, r),
    ensures
        nearest_caregiver(members, world, position) == r,
{
    let c = nearest_caregiver(members, world, position);
    assert(is_nearest_caregiver(members, world, position, c));
    match (c, r) {
        (Some(a), Some(b)) => {
            let i = choose|i: int|
                0 <= i < members.len() && #[trigger] members[i].id == a && may_care(world, position, members[i]) && forall|j: int|
                    0 <= j < members.len() && may_care(world, position, #[trigger] members[j]) ==> !care_key_lt(
                        care_key(position, members[j]),
                        care_key(position, members[i]),
                    );
            let k = choose|k: int|
                0 <= k < members.len() && #[trigger] members[k].id == b && may_care(world, position, members[k]) && forall|j: int|
                    0 <= j < members.len() && may_care(world, position, #[trigger] members[j]) ==> !care_key_lt(
                        care_key(position, members[j]),
                        care_key(position, members[k]),
                    );
            assert(!care_key_lt(care_key(position, members[k]), care_key(position, members[i])));
            assert(!care_key_lt(care_key(position, members[i]), care_key(position, members[k])));
        },
        (Some(a), None) => {
            let i = choose|i: int|
                0 <= i < members.len() && #[trigger] members[i].id == a && may_care(world, position, members[i]) && forall|j: int|
                    0 <= j < members.len() && may_care(world, position, #[trigger] members[j]) ==> !care_key_lt(
                        care_key(position, members[j]),
                        care_key(position, members[i]),
                    );
        },
        (None, Some(b)) => {
            let k = choose|k: int|
                0 <= k < members.len() && #[trigger] members[k].id == b && may_care(world, position, members[k]) && forall|j: int|
                    0 <= j < members.len() && may_care(world, position, #[trigger] members[j]) ==> !care_key_lt(
                        care_key(position, members[j]),
                        care_key(position, members[k]),
                    );
        },
        (None, None) => {},
    }
}

/// What caregiver choice reads of an individual.
pub open spec fn same_as_candidate(a: Member, b: Member) -> bool {
    a.id == b.id && a.alive == b.alive && a.age_ticks == b.age_ticks && a.x == b.x && a.y == b.y
}

proof fn lemma_nearest_same_candidates(a: Seq<Member>, b: Seq<Member>, world: Grid, position: (u32, u32), r: Option<u32>)
    requires
        a.len() == b.len(),
        forall|j: int| 0 <= j < a.len() ==> same_as_candidate(#[trigger] a[j], b[j]),
        is_nearest_caregiver(a, world, position, r),
    ensures
        is_nearest_caregiver(b, world, position, r),
{
    assert forall|j: int| 0 <= j < a.len() implies may_care(world, position, #[trigger] b[j]) == may_care(world, position, a[j])
        && care_key(position, b[j]) == care_key(position, a[j]) by {
        assert(same_as_candidate(a[j], b[j]));
    }
    match r {
        Some(id) => {
            let i = choose|i: int|
                0 <= i < a.len() && #[trigger] a[i].id == id && may_care(world, position, a[i]) && forall|j: int|
                    0 <= j < a.len() && may_care(world, position, #[trigger] a[j]) ==> !care_key_lt(
                        care_key(position, a[j]),
                        care_key(position, a[i]),
                    );
            assert(same_as_candidate(a[i], b[i]));
            assert(b[i].id == id);
        },
        None => {},
    }
}

/// A child or infant whose caregiver is missing or no longer listed.
pub open spec fn orphaned(members: Seq<Member>, m: Member) -> bool {
    is_dependent_age(m.age_ticks) && match m.caregiver_id {
        Some(c) => member_index(members, c) is None,
        None => true,
    }
}

/// An orphaned dependent takes the best caregiver for its tile (none, when there is
/// none) and, when that changes its caregiver, drops its goal.
pub open spec fn reassigned(members: Seq<Member>, world: Grid, m: Member) -> Member {
    if orphaned(members, m) && nearest_caregiver(members, world, (m.x, m.y)) != m.caregiver_id {
        Member { caregiver_id: nearest_caregiver(members, world, (m.x, m.y)), current_goal: None, ..m }
    } else {
        m
    }
}

/// Gives every orphaned dependent the best caregiver for its tile; returns the indices
/// of those whose caregiver changed, whose plans the caller drops.
pub fn reassign_orphaned_dependents(members: &mut Vec<Member>, world: &Grid) -> (changed: Vec<usize>)
    requires
        members_by_id(old(members)@),
    ensures
        final(members)@.len() == old(members)@.len(),
        forall|i: int| 0 <= i < old(members)@.len() ==> #[trigger] final(members)@[i] == reassigned(old(members)@, *world, old(members)@[i]),
        lists_indices(changed@, old(members)@.len() as int, |j: int| reassigned(old(members)@, *world, old(members)@[j]) != old(members)@[j]),
        members_by_id(final(members)@),
{
    let ghost before = members@;
    let mut changed: Vec<usize> = Vec::new();
    let mut i: usize = 0;
    while i < members.len()
        invariant
            i <= before.len(),
            members_by_id(before),
            members@.len() == before.len(),
            forall|j: int| 0 <= j < before.len() ==> same_as_candidate(#[trigger] members@[j], before[j]),
            forall|j: int| 0 <= j < i ==> #[trigger] members@[j] == reassigned(before, *world, before[j]),
            forall|j: int| i <= j < before.len() ==> #[trigger] members@[j] == before[j],
            forall|k: int, l: int| 0 <= k < l < changed@.len() ==> changed@[k] < changed@[l],
            forall|k: int| 0 <= k < changed@.len() ==> changed@[k] < i && reassigned(before, *world, before[changed@[k] as int])
                != before[changed@[k] as int],
            forall|j: int| 0 <= j < i && reassigned(before, *world, before[j]) != before[j] ==> changed@.contains(j as usize),
        decreases before.len() - i,
    {
        let ghost earlier = changed@;
        proof {
            assert forall|a: int, b: int| 0 <= a < b < members@.len() implies members@[a].id < members@[b].id by {
                assert(same_as_candidate(members@[a], before[a]) && same_as_candidate(members@[b], before[b]));
            }
        }
        let dependent = matches!(LifeStage::from_age_ticks(members[i].age_ticks), LifeStage::Infant | LifeStage::Child);
        let needs = dependent && match members[i].caregiver_id {
            Some(c) => {
                let found = find_member(members, c);
                proof {
                    if found is None {
                        assert forall|j: int| 0 <= j < before.len() implies #[trigger] before[j].id != c by {
                            assert(same_as_candidate(members@[j], before[j]));
                        }
                    } else {
                        let j = found.unwrap() as int;
                        assert(same_as_candidate(members@[j], before[j]));
                        assert(before[j].id == c);
                    }
                }
                found.is_none()
            },
            None => true,
        };
        if needs {
            let position = (members[i].x, members[i].y);
            let new_caregiver = find_nearest_caregiver(members, position, world);
            proof {
                assert forall|j: int| 0 <= j < members@.len() implies same_as_candidate(#[trigger] members@[j], before[j]) by {}
                lemma_nearest_same_candidates(members@, before, *world, position, new_caregiver);
                lemma_nearest_caregiver_unique(before, *world, position, new_caregiver);
            }
            let same = match (members[i].caregiver_id, new_caregiver) {
                (Some(a), Some(b)) => a == b,
                (None, None) => true,
                _ => false,
            };
            if !same {
                members[i].caregiver_id = new_caregiver;
                members[i].current_goal = None;
                changed.push(i);
            }
        }
        proof {
            assert forall|j: int| 0 <= j < i + 1 && reassigned(before, *world, before[j]) != before[j] implies changed@.contains(j as usize) by {
                if j < i {
                    assert(earlier.contains(j as usize));
                    let k = choose|k: int| 0 <= k < earlier.len() && earlier[k] == j as usize;
                    assert(changed@[k] == earlier[k]);
                } else {
                    assert(changed@[changed@.len() - 1] == j as usize);
                }
            }
        }
        i += 1;
    }
    proof {
        assert forall|a: int, b: int| 0 <= a < b < members@.len() implies members@[a].id < members@[b].id by {
            assert(same_as_candidate(members@[a], before[a]) && same_as_candidate(members@[b], before[b]));
        }
    }
    changed
}

} // verus!
