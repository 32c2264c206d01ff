//! The order in which household conflicts are settled: one attempt per pair of
//! individuals, pairs in increasing order.
use vstd::prelude::*;
use crate::households::{find_member, member_index, Member};
use crate::partnerships::{acquaintance, acquaintance_of, population_sound};

verus! {

/// An individual's attempt to quarrel with another member of its household.
#[derive(Clone, Copy, Debug, PartialEq, Eq, Structural)]
pub struct HouseholdConflictAttempt {
    pub actor_id: u32,
    pub target_id: u32,
    /// Where the actor stood.
    pub actor_x: u32,
    pub actor_y: u32,
}

/// The two individuals of an attempt, smaller id first.
pub open spec fn pair_of(attempt: HouseholdConflictAttempt) -> (u32, u32) {
    if attempt.actor_id <= attempt.target_id {
        (attempt.actor_id, attempt.target_id)
    } else {
        (attempt.target_id, attempt.actor_id)
    }
}

/// Pairs ordered by their smaller id, then by their larger one.
pub open spec fn pair_before(p: (u32, u32), q: (u32, u32)) -> bool {
    p.0 < q.0 || (p.0 == q.0 && p.1 < q.1)
}

/// How the actor feels about the target; zero when either is unknown.
pub open spec fn conflict_affinity(members: Seq<Member>, attempt: HouseholdConflictAttempt) -> int {
    match member_index(members, attempt.actor_id) {
        Some(a) => match acquaintance(members[a].memory.known_entities@, attempt.target_id) {
            Some(k) => k.affinity as int,
            None => 0,
        },
        None => 0,
    }
}

/// Of two attempts, the one settled: the lower affinity, then the lower actor id, then
/// the earlier.
pub open spec fn preferred(members: Seq<Member>, attempts: Seq<HouseholdConflictAttempt>, i: int, j: int) -> bool {
    let ai = conflict_affinity(members, attempts[i]);
    let aj = conflict_affinity(members, attempts[j]);
    ai < aj || (ai == aj && (attempts[i].actor_id < attempts[j].actor_id || (attempts[i].actor_id
        == attempts[j].actor_id && i < j)))
}

/// Attempt `i` is the one settled for its pair.
pub open spec fn kept(members: Seq<Member>, attempts: Seq<HouseholdConflictAttempt>, i: int) -> bool {
    forall|j: int|
        0 <= j < attempts.len() && j != i && pair_of(#[trigger] attempts[j]) == pair_of(attempts[i])
            ==> preferred(members, attempts, i, j)
}

/// `attempt` is one of the attempts, and the one settled for its pair.
pub open spec fn settled_attempt(
    members: Seq<Member>,
    attempts: Seq<HouseholdConflictAttempt>,
    attempt: HouseholdConflictAttempt,
) -> bool {
    exists|i: int| 0 <= i < attempts.len() && kept(members, attempts, i) && attempt == #[trigger] attempts[i]
}

fn pair(attempt: HouseholdConflictAttempt) -> (r: (u32, u32))
    ensures
        r == pair_of(attempt),
{
    if attempt.actor_id <= attempt.target_id {
        (attempt.actor_id, attempt.target_id)
    } else {
        (attempt.target_id, attempt.actor_id)
    }
}

fn affinity_for(members: &Vec<Member>, attempt: HouseholdConflictAttempt) -> (r: i16)
    requires
        population_sound(members@),
    ensures
        r == conflict_affinity(members@, attempt),
{
    match find_member(members, attempt.actor_id) {
        Some(index) => match acquaintance_of(&members[index].memory.known_entities, attempt.target_id) {
            Some(known) => known.affinity,
            None => 0,
        },
        None => 0,
    }
}

/// The attempts to settle, one per pair: of the attempts on a pair the one with the
/// lowest affinity of actor to target, then the lowest actor id, then the earliest;
/// pairs in increasing order.
pub fn conflict_order(members: &Vec<Member>, attempts: Vec<HouseholdConflictAttempt>) -> (r: Vec<
    HouseholdConflictAttempt,
>)
    requires
        population_sound(members@),
    ensures
        forall|k1: int, k2: int| 0 <= k1 < k2 < r@.len() ==> pair_before(pair_of(r@[k1]), pair_of(r@[k2])),
        forall|k: int| 0 <= k < r@.len() ==> settled_attempt(members@, attempts@, #[trigger] r@[k]),
        forall|i: int| 0 <= i < attempts@.len() && kept(members@, attempts@, i) ==> r@.contains(attempts@[i]),
{
    let n = attempts.len();
    let mut affinities: Vec<i16> = Vec::new();
    let mut i: usize = 0;
    while i < n
        invariant
            n == attempts@.len(),
            population_sound(members@),
            0 <= i <= n,
            affinities@.len() == i,
            forall|j: int| 0 <= j < i ==> #[trigger] affinities@[j] == conflict_affinity(members@, attempts@[j]),
        decreases n - i,
    {
        affinities.push(affinity_for(members, attempts[i]));
        i += 1;
    }
    let mut r: Vec<HouseholdConflictAttempt> = Vec::new();
    let ghost mut sources: Seq<int> = Seq::empty();
    let mut i: usize = 0;
    while i < n
        invariant
            n == attempts@.len(),
            affinities@.len() == n,
            forall|j: int| 0 <= j < n ==> #[trigger] affinities@[j] == conflict_affinity(members@, attempts@[j]),
            0 <= i <= n,
            sources.len() == r@.len(),
            forall|k: int|
                0 <= k < r@.len() ==> 0 <= #[trigger] sources[k] < i && kept(members@, attempts@, sources[k])
                    && r@[k] == attempts@[sources[k]],
            forall|k1: int, k2: int| 0 <= k1 < k2 < r@.len() ==> pair_before(pair_of(r@[k1]), pair_of(r@[k2])),
            forall|j: int| 0 <= j < i && kept(members@, attempts@, j) ==> r@.contains(attempts@[j]),
        decreases n - i,
    {
        let current = attempts[i];
        let current_pair = pair(current);
        let mut keep = true;
        let mut j: usize = 0;
        while j < n
            invariant
                n == attempts@.len(),
                affinities@.len() == n,
                forall|t: int| 0 <= t < n ==> #[trigger] affinities@[t] == conflict_affinity(members@, attempts@[t]),
                0 <= i < n,
                0 <= j <= n,
                current == attempts@[i as int],
                current_pair == pair_of(current),
                keep == forall|t: int|
                    0 <= t < j && t != i && pair_of(#[trigger] attempts@[t]) == current_pair ==> preferred(
                        members@,
                        attempts@,
                        i as int,
                        t,
                    ),
            decreases n - j,
        {
            let other = attempts[j];
            let other_pair = pair(other);
            if j != i && other_pair.0 == current_pair.0 && other_pair.1 == current_pair.1 {
                let ai = affinities[i];
                let aj = affinities[j];
                let wins = ai < aj || (ai == aj && (current.actor_id < other.actor_id || (current.actor_id
                    == other.actor_id && i < j)));
                if !wins {
                    keep = false;
                }
            }
            proof {
                assert(attempts@[j as int] == other);
            }
            j += 1;
        }
        if keep {
            let mut pos: usize = 0;
            while pos < r.len() && pair_before_exec(pair(r[pos]), current_pair)
                invariant
                    0 <= pos <= r@.len(),
                    forall|k: int| 0 <= k < pos ==> pair_before(pair_of(#[trigger] r@[k]), current_pair),
                decreases r@.len() - pos,
            {
                pos += 1;
            }
            let ghost before = r@;
            let ghost sources_before = sources;
            proof {
                assert forall|k: int| 0 <= k < before.len() implies pair_of(#[trigger] before[k]) != current_pair by {
                    let s = sources[k];
                    if pair_of(before[k]) == current_pair {
                        assert(s != i as int);
                        assert(pair_of(attempts@[s]) == pair_of(attempts@[i as int]));
                        assert(preferred(members@, attempts@, i as int, s));
                        assert(preferred(members@, attempts@, s, i as int));
                    }
                }
            }
            r.insert(pos, current);
            proof {
                sources = sources.insert(pos as int, i as int);
                assert forall|k1: int, k2: int| 0 <= k1 < k2 < r@.len() implies pair_before(
                    pair_of(r@[k1]),
                    pair_of(r@[k2]),
                ) by {
                    if pos < before.len() {
                        assert(!pair_before(pair_of(before[pos as int]), current_pair));
                        assert(pair_of(before[pos as int]) != current_pair);
                    }
                    if k1 < pos && k2 == pos {
                        assert(r@[k1] == before[k1]);
                    } else if k1 < pos && k2 > pos {
                        assert(r@[k1] == before[k1] && r@[k2] == before[k2 - 1]);
                    } else if k1 == pos && k2 > pos {
                        assert(r@[k2] == before[k2 - 1]);
                        if k2 - 1 > pos {
                            assert(pair_before(pair_of(before[pos as int]), pair_of(before[k2 - 1])));
                        }
                    } else if k1 < pos {
                        assert(r@[k1] == before[k1] && r@[k2] == before[k2]);
                    } else {
                        assert(r@[k1] == before[k1 - 1] && r@[k2] == before[k2 - 1]);
                    }
                }
                assert forall|k: int| 0 <= k < r@.len() implies 0 <= #[trigger] sources[k] < i + 1 && kept(
                    members@,
                    attempts@,
                    sources[k],
                ) && r@[k] == attempts@[sources[k]] by {
                    if k < pos {
                        assert(sources[k] == sources_before[k]);
                    } else if k > pos {
                        assert(sources[k] == sources_before[k - 1]);
                    }
                }
                assert forall|t: int| 0 <= t < i + 1 && kept(members@, attempts@, t) implies r@.contains(attempts@[t]) by {
                    if t < i {
                        let k = choose|k: int| 0 <= k < before.len() && before[k] == attempts@[t];
                        if k < pos {
                            assert(r@[k] == before[k]);
                        } else {
                            assert(r@[k + 1] == before[k]);
                        }
                    } else {
                        assert(r@[pos as int] == current);
                    }
                }
            }
        } else {
            proof {
                assert(!kept(members@, attempts@, i as int));
            }
        }
        i += 1;
    }
    proof {
        assert forall|k: int| 0 <= k < r@.len() implies settled_attempt(members@, attempts@, #[trigger] r@[k]) by {
            assert(0 <= sources[k] < n);
            assert(kept(members@, attempts@, sources[k]) && r@[k] == attempts@[sources[k]]);
        }
    }
    r
}

fn pair_before_exec(p: (u32, u32), q: (u32, u32)) -> (r: bool)
    ensures
        r == pair_before(p, q),
{
    p.0 < q.0 || (p.0 == q.0 && p.1 < q.1)
}

} // verus!
