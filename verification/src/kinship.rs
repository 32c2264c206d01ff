//! Biological kinship derived from persistent parentage: children, siblings,
//! ancestors and descendants by generation, and how two individuals are related.
use vstd::prelude::*;
use crate::genealogy::{has_parent, ids_increasing, spec_children, Genealogy, LineageRecord};
use crate::idset::IdSet;
use std::collections::HashSet;

verus! {

broadcast use vstd::std_specs::hash::group_hash_axioms;

/// `parent` is named as a parent in the record of `child`.
pub open spec fn parent_of(records: Seq<LineageRecord>, child: u32, parent: u32) -> bool {
    exists|i: int| 0 <= i < records.len() && (#[trigger] records[i]).entity_id == child && has_parent(records[i], parent)
}

/// One generation step from `from` to `to`: upward to a parent, or downward to a child.
pub open spec fn link(records: Seq<LineageRecord>, upward: bool, from: u32, to: u32) -> bool {
    if upward {
        parent_of(records, from, to)
    } else {
        parent_of(records, to, from)
    }
}

/// The individuals at most `k` generation steps from `origin` in one direction,
/// `origin` included.
pub open spec fn within(records: Seq<LineageRecord>, upward: bool, origin: u32, k: nat) -> Set<u32>
    decreases k,
{
    if k == 0 {
        set![origin]
    } else {
        let previous = within(records, upward, origin, (k - 1) as nat);
        previous.union(Set::new(|v: u32| exists|u: u32| previous.contains(u) && #[trigger] link(records, upward, u, v)))
    }
}

/// `v` is exactly `k` generation steps from `origin`: reachable in `k` steps and not
/// fewer.
pub open spec fn at_distance(records: Seq<LineageRecord>, upward: bool, origin: u32, v: u32, k: nat) -> bool {
    &&& within(records, upward, origin, k).contains(v)
    &&& (k == 0 || !within(records, upward, origin, (k - 1) as nat).contains(v))
}

/// The number of generation steps from `origin` to `v`, when `v` is reachable.
pub open spec fn generation_distance(records: Seq<LineageRecord>, upward: bool, origin: u32, v: u32) -> nat {
    choose|k: nat| at_distance(records, upward, origin, v, k)
}

/// A generation count held inside `u16`.
pub open spec fn capped_generation(k: nat) -> u16 {
    if k > u16::MAX { u16::MAX } else { k as u16 }
}

#[derive(Clone, Copy, Debug, PartialEq, Eq, Structural)]
pub struct KinshipGeneration {
    pub entity_id: u32,
    pub generation: u16,
}

/// Relatives are ordered by generation, then by id.
pub open spec fn generation_before(a: KinshipGeneration, b: KinshipGeneration) -> bool {
    a.generation < b.generation || (a.generation == b.generation && a.entity_id < b.entity_id)
}

pub open spec fn generations_sorted(s: Seq<KinshipGeneration>) -> bool {
    forall|i: int, j: int| 0 <= i < j < s.len() ==> generation_before(s[i], s[j])
}

/// `s` lists exactly the relatives of `origin` in one direction: each individual
/// reachable in one or more steps, once, with its generation distance (capped to
/// `u16`), ordered by generation and then id.
pub open spec fn lists_relatives(records: Seq<LineageRecord>, upward: bool, origin: u32, s: Seq<KinshipGeneration>) -> bool {
    &&& generations_sorted(s)
    &&& forall|i: int|
        #![trigger s[i]]
        0 <= i < s.len() ==> s[i].entity_id != origin && generation_distance(records, upward, origin, s[i].entity_id) >= 1
            && at_distance(records, upward, origin, s[i].entity_id, generation_distance(records, upward, origin, s[i].entity_id))
            && s[i].generation == capped_generation(generation_distance(records, upward, origin, s[i].entity_id))
    &&& forall|v: u32, k: nat|
        #[trigger] within(records, upward, origin, k).contains(v) && v != origin ==> exists|i: int|
            0 <= i < s.len() && s[i].entity_id == v
}

/// A reachable individual has exactly one generation distance.
proof fn lemma_distance_unique(records: Seq<LineageRecord>, upward: bool, origin: u32, v: u32, k: nat)
    requires
        at_distance(records, upward, origin, v, k),
    ensures
        generation_distance(records, upward, origin, v) == k,
{
    let d = generation_distance(records, upward, origin, v);
    assert(at_distance(records, upward, origin, v, d));
    if d < k {
        lemma_within_grows(records, upward, origin, d, (k - 1) as nat);
    } else if d > k {
        lemma_within_grows(records, upward, origin, k, (d - 1) as nat);
    }
}

proof fn lemma_within_grows(records: Seq<LineageRecord>, upward: bool, origin: u32, j: nat, k: nat)
    requires
        j <= k,
    ensures
        within(records, upward, origin, j).subset_of(within(records, upward, origin, k)),
    decreases k - j,
{
    if j < k {
        lemma_within_grows(records, upward, origin, j, (k - 1) as nat);
    }
}

/// Once a step adds nobody, no later step does.
proof fn lemma_within_stable(records: Seq<LineageRecord>, upward: bool, origin: u32, level: nat, k: nat)
    requires
        level >= 1,
        within(records, upward, origin, level) == within(records, upward, origin, (level - 1) as nat),
    ensures
        within(records, upward, origin, k).subset_of(within(records, upward, origin, level)),
    decreases k,
{
    if k <= level {
        lemma_within_grows(records, upward, origin, k, level);
    } else {
        lemma_within_stable(records, upward, origin, level, (k - 1) as nat);
        let previous = within(records, upward, origin, (k - 1) as nat);
        let top = within(records, upward, origin, level);
        assert forall|v: u32| within(records, upward, origin, k).contains(v) implies top.contains(v) by {
            if !previous.contains(v) {
                let u = choose|u: u32| previous.contains(u) && #[trigger] link(records, upward, u, v);
                assert(top.contains(u));
                assert(within(records, upward, origin, (level - 1) as nat).contains(u));
                assert(within(records, upward, origin, level).contains(v));
            }
        }
    }
}

/// Every individual reachable by one step lies among the ids that the records mention
/// in that direction.
pub open spec fn universe(records: Seq<LineageRecord>, upward: bool, origin: u32) -> Seq<u32> {
    Seq::new(
        2 * records.len() + 1,
        |k: int|
            if k == 2 * records.len() {
                origin
            } else if upward {
                match if k % 2 == 0 { records[k / 2].mother_id } else { records[k / 2].father_id } {
                    Some(p) => p,
                    None => origin,
                }
            } else {
                records[k / 2].entity_id
            },
    )
}

proof fn lemma_link_in_universe(records: Seq<LineageRecord>, upward: bool, origin: u32, u: u32, v: u32)
    requires
        link(records, upward, u, v),
    ensures
        universe(records, upward, origin).contains(v),
{
    let n = records.len();
    let uni = universe(records, upward, origin);
    if upward {
        let i = choose|i: int| 0 <= i < records.len() && (#[trigger] records[i]).entity_id == u && has_parent(records[i], v);
        if records[i].mother_id == Some(v) {
            assert((2 * i) % 2 == 0 && (2 * i) / 2 == i);
            assert(uni[2 * i] == v);
        } else {
            assert((2 * i + 1) % 2 == 1 && (2 * i + 1) / 2 == i);
            assert(uni[2 * i + 1] == v);
        }
    } else {
        let i = choose|i: int| 0 <= i < records.len() && (#[trigger] records[i]).entity_id == v && has_parent(records[i], u);
        assert((2 * i) / 2 == i);
        assert(uni[2 * i] == v);
    }
}

proof fn lemma_within_in_universe(records: Seq<LineageRecord>, upward: bool, origin: u32, k: nat)
    ensures
        within(records, upward, origin, k).subset_of(universe(records, upward, origin).to_set()),
    decreases k,
{
    let uni = universe(records, upward, origin);
    assert(uni[2 * records.len() as int] == origin);
    if k > 0 {
        lemma_within_in_universe(records, upward, origin, (k - 1) as nat);
        assert forall|v: u32| within(records, upward, origin, k).contains(v) implies uni.to_set().contains(v) by {
            let previous = within(records, upward, origin, (k - 1) as nat);
            if !previous.contains(v) {
                let u = choose|u: u32| previous.contains(u) && #[trigger] link(records, upward, u, v);
                lemma_link_in_universe(records, upward, origin, u, v);
            }
        }
    }
}

/// A list of distinct ids that all lie in `universe` is no longer than it.
proof fn lemma_visited_bounded(visited: Set<u32>, uni: Seq<u32>)
    requires
        visited.subset_of(uni.to_set()),
    ensures
        visited.len() <= uni.len(),
        visited.finite(),
{
    uni.lemma_cardinality_of_set();
    vstd::set_lib::lemma_len_subset(visited, uni.to_set());
}

/// `w` is a child of `parent_id` exactly when the records name it so.
proof fn lemma_children_contains(records: Seq<LineageRecord>, parent_id: u32, w: u32)
    ensures
        spec_children(records, parent_id).contains(w) <==> parent_of(records, w, parent_id),
    decreases records.len(),
{
    if records.len() > 0 {
        let rest = records.drop_last();
        lemma_children_contains(rest, parent_id, w);
        if parent_of(rest, w, parent_id) {
            let i = choose|i: int| 0 <= i < rest.len() && (#[trigger] rest[i]).entity_id == w && has_parent(rest[i], parent_id);
            assert(records[i] == rest[i]);
        }
        if parent_of(records, w, parent_id) {
            let i = choose|i: int| 0 <= i < records.len() && (#[trigger] records[i]).entity_id == w && has_parent(records[i], parent_id);
            if i < rest.len() {
                assert(rest[i] == records[i]);
            }
        }
        if has_parent(records.last(), parent_id) {
            let s = spec_children(rest, parent_id);
            assert(spec_children(records, parent_id) == s.push(records.last().entity_id));
            assert(s.push(records.last().entity_id).last() == records.last().entity_id);
            if s.contains(w) {
                let k = choose|k: int| 0 <= k < s.len() && s[k] == w;
                assert(s.push(records.last().entity_id)[k] == w);
            }
            if s.push(records.last().entity_id).contains(w) && w != records.last().entity_id {
                let k = choose|k: int| 0 <= k < s.len() + 1 && s.push(records.last().entity_id)[k] == w;
                assert(s[k] == w);
            }
        }
    }
}

/// Inserts `item` into a list ordered by generation and id.
fn insert_relative(list: &mut Vec<KinshipGeneration>, item: KinshipGeneration)
    requires
        generations_sorted(old(list)@),
        forall|i: int| 0 <= i < old(list)@.len() ==> (#[trigger] old(list)@[i]).entity_id != item.entity_id,
    ensures
        generations_sorted(final(list)@),
        forall|x: KinshipGeneration| #[trigger] final(list)@.contains(x) <==> (old(list)@.contains(x) || x == item),
{
    let mut lo: usize = 0;
    let mut hi: usize = list.len();
    while lo < hi
        invariant
            generations_sorted(list@),
            0 <= lo <= hi <= list@.len(),
            forall|j: int| 0 <= j < lo ==> generation_before(list@[j], item),
            forall|j: int| hi <= j < list@.len() ==> generation_before(item, list@[j]),
            forall|i: int| 0 <= i < list@.len() ==> (#[trigger] list@[i]).entity_id != item.entity_id,
        decreases hi - lo,
    {
        let mid = lo + (hi - lo) / 2;
        let v = list[mid];
        if v.generation < item.generation || (v.generation == item.generation && v.entity_id < item.entity_id) {
            proof {
                assert forall|j: int| 0 <= j < mid + 1 implies generation_before(list@[j], item) by {
                    if j < mid {
                        assert(generation_before(list@[j], list@[mid as int]));
                    }
                }
            }
            lo = mid + 1;
        } else {
            assert(v.entity_id != item.entity_id);
            proof {
                assert forall|j: int| mid <= j < list@.len() implies generation_before(item, list@[j]) by {
                    if j > mid {
                        assert(generation_before(list@[mid as int], list@[j]));
                    }
                }
            }
            hi = mid;
        }
    }
    let ghost before = list@;
    list.insert(lo, item);
    proof {
        assert forall|a: int, b: int| 0 <= a < b < list@.len() implies generation_before(list@[a], list@[b]) by {
            if b < lo {
                assert(list@[a] == before[a] && list@[b] == before[b]);
            } else if b == lo {
                assert(list@[a] == before[a]);
            } else if a < lo {
                assert(list@[a] == before[a] && list@[b] == before[b - 1]);
            } else if a == lo {
                assert(list@[b] == before[b - 1]);
            } else {
                assert(list@[a] == before[a - 1] && list@[b] == before[b - 1]);
            }
        }
        assert forall|x: KinshipGeneration| #[trigger] list@.contains(x) <==> (before.contains(x) || x == item) by {
            if list@.contains(x) {
                let k = choose|k: int| 0 <= k < list@.len() && list@[k] == x;
                if k < lo {
                    assert(before[k] == x);
                } else if k > lo {
                    assert(before[k - 1] == x);
                }
            }
            if before.contains(x) {
                let k = choose|k: int| 0 <= k < before.len() && before[k] == x;
                if k < lo {
                    assert(list@[k] == x);
                } else {
                    assert(list@[k + 1] == x);
                }
            }
            if x == item {
                assert(list@[lo as int] == x);
            }
        }
    }
}

/// The individuals one generation step from `u`: its recorded parents when `upward`,
/// otherwise its children.
fn step_targets(genealogy: &Genealogy, upward: bool, u: u32) -> (r: Vec<u32>)
    requires
        genealogy.wf(),
    ensures
        forall|w: u32| #[trigger] r@.contains(w) <==> link(genealogy.spec_records(), upward, u, w),
{
    let ghost records = genealogy.spec_records();
    proof {
        genealogy.lemma_records_increasing();
    }
    let mut targets: Vec<u32> = Vec::new();
    if upward {
        match genealogy.get(u) {
            Some(record) => {
                let rec = *record;
                match rec.mother_id {
                    Some(m) => targets.push(m),
                    None => {},
                }
                match rec.father_id {
                    Some(f) => targets.push(f),
                    None => {},
                }
                proof {
                    let k = choose|k: int| 0 <= k < records.len() && records[k] == rec;
                    assert forall|w: u32| #[trigger] targets@.contains(w) <==> link(records, upward, u, w) by {
                        if link(records, upward, u, w) {
                            let i = choose|i: int| 0 <= i < records.len() && (#[trigger] records[i]).entity_id == u
                                && has_parent(records[i], w);
                            if i < k {
                                assert(records[i].entity_id < records[k].entity_id);
                            } else if i > k {
                                assert(records[k].entity_id < records[i].entity_id);
                            }
                            if rec.mother_id == Some(w) {
                                assert(targets@[0] == w);
                            } else {
                                assert(targets@.last() == w);
                            }
                        }
                        if targets@.contains(w) {
                            assert(records[k].entity_id == u);
                            assert(has_parent(records[k], w));
                        }
                    }
                }
            },
            None => {
                proof {
                    assert forall|w: u32| !link(records, upward, u, w) by {
                        if link(records, upward, u, w) {
                            let i = choose|i: int| 0 <= i < records.len() && (#[trigger] records[i]).entity_id == u
                                && has_parent(records[i], w);
                            assert(records[i].entity_id != u);
                        }
                    }
                }
            },
        }
    } else {
        let children = genealogy.children_of(u);
        let mut i: usize = 0;
        while i < children.len()
            invariant
                0 <= i <= children@.len(),
                targets@ == children@.subrange(0, i as int),
            decreases children@.len() - i,
        {
            targets.push(children[i]);
            i += 1;
        }
        proof {
            assert(targets@ =~= children@);
            assert forall|w: u32| #[trigger] targets@.contains(w) <==> link(records, upward, u, w) by {
                lemma_children_contains(records, u, w);
            }
        }
    }
    targets
}

/// Expands one generation: every individual one step beyond the `frontier` (the
/// individuals exactly `lv` steps away) that was not reached yet is marked visited and
/// returned.
fn expand_level(
    genealogy: &Genealogy,
    upward: bool,
    origin: u32,
    frontier: &Vec<u32>,
    visited: &mut HashSet<u32>,
    Ghost(lv): Ghost<nat>,
) -> (next: IdSet)
    requires
        genealogy.wf(),
        old(visited)@.finite(),
        forall|v: u32| #[trigger] old(visited)@.contains(v) <==> within(genealogy.spec_records(), upward, origin, lv).contains(v),
        forall|v: u32| #[trigger] frontier@.contains(v) <==> at_distance(genealogy.spec_records(), upward, origin, v, lv),
    ensures
        final(visited)@.finite(),
        next.wf(),
        forall|v: u32| #[trigger] next@.contains(v) <==> (within(genealogy.spec_records(), upward, origin, lv + 1).contains(v)
            && !within(genealogy.spec_records(), upward, origin, lv).contains(v)),
        forall|v: u32| #[trigger] final(visited)@.contains(v) <==> within(genealogy.spec_records(), upward, origin, lv + 1).contains(v),
        final(visited)@.len() == old(visited)@.len() + next@.len(),
{
    let ghost records = genealogy.spec_records();
    let ghost visited_before = visited@.len();
    let mut next = IdSet::new();
    let mut i: usize = 0;
    while i < frontier.len()
        invariant
            genealogy.wf(),
            records == genealogy.spec_records(),
            visited@.finite(),
            next.wf(),
            0 <= i <= frontier@.len(),
            forall|v: u32| #[trigger] frontier@.contains(v) <==> at_distance(records, upward, origin, v, lv),
            forall|v: u32| #[trigger] visited@.contains(v) <==> (within(records, upward, origin, lv).contains(v)
                || next@.contains(v)),
            forall|v: u32| #[trigger] next@.contains(v) ==> !within(records, upward, origin, lv).contains(v)
                && within(records, upward, origin, lv + 1).contains(v),
            forall|j: int, w: u32|
                0 <= j < i && #[trigger] link(records, upward, frontier@[j], w) ==> visited@.contains(w),
            visited@.len() == visited_before + next@.len(),
        decreases frontier@.len() - i,
    {
        let u = frontier[i];
        proof {
            assert(frontier@.contains(u));
        }
        let targets = step_targets(genealogy, upward, u);
        let mut t: usize = 0;
        while t < targets.len()
            invariant
                visited@.finite(),
                next.wf(),
                0 <= t <= targets@.len(),
                at_distance(records, upward, origin, u, lv),
                forall|w: u32| #[trigger] targets@.contains(w) <==> link(records, upward, u, w),
                forall|v: u32| #[trigger] visited@.contains(v) <==> (within(records, upward, origin, lv).contains(v)
                    || next@.contains(v)),
                forall|v: u32| #[trigger] next@.contains(v) ==> !within(records, upward, origin, lv).contains(v)
                    && within(records, upward, origin, lv + 1).contains(v),
                forall|k: int| 0 <= k < t ==> visited@.contains(#[trigger] targets@[k]),
                visited@.len() == visited_before + next@.len(),
                forall|j: int, w: u32|
                    0 <= j < i && #[trigger] link(records, upward, frontier@[j], w) ==> visited@.contains(w),
                0 <= i < frontier@.len(),
                frontier@[i as int] == u,
            decreases targets@.len() - t,
        {
            let w = targets[t];
            proof {
                assert(targets@.contains(w));
                assert(link(records, upward, u, w));
                assert(within(records, upward, origin, lv + 1).contains(w));
            }
            if visited.insert(w) {
                next.insert(w);
            }
            t += 1;
        }
        proof {
            assert forall|j: int, w: u32|
                0 <= j < i + 1 && #[trigger] link(records, upward, frontier@[j], w) implies visited@.contains(w) by {
                if j == i {
                    assert(targets@.contains(w));
                    let k = choose|k: int| 0 <= k < targets@.len() && targets@[k] == w;
                    assert(visited@.contains(targets@[k]));
                }
            }
        }
        i += 1;
    }
    proof {
        let next_level = within(records, upward, origin, lv + 1);
        let this_level = within(records, upward, origin, lv);
        lemma_within_grows(records, upward, origin, lv, lv + 1);
        assert forall|v: u32| #[trigger] next@.contains(v) <==> (next_level.contains(v) && !this_level.contains(v)) by {
            if next_level.contains(v) && !this_level.contains(v) {
                let u = choose|u: u32| this_level.contains(u) && #[trigger] link(records, upward, u, v);
                if lv > 0 && within(records, upward, origin, (lv - 1) as nat).contains(u) {
                    assert(this_level.contains(v));
                }
                assert(frontier@.contains(u));
                let j = choose|j: int| 0 <= j < frontier@.len() && frontier@[j] == u;
                assert(link(records, upward, frontier@[j], v));
            }
        }
    }
    next
}

/// The relatives of `origin` in one direction, found generation by generation.
fn relatives(genealogy: &Genealogy, upward: bool, origin: u32) -> (r: Vec<KinshipGeneration>)
    requires
        genealogy.wf(),
    ensures
        lists_relatives(genealogy.spec_records(), upward, origin, r@),
{
    let ghost records = genealogy.spec_records();
    let ghost uni = universe(records, upward, origin);
    let mut visited: HashSet<u32> = HashSet::new();
    visited.insert(origin);
    let mut frontier: Vec<u32> = Vec::new();
    frontier.push(origin);
    let mut result: Vec<KinshipGeneration> = Vec::new();
    let mut level: u64 = 0;
    proof {
        assert(within(records, upward, origin, 0) =~= set![origin]);
        assert(frontier@[0] == origin);
        assert(uni[2 * records.len() as int] == origin);
        assert(uni.contains(origin));
    }
    while frontier.len() > 0
        invariant
            genealogy.wf(),
            records == genealogy.spec_records(),
            uni == universe(records, upward, origin),
            visited@.finite(),
            forall|v: u32| #[trigger] visited@.contains(v) <==> within(records, upward, origin, level as nat).contains(v),
            forall|v: u32| #[trigger] frontier@.contains(v) <==> at_distance(records, upward, origin, v, level as nat),
            generations_sorted(result@),
            forall|i: int|
                #![trigger result@[i]]
                0 <= i < result@.len() ==> result@[i].entity_id != origin && 1 <= generation_distance(
                    records,
                    upward,
                    origin,
                    result@[i].entity_id,
                ) <= level && at_distance(
                    records,
                    upward,
                    origin,
                    result@[i].entity_id,
                    generation_distance(records, upward, origin, result@[i].entity_id),
                ) && result@[i].generation == capped_generation(
                    generation_distance(records, upward, origin, result@[i].entity_id),
                ),
            forall|v: u32|
                #[trigger] within(records, upward, origin, level as nat).contains(v) && v != origin ==> exists|i: int|
                    0 <= i < result@.len() && result@[i].entity_id == v,
            level + (if frontier@.len() > 0 { 1int } else { 0int }) <= visited@.len(),
            visited@.len() <= uni.len(),
        decreases 2 * (uni.len() - visited@.len()) + (if frontier@.len() > 0 { 1int } else { 0int }),
    {
        let ghost lv = level as nat;
        let visited_count = visited.len();
        let next = expand_level(genealogy, upward, origin, &frontier, &mut visited, Ghost(lv));
        let ghost next_level = within(records, upward, origin, lv + 1);
        let ghost this_level = within(records, upward, origin, lv);
        proof {
            lemma_within_grows(records, upward, origin, lv, lv + 1);
            lemma_within_grows(records, upward, origin, 0, lv);
            assert(within(records, upward, origin, 0).contains(origin));
            next.lemma_increasing();
            assert forall|i: int, m: int|
                #![trigger result@[i], next@[m]]
                0 <= i < result@.len() && 0 <= m < next@.len() implies result@[i].entity_id != next@[m] by {
                let d = generation_distance(records, upward, origin, result@[i].entity_id);
                lemma_within_grows(records, upward, origin, d, lv);
                assert(next@.contains(next@[m]));
            }
        }
        level = level + 1;
        let generation: u16 = if level > 65535 { 65535 } else { level as u16 };
        let mut k: usize = 0;
        let mut fresh: Vec<u32> = Vec::new();
        while k < next.len()
            invariant
                next.wf(),
                level == lv + 1,
                generation == capped_generation(lv + 1),
                0 <= k <= next@.len(),
                fresh@ == next@.subrange(0, k as int),
                crate::idset::strictly_increasing(next@),
                forall|v: u32| #[trigger] next@.contains(v) <==> (next_level.contains(v) && !this_level.contains(v)),
                this_level.subset_of(next_level),
                next_level == within(records, upward, origin, lv + 1),
                this_level == within(records, upward, origin, lv),
                generations_sorted(result@),
                forall|i: int|
                    #![trigger result@[i]]
                    0 <= i < result@.len() ==> result@[i].entity_id != origin && 1 <= generation_distance(
                        records,
                        upward,
                        origin,
                        result@[i].entity_id,
                    ) <= lv + 1 && at_distance(
                        records,
                        upward,
                        origin,
                        result@[i].entity_id,
                        generation_distance(records, upward, origin, result@[i].entity_id),
                    ) && result@[i].generation == capped_generation(
                        generation_distance(records, upward, origin, result@[i].entity_id),
                    ),
                forall|v: u32|
                    #[trigger] this_level.contains(v) && v != origin ==> exists|i: int|
                        0 <= i < result@.len() && result@[i].entity_id == v,
                forall|m: int| 0 <= m < k ==> exists|i: int| 0 <= i < result@.len() && result@[i].entity_id == #[trigger] next@[m],
                forall|i: int, m: int|
                    #![trigger result@[i], next@[m]]
                    0 <= i < result@.len() && k <= m < next@.len() ==> result@[i].entity_id != next@[m],
                this_level.contains(origin),
            decreases next@.len() - k,
        {
            let v = next.get(k);
            fresh.push(v);
            proof {
                assert(next@.contains(v));
                assert(at_distance(records, upward, origin, v, lv + 1));
                assert forall|i: int| 0 <= i < result@.len() implies (#[trigger] result@[i]).entity_id != v by {
                    assert(result@[i].entity_id != next@[k as int]);
                }
            }
            let ghost before = result@;
            insert_relative(&mut result, KinshipGeneration { entity_id: v, generation });
            proof {
                let item = KinshipGeneration { entity_id: v, generation };
                assert(result@.contains(item));
                assert forall|i: int| #![trigger result@[i]] 0 <= i < result@.len() implies result@[i].entity_id != origin
                    && 1 <= generation_distance(records, upward, origin, result@[i].entity_id) <= lv + 1 && at_distance(
                    records,
                    upward,
                    origin,
                    result@[i].entity_id,
                    generation_distance(records, upward, origin, result@[i].entity_id),
                ) && result@[i].generation == capped_generation(
                    generation_distance(records, upward, origin, result@[i].entity_id),
                ) by {
                    assert(result@.contains(result@[i]));
                    if result@[i] != item {
                        let j = choose|j: int| 0 <= j < before.len() && before[j] == result@[i];
                        assert(before[j].entity_id != origin);
                    } else {
                        lemma_distance_unique(records, upward, origin, v, lv + 1);
                    }
                }
                assert forall|w: u32| #[trigger] this_level.contains(w) && w != origin implies exists|i: int|
                    0 <= i < result@.len() && result@[i].entity_id == w by {
                    let j = choose|j: int| 0 <= j < before.len() && before[j].entity_id == w;
                    assert(before.contains(before[j]));
                    assert(result@.contains(before[j]));
                }
                assert forall|m: int| 0 <= m < k + 1 implies exists|i: int| 0 <= i < result@.len() && result@[i].entity_id
                    == #[trigger] next@[m] by {
                    if m < k {
                        let j = choose|j: int| 0 <= j < before.len() && before[j].entity_id == next@[m];
                        assert(before.contains(before[j]));
                        assert(result@.contains(before[j]));
                    } else {
                        let j = choose|j: int| 0 <= j < result@.len() && result@[j] == item;
                    }
                }
                assert forall|i: int, m: int|
                    #![trigger result@[i], next@[m]]
                    0 <= i < result@.len() && k + 1 <= m < next@.len() implies result@[i].entity_id != next@[m] by {
                    assert(result@.contains(result@[i]));
                    if result@[i] != item {
                        let j = choose|j: int| 0 <= j < before.len() && before[j] == result@[i];
                        assert(before[j].entity_id != next@[m]);
                    } else {
                        assert(next@[k as int] < next@[m]);
                    }
                }
            }
            k += 1;
        }
        proof {
            assert(fresh@ =~= next@);
            assert forall|v: u32| #[trigger] visited@.contains(v) <==> next_level.contains(v) by {}
            assert forall|v: u32| #[trigger] next_level.contains(v) && v != origin implies exists|i: int|
                0 <= i < result@.len() && result@[i].entity_id == v by {
                if !this_level.contains(v) {
                    assert(next@.contains(v));
                    let m = choose|m: int| 0 <= m < next@.len() && next@[m] == v;
                    let i = choose|i: int| 0 <= i < result@.len() && result@[i].entity_id == #[trigger] next@[m];
                }
            }
            lemma_within_in_universe(records, upward, origin, lv + 1);
            assert(visited@.subset_of(uni.to_set()));
            lemma_visited_bounded(visited@, uni);
        }
        frontier = fresh;
    }
    proof {
        let lv = level as nat;
        assert(lv >= 1) by {
            if lv == 0 {
                assert(at_distance(records, upward, origin, origin, 0));
                assert(frontier@.contains(origin));
            }
        }
        assert(within(records, upward, origin, lv) =~= within(records, upward, origin, (lv - 1) as nat)) by {
            lemma_within_grows(records, upward, origin, (lv - 1) as nat, lv);
            assert forall|v: u32| within(records, upward, origin, lv).contains(v) implies within(
                records,
                upward,
                origin,
                (lv - 1) as nat,
            ).contains(v) by {
                if !within(records, upward, origin, (lv - 1) as nat).contains(v) {
                    assert(at_distance(records, upward, origin, v, lv));
                    assert(frontier@.contains(v));
                }
            }
        }
        assert forall|v: u32, k: nat| #[trigger] within(records, upward, origin, k).contains(v) && v != origin implies exists|i: int|
            0 <= i < result@.len() && result@[i].entity_id == v by {
            lemma_within_stable(records, upward, origin, lv, k);
            assert(within(records, upward, origin, lv).contains(v));
        }
    }
    result
}

/// The children of `parent_id`, in registration order.
pub fn children_of(genealogy: &Genealogy, parent_id: u32) -> (r: Vec<u32>)
    requires
        genealogy.wf(),
    ensures
        r@ == spec_children(genealogy.spec_records(), parent_id),
{
    let children = genealogy.children_of(parent_id);
    let mut out: Vec<u32> = Vec::new();
    let mut i: usize = 0;
    while i < children.len()
        invariant
            0 <= i <= children@.len(),
            out@ == children@.subrange(0, i as int),
        decreases children@.len() - i,
    {
        out.push(children[i]);
        i += 1;
    }
    assert(out@ =~= children@);
    out
}

/// `candidate` shares the known mother or the known father of an individual whose
/// parents are `mother_id` and `father_id`.
pub open spec fn shares_a_parent(candidate: LineageRecord, mother_id: Option<u32>, father_id: Option<u32>) -> bool {
    (mother_id is Some && candidate.mother_id == mother_id) || (father_id is Some && candidate.father_id == father_id)
}

/// Ids of the records other than `entity_id` that share a known parent with it, in
/// registration order.
pub open spec fn spec_siblings(
    records: Seq<LineageRecord>,
    entity_id: u32,
    mother_id: Option<u32>,
    father_id: Option<u32>,
) -> Seq<u32>
    decreases records.len(),
{
    if records.len() == 0 {
        Seq::empty()
    } else {
        let rest = spec_siblings(records.drop_last(), entity_id, mother_id, father_id);
        let c = records.last();
        if c.entity_id != entity_id && shares_a_parent(c, mother_id, father_id) {
            rest.push(c.entity_id)
        } else {
            rest
        }
    }
}

/// The lineage record of `entity_id`, if one was registered.
pub open spec fn lineage_of(records: Seq<LineageRecord>, entity_id: u32) -> Option<LineageRecord> {
    if exists|i: int| 0 <= i < records.len() && (#[trigger] records[i]).entity_id == entity_id {
        Some(records[choose|i: int| 0 <= i < records.len() && (#[trigger] records[i]).entity_id == entity_id])
    } else {
        None
    }
}

/// With ids increasing, the record that `get` returns is the one `lineage_of` names.
proof fn lemma_lineage_of(records: Seq<LineageRecord>, record: LineageRecord)
    requires
        ids_increasing(records),
        records.contains(record),
    ensures
        lineage_of(records, record.entity_id) == Some(record),
{
    let k = choose|k: int| 0 <= k < records.len() && records[k] == record;
    assert(records[k].entity_id == record.entity_id);
    let i = choose|i: int| 0 <= i < records.len() && (#[trigger] records[i]).entity_id == record.entity_id;
    if i < k {
        assert(records[i].entity_id < records[k].entity_id);
    } else if i > k {
        assert(records[k].entity_id < records[i].entity_id);
    }
}

/// The other individuals that share a known parent with `entity_id`, in registration
/// order; none when `entity_id` has no record.
pub fn siblings_of(genealogy: &Genealogy, entity_id: u32) -> (r: Vec<u32>)
    requires
        genealogy.wf(),
    ensures
        r@ == match lineage_of(genealogy.spec_records(), entity_id) {
            Some(record) => spec_siblings(genealogy.spec_records(), entity_id, record.mother_id, record.father_id),
            None => Seq::empty(),
        },
{
    proof {
        genealogy.lemma_records_increasing();
    }
    let entity = match genealogy.get(entity_id) {
        Some(record) => *record,
        None => {
            return Vec::new();
        },
    };
    proof {
        lemma_lineage_of(genealogy.spec_records(), entity);
    }
    let mother_id = entity.mother_id;
    let father_id = entity.father_id;
    let records = genealogy.records();
    let mut out: Vec<u32> = Vec::new();
    let mut i: usize = 0;
    while i < records.len()
        invariant
            0 <= i <= records@.len(),
            out@ == spec_siblings(records@.subrange(0, i as int), entity_id, mother_id, father_id),
        decreases records@.len() - i,
    {
        let candidate = records[i];
        proof {
            assert(records@.subrange(0, i + 1).drop_last() =~= records@.subrange(0, i as int));
        }
        let shares = match mother_id {
            Some(m) => match candidate.mother_id {
                Some(cm) => cm == m,
                None => false,
            },
            None => false,
        } || match father_id {
            Some(f) => match candidate.father_id {
                Some(cf) => cf == f,
                None => false,
            },
            None => false,
        };
        if candidate.entity_id != entity_id && shares {
            out.push(candidate.entity_id);
        }
        i += 1;
    }
    assert(records@.subrange(0, records@.len() as int) =~= records@);
    out
}

/// Every ancestor of `entity_id` with its generation distance, nearest generation
/// first, then by id.
pub fn ancestors_of(genealogy: &Genealogy, entity_id: u32) -> (r: Vec<KinshipGeneration>)
    requires
        genealogy.wf(),
    ensures
        lists_relatives(genealogy.spec_records(), true, entity_id, r@),
{
    relatives(genealogy, true, entity_id)
}

/// Every descendant of `entity_id` with its generation distance, nearest generation
/// first, then by id.
pub fn descendants_of(genealogy: &Genealogy, entity_id: u32) -> (r: Vec<KinshipGeneration>)
    requires
        genealogy.wf(),
    ensures
        lists_relatives(genealogy.spec_records(), false, entity_id, r@),
{
    relatives(genealogy, false, entity_id)
}

/// The generation of the first listed relative with id `entity_id`.
pub fn generation_of(relatives: &Vec<KinshipGeneration>, entity_id: u32) -> (r: Option<u16>)
    ensures
        r matches Some(g) ==> exists|i: int|
            0 <= i < relatives@.len() && relatives@[i].entity_id == entity_id && relatives@[i].generation == g
                && forall|j: int| 0 <= j < i ==> (#[trigger] relatives@[j]).entity_id != entity_id,
        r is None <==> forall|i: int| 0 <= i < relatives@.len() ==> (#[trigger] relatives@[i]).entity_id != entity_id,
{
    let mut i: usize = 0;
    while i < relatives.len()
        invariant
            0 <= i <= relatives@.len(),
            forall|j: int| 0 <= j < i ==> (#[trigger] relatives@[j]).entity_id != entity_id,
        decreases relatives@.len() - i,
    {
        if relatives[i].entity_id == entity_id {
            return Some(relatives[i].generation);
        }
        i += 1;
    }
    None
}

/// A listed relative is exactly a reachable individual.
pub proof fn lemma_listed_public(records: Seq<LineageRecord>, upward: bool, origin: u32, s: Seq<KinshipGeneration>, v: u32)
    requires
        lists_relatives(records, upward, origin, s),
        v != origin,
    ensures
        (exists|i: int| 0 <= i < s.len() && s[i].entity_id == v) <==> reachable(records, upward, origin, v),
{
    lemma_listed(records, upward, origin, s, v);
}

/// `v` can be reached from `origin` in some number of steps.
pub open spec fn reachable(records: Seq<LineageRecord>, upward: bool, origin: u32, v: u32) -> bool {
    exists|k: nat| #[trigger] within(records, upward, origin, k).contains(v)
}

proof fn lemma_listed(records: Seq<LineageRecord>, upward: bool, origin: u32, s: Seq<KinshipGeneration>, v: u32)
    requires
        lists_relatives(records, upward, origin, s),
        v != origin,
    ensures
        (exists|i: int| 0 <= i < s.len() && s[i].entity_id == v) <==> reachable(records, upward, origin, v),
        forall|i: int|
            0 <= i < s.len() && #[trigger] s[i].entity_id == v ==> s[i].generation == capped_generation(
                generation_distance(records, upward, origin, v),
            ),
{
    if exists|i: int| 0 <= i < s.len() && s[i].entity_id == v {
        let i = choose|i: int| 0 <= i < s.len() && s[i].entity_id == v;
        assert(at_distance(records, upward, origin, v, generation_distance(records, upward, origin, v)));
        assert(within(records, upward, origin, generation_distance(records, upward, origin, v)).contains(v));
    }
    if reachable(records, upward, origin, v) {
        let k = choose|k: nat| #[trigger] within(records, upward, origin, k).contains(v);
        assert(within(records, upward, origin, k).contains(v) && v != origin);
    }
}

#[derive(Clone, Copy, Debug, PartialEq, Eq, Structural)]
pub enum KinshipRelation {
    SamePerson,
    Parent,
    Child,
    FullSibling,
    HalfSibling,
    Ancestor { generations: u16 },
    Descendant { generations: u16 },
    AuntUncle { generations_removed: u16 },
    NieceNephew { generations_removed: u16 },
    Cousin { degree: u16, removed: u16 },
    Unrelated,
}

pub open spec fn sat_add_u16(a: u16, b: u16) -> u16 {
    if a + b > u16::MAX { u16::MAX } else { (a + b) as u16 }
}

pub open spec fn sat_sub_u16(a: u16, b: u16) -> u16 {
    if a >= b { (a - b) as u16 } else { 0 }
}

pub open spec fn max_u16(a: u16, b: u16) -> u16 {
    if a >= b { a } else { b }
}

pub open spec fn min_u16(a: u16, b: u16) -> u16 {
    if a <= b { a } else { b }
}

/// Generations from `entity_id` up to its ancestor `ancestor_id`, capped to `u16`.
pub open spec fn up_generations(records: Seq<LineageRecord>, entity_id: u32, ancestor_id: u32) -> u16 {
    capped_generation(generation_distance(records, true, entity_id, ancestor_id))
}

/// `c` is an ancestor of both `a` and `b`, and neither of them.
pub open spec fn common_ancestor(records: Seq<LineageRecord>, a: u32, b: u32, c: u32) -> bool {
    &&& c != a
    &&& c != b
    &&& reachable(records, true, a, c)
    &&& reachable(records, true, b, c)
}

/// The ranking of a common ancestor: combined generations (saturating), then the larger
/// of the two, then its id.
pub open spec fn common_key(records: Seq<LineageRecord>, a: u32, b: u32, c: u32) -> (u16, u16, u32) {
    let g1 = up_generations(records, a, c);
    let g2 = up_generations(records, b, c);
    (sat_add_u16(g1, g2), max_u16(g1, g2), c)
}

pub open spec fn key_le(x: (u16, u16, u32), y: (u16, u16, u32)) -> bool {
    x.0 < y.0 || (x.0 == y.0 && (x.1 < y.1 || (x.1 == y.1 && x.2 <= y.2)))
}

/// `c` is the common ancestor of `a` and `b` that ranks first.
pub open spec fn nearest_common_ancestor(records: Seq<LineageRecord>, a: u32, b: u32, c: u32) -> bool {
    &&& common_ancestor(records, a, b, c)
    &&& forall|d: u32| #[trigger] common_ancestor(records, a, b, d) ==> key_le(
        common_key(records, a, b, c),
        common_key(records, a, b, d),
    )
}

/// The collateral relation given the generations from each side to the nearest common
/// ancestor.
pub open spec fn collateral_relation(g1: u16, g2: u16) -> KinshipRelation {
    if g1 == 1 {
        KinshipRelation::AuntUncle { generations_removed: sat_sub_u16(g2, 2) }
    } else if g2 == 1 {
        KinshipRelation::NieceNephew { generations_removed: sat_sub_u16(g1, 2) }
    } else {
        KinshipRelation::Cousin {
            degree: sat_sub_u16(min_u16(g1, g2), 1),
            removed: (if g1 >= g2 { g1 - g2 } else { g2 - g1 }) as u16,
        }
    }
}

/// How `first` relates to `second`: the same person; `first` an ancestor of `second`
/// (a parent at one generation); `first` a descendant of `second` (a child at one
/// generation); full or half siblings by shared known parents; a collateral relation
/// through their nearest common ancestor; or unrelated.
pub open spec fn spec_relationship(records: Seq<LineageRecord>, first: u32, second: u32) -> KinshipRelation {
    if first == second {
        KinshipRelation::SamePerson
    } else if reachable(records, false, first, second) {
        let g = capped_generation(generation_distance(records, false, first, second));
        if g == 1 {
            KinshipRelation::Parent
        } else {
            KinshipRelation::Ancestor { generations: g }
        }
    } else if reachable(records, true, first, second) {
        let g = capped_generation(generation_distance(records, true, first, second));
        if g == 1 {
            KinshipRelation::Child
        } else {
            KinshipRelation::Descendant { generations: g }
        }
    } else if lineage_of(records, first) is Some && lineage_of(records, second) is Some && ({
        let f = lineage_of(records, first).unwrap();
        let s = lineage_of(records, second).unwrap();
        (f.mother_id is Some && f.mother_id == s.mother_id) || (f.father_id is Some && f.father_id == s.father_id)
    }) {
        let f = lineage_of(records, first).unwrap();
        let s = lineage_of(records, second).unwrap();
        if (f.mother_id is Some && f.mother_id == s.mother_id) && (f.father_id is Some && f.father_id == s.father_id) {
            KinshipRelation::FullSibling
        } else {
            KinshipRelation::HalfSibling
        }
    } else if exists|c: u32| common_ancestor(records, first, second, c) {
        let c = choose|c: u32| nearest_common_ancestor(records, first, second, c);
        collateral_relation(up_generations(records, first, c), up_generations(records, second, c))
    } else {
        KinshipRelation::Unrelated
    }
}

/// Both individuals are recorded and their records name the same mother.
pub open spec fn common_mother(records: Seq<LineageRecord>, first: u32, second: u32) -> bool {
    match (lineage_of(records, first), lineage_of(records, second)) {
        (Some(f), Some(s)) => f.mother_id is Some && f.mother_id == s.mother_id,
        _ => false,
    }
}

/// Both individuals are recorded and their records name the same father.
pub open spec fn common_father(records: Seq<LineageRecord>, first: u32, second: u32) -> bool {
    match (lineage_of(records, first), lineage_of(records, second)) {
        (Some(f), Some(s)) => f.father_id is Some && f.father_id == s.father_id,
        _ => false,
    }
}

/// Full siblings share a known mother and a known father; half siblings share exactly
/// one known parent; and two different individuals, neither descended from the other,
/// who share a known parent are full siblings when they share both and half siblings
/// otherwise.
pub proof fn lemma_siblings_by_shared_parents(records: Seq<LineageRecord>, first: u32, second: u32)
    ensures
        spec_relationship(records, first, second) == KinshipRelation::FullSibling ==> common_mother(
            records,
            first,
            second,
        ) && common_father(records, first, second),
        spec_relationship(records, first, second) == KinshipRelation::HalfSibling ==> common_mother(
            records,
            first,
            second,
        ) != common_father(records, first, second),
        first != second && !reachable(records, false, first, second) && !reachable(records, true, first, second)
            && (common_mother(records, first, second) || common_father(records, first, second))
            ==> spec_relationship(records, first, second) == if common_mother(records, first, second)
            && common_father(records, first, second) {
            KinshipRelation::FullSibling
        } else {
            KinshipRelation::HalfSibling
        },
{
    if first != second && !reachable(records, false, first, second) && !reachable(records, true, first, second) {
        if !(common_mother(records, first, second) || common_father(records, first, second)) {
            if exists|c: u32| common_ancestor(records, first, second, c) {
                let c = choose|c: u32| nearest_common_ancestor(records, first, second, c);
                let g1 = up_generations(records, first, c);
                let g2 = up_generations(records, second, c);
                assert(collateral_relation(g1, g2) != KinshipRelation::FullSibling);
                assert(collateral_relation(g1, g2) != KinshipRelation::HalfSibling);
            }
        }
    }
}

/// `c` is named as a parent of a parent of `child`.
pub open spec fn grandparent_of(records: Seq<LineageRecord>, child: u32, c: u32) -> bool {
    exists|p: u32| #[trigger] parent_of(records, child, p) && parent_of(records, p, c)
}

/// `c` is a parent or a grandparent of `x` by the records.
pub open spec fn close_ancestor(records: Seq<LineageRecord>, x: u32, c: u32) -> bool {
    parent_of(records, x, c) || grandparent_of(records, x, c)
}

/// A parent or grandparent lies within two generations up.
proof fn lemma_close_ancestor_within(records: Seq<LineageRecord>, x: u32, c: u32)
    requires
        close_ancestor(records, x, c),
    ensures
        within(records, true, x, 2).contains(c),
        reachable(records, true, x, c),
        c != x ==> 1 <= generation_distance(records, true, x, c) <= 2,
{
    assert(within(records, true, x, 0).contains(x));
    if parent_of(records, x, c) {
        assert(link(records, true, x, c));
        assert(within(records, true, x, 1).contains(c));
        lemma_within_grows(records, true, x, 1, 2);
    } else {
        let p = choose|p: u32| #[trigger] parent_of(records, x, p) && parent_of(records, p, c);
        assert(link(records, true, x, p));
        assert(within(records, true, x, 1).contains(p));
        assert(link(records, true, p, c));
        assert(within(records, true, x, 2).contains(c));
    }
    lemma_least_distance(records, true, x, c, 2);
}

/// Two different individuals who have a parent or grandparent in common are close kin:
/// related somehow, and if as cousins then as first cousins.
pub proof fn lemma_shared_grandparent_is_close_kin(records: Seq<LineageRecord>, first: u32, second: u32, c: u32)
    requires
        first != second,
        close_ancestor(records, first, c),
        close_ancestor(records, second, c),
    ensures
        spec_relationship(records, first, second) != KinshipRelation::Unrelated,
        spec_relationship(records, first, second) matches KinshipRelation::Cousin { degree, .. } ==> degree == 1,
{
    lemma_close_ancestor_within(records, first, c);
    lemma_close_ancestor_within(records, second, c);
    if !reachable(records, false, first, second) && !reachable(records, true, first, second) {
        lemma_reach_dual(records, true, second, first);
        lemma_reach_dual(records, true, first, second);
        assert(c != first);
        assert(c != second);
        assert(common_ancestor(records, first, second, c));
        lemma_nearest_exists(records, first, second, c);
        let n = choose|n: u32| nearest_common_ancestor(records, first, second, n);
        assert(nearest_common_ancestor(records, first, second, n));
        assert(key_le(common_key(records, first, second, n), common_key(records, first, second, c)));
        let k1 = choose|k: nat| #[trigger] within(records, true, first, k).contains(n);
        lemma_least_distance(records, true, first, n, k1);
        let k2 = choose|k: nat| #[trigger] within(records, true, second, k).contains(n);
        lemma_least_distance(records, true, second, n, k2);
        if generation_distance(records, true, first, n) == 0 {
            assert(within(records, true, first, 0).contains(n));
        }
        if generation_distance(records, true, second, n) == 0 {
            assert(within(records, true, second, 0).contains(n));
        }
    }
}

/// `first` is a parent of `second` exactly when the records name `first` as a parent
/// of `second` (and they differ); `first` is a child of `second` exactly when the
/// records name `second` as a parent of `first` and `first` is not also an ancestor of
/// `second`.
pub proof fn lemma_parent_and_child_by_records(records: Seq<LineageRecord>, first: u32, second: u32)
    ensures
        spec_relationship(records, first, second) == KinshipRelation::Parent <==> first != second && parent_of(
            records,
            second,
            first,
        ),
        spec_relationship(records, first, second) == KinshipRelation::Child ==> parent_of(records, first, second),
        first != second && parent_of(records, first, second) && !reachable(records, false, first, second)
            ==> spec_relationship(records, first, second) == KinshipRelation::Child,
{
    assert(within(records, false, first, 0).contains(first));
    assert(within(records, true, first, 0).contains(first));
    if first != second && parent_of(records, second, first) {
        assert(link(records, false, first, second));
        assert(within(records, false, first, 1).contains(second));
        assert(at_distance(records, false, first, second, 1));
        lemma_distance_unique(records, false, first, second, 1);
    }
    if first != second && parent_of(records, first, second) {
        assert(link(records, true, first, second));
        assert(within(records, true, first, 1).contains(second));
        assert(at_distance(records, true, first, second, 1));
        lemma_distance_unique(records, true, first, second, 1);
    }
    if spec_relationship(records, first, second) == KinshipRelation::Parent {
        let k = choose|k: nat| #[trigger] within(records, false, first, k).contains(second);
        lemma_least_distance(records, false, first, second, k);
        let d = generation_distance(records, false, first, second);
        assert(d == 1);
        let u = choose|u: u32| within(records, false, first, 0).contains(u) && #[trigger] link(records, false, u, second);
        assert(u == first);
    }
    if spec_relationship(records, first, second) == KinshipRelation::Child {
        let k = choose|k: nat| #[trigger] within(records, true, first, k).contains(second);
        lemma_least_distance(records, true, first, second, k);
        let d = generation_distance(records, true, first, second);
        assert(d == 1);
        let u = choose|u: u32| within(records, true, first, 0).contains(u) && #[trigger] link(records, true, u, second);
        assert(u == first);
    }
}

fn sat_add_u16_exec(a: u16, b: u16) -> (r: u16)
    ensures
        r == sat_add_u16(a, b),
{
    if a as u32 + b as u32 > u16::MAX as u32 { u16::MAX } else { a + b }
}

fn key_le_exec(x: (u16, u16, u32), y: (u16, u16, u32)) -> (r: bool)
    ensures
        r == key_le(x, y),
{
    x.0 < y.0 || (x.0 == y.0 && (x.1 < y.1 || (x.1 == y.1 && x.2 <= y.2)))
}

/// The nearest common ancestor from the two ancestor lists, with its generation on each
/// side.
fn nearest_common(
    genealogy: &Genealogy,
    first_id: u32,
    second_id: u32,
    first_ancestors: &Vec<KinshipGeneration>,
    second_ancestors: &Vec<KinshipGeneration>,
) -> (r: Option<(u32, u16, u16)>)
    requires
        genealogy.wf(),
        first_id != second_id,
        !reachable(genealogy.spec_records(), true, first_id, second_id),
        !reachable(genealogy.spec_records(), false, first_id, second_id),
        lists_relatives(genealogy.spec_records(), true, first_id, first_ancestors@),
        lists_relatives(genealogy.spec_records(), true, second_id, second_ancestors@),
    ensures
        r matches Some(found) ==> nearest_common_ancestor(genealogy.spec_records(), first_id, second_id, found.0)
            && found.1 == up_generations(genealogy.spec_records(), first_id, found.0) && found.2 == up_generations(
            genealogy.spec_records(),
            second_id,
            found.0,
        ),
        r is None <==> !exists|c: u32| common_ancestor(genealogy.spec_records(), first_id, second_id, c),
{
    let ghost records = genealogy.spec_records();
    let mut best: Option<(u32, u16, u16)> = None;
    let mut i: usize = 0;
    while i < first_ancestors.len()
        invariant
            records == genealogy.spec_records(),
            first_id != second_id,
            !reachable(records, true, first_id, second_id),
            !reachable(records, false, first_id, second_id),
            lists_relatives(records, true, first_id, first_ancestors@),
            lists_relatives(records, true, second_id, second_ancestors@),
            0 <= i <= first_ancestors@.len(),
            best matches Some(found) ==> common_ancestor(records, first_id, second_id, found.0) && found.1
                == up_generations(records, first_id, found.0) && found.2 == up_generations(records, second_id, found.0),
            best is None ==> forall|j: int|
                0 <= j < i ==> !common_ancestor(records, first_id, second_id, #[trigger] first_ancestors@[j].entity_id),
            best matches Some(found) ==> forall|j: int|
                0 <= j < i && common_ancestor(records, first_id, second_id, #[trigger] first_ancestors@[j].entity_id)
                    ==> key_le(
                    common_key(records, first_id, second_id, found.0),
                    common_key(records, first_id, second_id, first_ancestors@[j].entity_id),
                ),
        decreases first_ancestors@.len() - i,
    {
        let first = first_ancestors[i];
        proof {
            assert(first_ancestors@[i as int] == first);
            lemma_listed(records, true, first_id, first_ancestors@, first.entity_id);
        }
        let matched = generation_of(second_ancestors, first.entity_id);
        proof {
            if first.entity_id != second_id {
                lemma_listed(records, true, second_id, second_ancestors@, first.entity_id);
            }
            if first.entity_id == second_id {
                assert(at_distance(records, true, first_id, second_id, generation_distance(records, true, first_id, second_id)));
                assert(within(records, true, first_id, generation_distance(records, true, first_id, second_id)).contains(second_id));
            }
        }
        match matched {
            Some(second_generation) => {
                let candidate_key = (
                    sat_add_u16_exec(first.generation, second_generation),
                    if first.generation >= second_generation { first.generation } else { second_generation },
                    first.entity_id,
                );
                proof {
                    assert(common_ancestor(records, first_id, second_id, first.entity_id));
                    assert(candidate_key == common_key(records, first_id, second_id, first.entity_id));
                }
                let replace = match best {
                    None => true,
                    Some(found) => {
                        let best_key = (
                            sat_add_u16_exec(found.1, found.2),
                            if found.1 >= found.2 { found.1 } else { found.2 },
                            found.0,
                        );
                        !key_le_exec(best_key, candidate_key)
                    },
                };
                if replace {
                    best = Some((first.entity_id, first.generation, second_generation));
                }
            },
            None => {
                proof {
                    if common_ancestor(records, first_id, second_id, first.entity_id) {
                        assert(reachable(records, true, second_id, first.entity_id));
                    }
                }
            },
        }
        i += 1;
    }
    proof {
        assert forall|d: u32| #[trigger] common_ancestor(records, first_id, second_id, d) implies exists|j: int|
            0 <= j < first_ancestors@.len() && first_ancestors@[j].entity_id == d by {
            lemma_listed(records, true, first_id, first_ancestors@, d);
        }
        match best {
            Some(found) => {
                assert forall|d: u32| #[trigger] common_ancestor(records, first_id, second_id, d) implies key_le(
                    common_key(records, first_id, second_id, found.0),
                    common_key(records, first_id, second_id, d),
                ) by {
                    let j = choose|j: int| 0 <= j < first_ancestors@.len() && first_ancestors@[j].entity_id == d;
                    assert(common_ancestor(records, first_id, second_id, first_ancestors@[j].entity_id));
                }
            },
            None => {
                assert forall|d: u32| !common_ancestor(records, first_id, second_id, d) by {
                    if common_ancestor(records, first_id, second_id, d) {
                        let j = choose|j: int| 0 <= j < first_ancestors@.len() && first_ancestors@[j].entity_id == d;
                        assert(!common_ancestor(records, first_id, second_id, first_ancestors@[j].entity_id));
                    }
                }
            },
        }
    }
    best
}

/// The nearest common ancestor is unique.
proof fn lemma_nearest_unique(records: Seq<LineageRecord>, a: u32, b: u32, c: u32, d: u32)
    requires
        nearest_common_ancestor(records, a, b, c),
        nearest_common_ancestor(records, a, b, d),
    ensures
        c == d,
{
    assert(key_le(common_key(records, a, b, c), common_key(records, a, b, d)));
    assert(key_le(common_key(records, a, b, d), common_key(records, a, b, c)));
}

/// How `first_id` relates to `second_id` by recorded parentage.
pub fn relationship_between(genealogy: &Genealogy, first_id: u32, second_id: u32) -> (r: KinshipRelation)
    requires
        genealogy.wf(),
    ensures
        r == spec_relationship(genealogy.spec_records(), first_id, second_id),
{
    let ghost records = genealogy.spec_records();
    if first_id == second_id {
        return KinshipRelation::SamePerson;
    }
    let descendants = descendants_of(genealogy, first_id);
    proof {
        lemma_listed(records, false, first_id, descendants@, second_id);
    }
    match generation_of(&descendants, second_id) {
        Some(generations) => {
            return if generations == 1 {
                KinshipRelation::Parent
            } else {
                KinshipRelation::Ancestor { generations }
            };
        },
        None => {},
    }
    let first_ancestors = ancestors_of(genealogy, first_id);
    proof {
        lemma_listed(records, true, first_id, first_ancestors@, second_id);
    }
    match generation_of(&first_ancestors, second_id) {
        Some(generations) => {
            return if generations == 1 {
                KinshipRelation::Child
            } else {
                KinshipRelation::Descendant { generations }
            };
        },
        None => {},
    }
    proof {
        genealogy.lemma_records_increasing();
    }
    match (genealogy.get(first_id), genealogy.get(second_id)) {
        (Some(first), Some(second)) => {
            proof {
                lemma_lineage_of(records, *first);
                lemma_lineage_of(records, *second);
            }
            let same_mother = match first.mother_id {
                Some(m) => match second.mother_id {
                    Some(sm) => m == sm,
                    None => false,
                },
                None => false,
            };
            let same_father = match first.father_id {
                Some(f) => match second.father_id {
                    Some(sf) => f == sf,
                    None => false,
                },
                None => false,
            };
            if same_mother && same_father {
                return KinshipRelation::FullSibling;
            }
            if same_mother || same_father {
                return KinshipRelation::HalfSibling;
            }
        },
        (None, _) => {
            assert(lineage_of(records, first_id) is None);
        },
        (_, None) => {
            assert(lineage_of(records, second_id) is None);
        },
    }
    let second_ancestors = ancestors_of(genealogy, second_id);
    match nearest_common(genealogy, first_id, second_id, &first_ancestors, &second_ancestors) {
        None => KinshipRelation::Unrelated,
        Some((common_id, first_distance, second_distance)) => {
            proof {
                let c = choose|c: u32| nearest_common_ancestor(records, first_id, second_id, c);
                lemma_nearest_unique(records, first_id, second_id, c, common_id);
            }
            if first_distance == 1 {
                KinshipRelation::AuntUncle {
                    generations_removed: if second_distance >= 2 { second_distance - 2 } else { 0 },
                }
            } else if second_distance == 1 {
                KinshipRelation::NieceNephew {
                    generations_removed: if first_distance >= 2 { first_distance - 2 } else { 0 },
                }
            } else {
                let nearer = if first_distance <= second_distance { first_distance } else { second_distance };
                KinshipRelation::Cousin {
                    degree: if nearer >= 1 { nearer - 1 } else { 0 },
                    removed: if first_distance >= second_distance {
                        first_distance - second_distance
                    } else {
                        second_distance - first_distance
                    },
                }
            }
        },
    }
}


/// One step from `x` to `w`, then `k` more steps from `w`, reach at most `k + 1` steps
/// from `x`.
proof fn lemma_prepend_step(records: Seq<LineageRecord>, upward: bool, x: u32, w: u32, v: u32, k: nat)
    requires
        link(records, upward, x, w),
        within(records, upward, w, k).contains(v),
    ensures
        within(records, upward, x, k + 1).contains(v),
    decreases k,
{
    if k == 0 {
        assert(v == w);
        assert(within(records, upward, x, 0).contains(x));
        assert(within(records, upward, x, 1) == within(records, upward, x, 0).union(
            Set::new(|t: u32| exists|u: u32| within(records, upward, x, 0).contains(u) && #[trigger] link(records, upward, u, t)),
        ));
    } else {
        let previous = within(records, upward, w, (k - 1) as nat);
        if previous.contains(v) {
            lemma_prepend_step(records, upward, x, w, v, (k - 1) as nat);
            lemma_within_grows(records, upward, x, k, k + 1);
        } else {
            let u = choose|u: u32| previous.contains(u) && #[trigger] link(records, upward, u, v);
            lemma_prepend_step(records, upward, x, w, u, (k - 1) as nat);
            assert(within(records, upward, x, k).contains(u) && link(records, upward, u, v));
        }
    }
}

/// A step upward from `u` to `v` is a step downward from `v` to `u`.
proof fn lemma_link_dual(records: Seq<LineageRecord>, upward: bool, u: u32, v: u32)
    ensures
        link(records, upward, u, v) == link(records, !upward, v, u),
{
}

/// Whoever `a` reaches within `k` steps in one direction reaches `a` within `k` steps in
/// the other.
proof fn lemma_within_dual(records: Seq<LineageRecord>, upward: bool, a: u32, b: u32, k: nat)
    requires
        within(records, upward, a, k).contains(b),
    ensures
        within(records, !upward, b, k).contains(a),
    decreases k,
{
    if k == 0 {
        assert(b == a);
    } else {
        let previous = within(records, upward, a, (k - 1) as nat);
        if previous.contains(b) {
            lemma_within_dual(records, upward, a, b, (k - 1) as nat);
            lemma_within_grows(records, !upward, b, (k - 1) as nat, k);
        } else {
            let u = choose|u: u32| previous.contains(u) && #[trigger] link(records, upward, u, b);
            lemma_within_dual(records, upward, a, u, (k - 1) as nat);
            lemma_link_dual(records, upward, u, b);
            lemma_prepend_step(records, !upward, b, u, a, (k - 1) as nat);
        }
    }
}

/// Someone reached in `k` steps is reached in a least number of steps.
proof fn lemma_least_distance(records: Seq<LineageRecord>, upward: bool, a: u32, v: u32, k: nat)
    requires
        within(records, upward, a, k).contains(v),
    ensures
        at_distance(records, upward, a, v, generation_distance(records, upward, a, v)),
        generation_distance(records, upward, a, v) <= k,
    decreases k,
{
    if k > 0 && within(records, upward, a, (k - 1) as nat).contains(v) {
        lemma_least_distance(records, upward, a, v, (k - 1) as nat);
    } else {
        assert(at_distance(records, upward, a, v, k));
        lemma_distance_unique(records, upward, a, v, k);
    }
}

/// Reaching `b` from `a` one way is reaching `a` from `b` the other way, over the same
/// number of generations.
proof fn lemma_reach_dual(records: Seq<LineageRecord>, upward: bool, a: u32, b: u32)
    ensures
        reachable(records, upward, a, b) == reachable(records, !upward, b, a),
        reachable(records, upward, a, b) ==> generation_distance(records, upward, a, b) == generation_distance(
            records,
            !upward,
            b,
            a,
        ),
{
    if reachable(records, upward, a, b) {
        let k = choose|k: nat| #[trigger] within(records, upward, a, k).contains(b);
        lemma_least_distance(records, upward, a, b, k);
        let d = generation_distance(records, upward, a, b);
        lemma_within_dual(records, upward, a, b, d);
        if d > 0 && within(records, !upward, b, (d - 1) as nat).contains(a) {
            lemma_within_dual(records, !upward, b, a, (d - 1) as nat);
            assert(!upward == false || !upward == true);
            assert(!!upward == upward);
        }
        assert(at_distance(records, !upward, b, a, d));
        lemma_distance_unique(records, !upward, b, a, d);
    }
    let other = !upward;
    if reachable(records, other, b, a) {
        let k = choose|k: nat| #[trigger] within(records, other, b, k).contains(a);
        lemma_within_dual(records, other, b, a, k);
        assert(!!upward == upward);
        assert(within(records, upward, a, k).contains(b));
    }
}

/// Every parent carries a smaller id than its child.
pub open spec fn parents_precede(records: Seq<LineageRecord>) -> bool {
    forall|i: int|
        0 <= i < records.len() ==> (#[trigger] records[i]).mother_id.unwrap_or(0) < records[i].entity_id
            && records[i].father_id.unwrap_or(0) < records[i].entity_id
}

/// Nobody is named as a mother in one record and as a father in another.
pub open spec fn parent_roles_consistent(records: Seq<LineageRecord>) -> bool {
    forall|i: int, j: int|
        0 <= i < records.len() && 0 <= j < records.len() && (#[trigger] records[i]).mother_id is Some
            ==> records[i].mother_id != (#[trigger] records[j]).father_id
}

/// With parents before children, going up only meets smaller ids and going down only
/// larger ones.
proof fn lemma_within_ordered(records: Seq<LineageRecord>, upward: bool, a: u32, k: nat, v: u32)
    requires
        parents_precede(records),
        within(records, upward, a, k).contains(v),
    ensures
        upward ==> v <= a,
        !upward ==> v >= a,
    decreases k,
{
    if k > 0 {
        let previous = within(records, upward, a, (k - 1) as nat);
        if previous.contains(v) {
            lemma_within_ordered(records, upward, a, (k - 1) as nat, v);
        } else {
            let u = choose|u: u32| previous.contains(u) && #[trigger] link(records, upward, u, v);
            lemma_within_ordered(records, upward, a, (k - 1) as nat, u);
            if upward {
                let i = choose|i: int| 0 <= i < records.len() && (#[trigger] records[i]).entity_id == u && has_parent(records[i], v);
                assert(records[i].mother_id.unwrap_or(0) < records[i].entity_id);
            } else {
                let i = choose|i: int| 0 <= i < records.len() && (#[trigger] records[i]).entity_id == v && has_parent(records[i], u);
                assert(records[i].mother_id.unwrap_or(0) < records[i].entity_id);
            }
        }
    }
}

/// With parents before children, nobody is both an ancestor and a descendant of
/// someone else.
proof fn lemma_no_cycle(records: Seq<LineageRecord>, a: u32, b: u32)
    requires
        parents_precede(records),
        a != b,
    ensures
        !(reachable(records, true, a, b) && reachable(records, false, a, b)),
{
    if reachable(records, true, a, b) && reachable(records, false, a, b) {
        let j = choose|k: nat| #[trigger] within(records, true, a, k).contains(b);
        let k = choose|k: nat| #[trigger] within(records, false, a, k).contains(b);
        lemma_within_ordered(records, true, a, j, b);
        lemma_within_ordered(records, false, a, k, b);
    }
}

/// A ranking key as one number, ordered as `key_le` orders keys.
pub open spec fn key_rank(key: (u16, u16, u32)) -> int {
    key.0 * 0x1_0000_0000_0000 + key.1 * 0x1_0000_0000 + key.2
}

/// Whenever two individuals have a common ancestor, they have a nearest one.
proof fn lemma_nearest_exists(records: Seq<LineageRecord>, a: u32, b: u32, w: u32)
    requires
        common_ancestor(records, a, b, w),
    ensures
        exists|c: u32| nearest_common_ancestor(records, a, b, c),
    decreases key_rank(common_key(records, a, b, w)),
{
    if forall|d: u32| #[trigger] common_ancestor(records, a, b, d) ==> key_le(
        common_key(records, a, b, w),
        common_key(records, a, b, d),
    ) {
        assert(nearest_common_ancestor(records, a, b, w));
    } else {
        let d = choose|d: u32|
            #[trigger] common_ancestor(records, a, b, d) && !key_le(common_key(records, a, b, w), common_key(records, a, b, d));
        let x = common_key(records, a, b, w);
        let y = common_key(records, a, b, d);
        assert(key_rank(y) < key_rank(x)) by {
            if y.0 < x.0 {
                assert(y.1 * 0x1_0000_0000 + y.2 < 0x1_0000_0000_0000);
                assert(y.0 * 0x1_0000_0000_0000 + 0x1_0000_0000_0000 <= x.0 * 0x1_0000_0000_0000);
            } else if y.1 < x.1 {
                assert(y.1 * 0x1_0000_0000 + 0x1_0000_0000 <= x.1 * 0x1_0000_0000);
            }
        }
        lemma_nearest_exists(records, a, b, d);
    }
}

/// Generations from each side are swapped when the two individuals are.
proof fn lemma_nearest_symmetric(records: Seq<LineageRecord>, a: u32, b: u32, c: u32)
    ensures
        nearest_common_ancestor(records, a, b, c) == nearest_common_ancestor(records, b, a, c),
{
    assert forall|d: u32| #[trigger] common_key(records, a, b, d) == common_key(records, b, a, d) by {
    }
    if nearest_common_ancestor(records, a, b, c) {
        assert forall|d: u32| #[trigger] common_ancestor(records, b, a, d) implies key_le(
            common_key(records, b, a, c),
            common_key(records, b, a, d),
        ) by {
            assert(common_ancestor(records, a, b, d));
            assert(common_key(records, a, b, c) == common_key(records, b, a, c));
            assert(common_key(records, a, b, d) == common_key(records, b, a, d));
        }
    }
    if nearest_common_ancestor(records, b, a, c) {
        assert forall|d: u32| #[trigger] common_ancestor(records, a, b, d) implies key_le(
            common_key(records, a, b, c),
            common_key(records, a, b, d),
        ) by {
            assert(common_ancestor(records, b, a, d));
            assert(common_key(records, a, b, c) == common_key(records, b, a, c));
            assert(common_key(records, a, b, d) == common_key(records, b, a, d));
        }
    }
}

/// The relation seen from the other side: parent and child, ancestor and descendant,
/// aunt or uncle and niece or nephew trade places; every other relation reads the same
/// both ways.
pub open spec fn mirrored(relation: KinshipRelation) -> KinshipRelation {
    match relation {
        KinshipRelation::Parent => KinshipRelation::Child,
        KinshipRelation::Child => KinshipRelation::Parent,
        KinshipRelation::Ancestor { generations } => KinshipRelation::Descendant { generations },
        KinshipRelation::Descendant { generations } => KinshipRelation::Ancestor { generations },
        KinshipRelation::AuntUncle { generations_removed } => KinshipRelation::NieceNephew { generations_removed },
        KinshipRelation::NieceNephew { generations_removed } => KinshipRelation::AuntUncle { generations_removed },
        other => other,
    }
}

/// Exactly one generation up is a recorded parent.
proof fn lemma_one_generation_up(records: Seq<LineageRecord>, a: u32, c: u32)
    requires
        ids_increasing(records),
        reachable(records, true, a, c),
        up_generations(records, a, c) == 1,
    ensures
        lineage_of(records, a) is Some,
        has_parent(lineage_of(records, a).unwrap(), c),
{
    let k = choose|k: nat| #[trigger] within(records, true, a, k).contains(c);
    lemma_least_distance(records, true, a, c, k);
    let d = generation_distance(records, true, a, c);
    assert(d == 1);
    assert(!within(records, true, a, 0).contains(c));
    let u = choose|u: u32| within(records, true, a, 0).contains(u) && #[trigger] link(records, true, u, c);
    assert(u == a);
    let i = choose|i: int| 0 <= i < records.len() && (#[trigger] records[i]).entity_id == a && has_parent(records[i], c);
    assert(records.contains(records[i]));
    lemma_lineage_of(records, records[i]);
}

/// How one individual relates to another mirrors how the other relates to the first,
/// when parents come before their children and nobody is both a mother and a father.
pub proof fn lemma_relationship_mirrored(records: Seq<LineageRecord>, first: u32, second: u32)
    requires
        ids_increasing(records),
        parents_precede(records),
        parent_roles_consistent(records),
    ensures
        spec_relationship(records, second, first) == mirrored(spec_relationship(records, first, second)),
{
    if first != second {
        lemma_reach_dual(records, false, first, second);
        lemma_reach_dual(records, true, first, second);
        lemma_no_cycle(records, first, second);
        if !reachable(records, false, first, second) && !reachable(records, true, first, second) {
            assert forall|c: u32| common_ancestor(records, first, second, c) == common_ancestor(records, second, first, c) by {
            }
            assert forall|c: u32| #[trigger] nearest_common_ancestor(records, first, second, c)
                == nearest_common_ancestor(records, second, first, c) by {
                lemma_nearest_symmetric(records, first, second, c);
            }
            if exists|c: u32| common_ancestor(records, first, second, c) {
                let w = choose|c: u32| common_ancestor(records, first, second, c);
                lemma_nearest_exists(records, first, second, w);
                let c1 = choose|c: u32| nearest_common_ancestor(records, first, second, c);
                let c2 = choose|c: u32| nearest_common_ancestor(records, second, first, c);
                assert(nearest_common_ancestor(records, first, second, c1));
                assert(nearest_common_ancestor(records, second, first, c1));
                assert(nearest_common_ancestor(records, second, first, c2));
                assert(nearest_common_ancestor(records, first, second, c2));
                lemma_nearest_unique(records, first, second, c1, c2);
                let g1 = up_generations(records, first, c1);
                let g2 = up_generations(records, second, c1);
                if g1 == 1 && g2 == 1 {
                    lemma_one_generation_up(records, first, c1);
                    lemma_one_generation_up(records, second, c1);
                    let f = lineage_of(records, first).unwrap();
                    let s2 = lineage_of(records, second).unwrap();
                    let fi = choose|i: int| 0 <= i < records.len() && (#[trigger] records[i]).entity_id == first;
                    let si = choose|i: int| 0 <= i < records.len() && (#[trigger] records[i]).entity_id == second;
                    assert(f == records[fi]);
                    assert(s2 == records[si]);
                    if f.mother_id == Some(c1) {
                        assert(s2.father_id != f.mother_id);
                    } else {
                        assert(f.father_id == Some(c1));
                        if s2.mother_id == Some(c1) {
                            assert(s2.mother_id != f.father_id);
                        }
                    }
                }
            }
        }
    }
}

/// `ancestor` is an ancestor of `entity`, some number of generations up, exactly when
/// `entity` is a descendant of `ancestor` the same number of generations down.
pub proof fn lemma_ancestors_mirror_descendants(records: Seq<LineageRecord>, entity: u32, ancestor: u32)
    ensures
        reachable(records, true, entity, ancestor) == reachable(records, false, ancestor, entity),
        reachable(records, true, entity, ancestor) ==> generation_distance(records, true, entity, ancestor)
            == generation_distance(records, false, ancestor, entity),
{
    lemma_reach_dual(records, true, entity, ancestor);
}

} // verus!
