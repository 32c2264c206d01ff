//! Lasting partnerships: formed between familiar, fond, unrelated adults and dissolved
//! when either partner's affection has run out.
use vstd::prelude::*;
use crate::households::{find_member, member_index, members_by_id, Member};
use crate::mind::{find_known, ids_sorted, KnownEntity};
use crate::entity::{spec_life_stage, LifeStage};
use crate::genealogy::Genealogy;
use crate::kinship::{
    close_ancestor, common_father, common_mother, lemma_shared_grandparent_is_close_kin, lemma_siblings_by_shared_parents,
    link, parent_of, reachable, relationship_between,
    spec_relationship, within, KinshipRelation,
};

verus! {

/// Interactions each side must have had before a partnership can form.
pub const MIN_INTERACTIONS: u32 = 3;
/// Affinity each side needs toward the other, before the compatibility discount.
pub const BASE_AFFINITY_THRESHOLD: i16 = 300;
/// The largest discount that full compatibility takes off the affinity threshold.
pub const MAX_COMPATIBILITY_DISCOUNT: i16 = 100;
/// A partnership lasts while both affinities stay above this.
pub const DISSOLUTION_AFFINITY_THRESHOLD: i16 = 0;

/// A partnership that formed, with the affinities that carried it.
#[derive(Clone, Copy, Debug, PartialEq, Eq, Structural)]
pub struct PartnershipFormation {
    pub actor_id: u32,
    pub target_id: u32,
    pub actor_affinity: i16,
    pub target_affinity: i16,
    pub compatibility_per_mille: u16,
}

/// A partnership that ended, with the affinities that ended it.
#[derive(Clone, Copy, Debug, PartialEq, Eq, Structural)]
pub struct PartnershipDissolution {
    pub actor_id: u32,
    pub target_id: u32,
    pub actor_affinity: i16,
    pub target_affinity: i16,
}

/// Every individual's acquaintances are listed in increasing id order.
pub open spec fn memories_sorted(members: Seq<Member>) -> bool {
    forall|i: int| 0 <= i < members.len() ==> ids_sorted(#[trigger] members[i].memory.known_entities@)
}

/// Individuals listed by id, each remembering acquaintances by id.
pub open spec fn population_sound(members: Seq<Member>) -> bool {
    members_by_id(members) && memories_sorted(members)
}

/// The remembered acquaintance with `id`, if any.
pub open spec fn acquaintance(known: Seq<KnownEntity>, id: u32) -> Option<KnownEntity> {
    if exists|i: int| 0 <= i < known.len() && (#[trigger] known[i]).id == id {
        Some(known[choose|i: int| 0 <= i < known.len() && (#[trigger] known[i]).id == id])
    } else {
        None
    }
}

proof fn lemma_acquaintance_at(known: Seq<KnownEntity>, id: u32, j: int)
    requires
        ids_sorted(known),
        0 <= j < known.len(),
        known[j].id == id,
    ensures
        acquaintance(known, id) == Some(known[j]),
{
    let k = choose|i: int| 0 <= i < known.len() && (#[trigger] known[i]).id == id;
    if k < j {
        assert(known[k].id < known[j].id);
    } else if k > j {
        assert(known[j].id < known[k].id);
    }
}

proof fn lemma_member_at(members: Seq<Member>, id: u32, j: int)
    requires
        members_by_id(members),
        0 <= j < members.len(),
        members[j].id == id,
    ensures
        member_index(members, id) == Some(j),
{
    let k = choose|i: int| 0 <= i < members.len() && #[trigger] members[i].id == id;
    if k < j {
        assert(members[k].id < members[j].id);
    } else if k > j {
        assert(members[j].id < members[k].id);
    }
}

/// The acquaintance `id` in an id-ordered memory.
pub fn acquaintance_of(known: &Vec<KnownEntity>, id: u32) -> (r: Option<KnownEntity>)
    requires
        ids_sorted(known@),
    ensures
        r == acquaintance(known@, id),
{
    match find_known(known, id) {
        Some(index) => {
            proof {
                lemma_acquaintance_at(known@, id, index as int);
            }
            Some(known[index])
        },
        None => None,
    }
}

/// Everyone's acquaintance list.
pub open spec fn knowns_of(members: Seq<Member>) -> Seq<Seq<KnownEntity>> {
    Seq::new(members.len(), |i: int| members[i].memory.known_entities@)
}

/// The partnership between `actor_id` and `target_id` ends when both exist, are each
/// other's partner, remember each other (in the acquaintance lists `knowns`), and at
/// least one affinity is no longer above the dissolution threshold.
pub open spec fn dissolution_in(
    members: Seq<Member>,
    knowns: Seq<Seq<KnownEntity>>,
    actor_id: u32,
    target_id: u32,
) -> Option<PartnershipDissolution> {
    match (member_index(members, actor_id), member_index(members, target_id)) {
        (Some(a), Some(t)) => if actor_id != target_id && members[a].partner_id == Some(target_id)
            && members[t].partner_id == Some(actor_id) {
            match (acquaintance(knowns[a], target_id), acquaintance(knowns[t], actor_id)) {
                (Some(ka), Some(kt)) => if ka.affinity > DISSOLUTION_AFFINITY_THRESHOLD && kt.affinity
                    > DISSOLUTION_AFFINITY_THRESHOLD {
                    None
                } else {
                    Some(
                        PartnershipDissolution {
                            actor_id,
                            target_id,
                            actor_affinity: ka.affinity,
                            target_affinity: kt.affinity,
                        },
                    )
                },
                _ => None,
            }
        } else {
            None
        },
        _ => None,
    }
}

/// The partnership between `actor_id` and `target_id` ends (see `dissolution_in`), by
/// what the two remember.
pub open spec fn spec_dissolution(members: Seq<Member>, actor_id: u32, target_id: u32) -> Option<PartnershipDissolution> {
    dissolution_in(members, knowns_of(members), actor_id, target_id)
}

/// Whether a partnership ends depends only on ids, partners and what is remembered.
pub proof fn lemma_dissolution_in_agrees(
    m1: Seq<Member>,
    m2: Seq<Member>,
    knowns: Seq<Seq<KnownEntity>>,
    actor_id: u32,
    target_id: u32,
)
    requires
        members_by_id(m1),
        m1.len() == m2.len(),
        forall|j: int| 0 <= j < m1.len() ==> (#[trigger] m1[j]).id == m2[j].id && m1[j].partner_id == m2[j].partner_id,
    ensures
        dissolution_in(m1, knowns, actor_id, target_id) == dissolution_in(m2, knowns, actor_id, target_id),
        member_index(m1, actor_id) == member_index(m2, actor_id),
        member_index(m1, target_id) == member_index(m2, target_id),
{
    lemma_member_index_agrees(m1, m2, actor_id);
    lemma_member_index_agrees(m1, m2, target_id);
}

/// Where an id sits depends only on the ids.
pub proof fn lemma_member_index_agrees(m1: Seq<Member>, m2: Seq<Member>, id: u32)
    requires
        members_by_id(m1),
        m1.len() == m2.len(),
        forall|j: int| 0 <= j < m1.len() ==> (#[trigger] m1[j]).id == m2[j].id,
    ensures
        member_index(m1, id) == member_index(m2, id),
{
    assert(members_by_id(m2)) by {
        assert forall|x: int, y: int| 0 <= x < y < m2.len() implies m2[x].id < m2[y].id by {
            assert(m1[x].id == m2[x].id && m1[y].id == m2[y].id);
        }
    }
    if exists|i: int| 0 <= i < m1.len() && #[trigger] m1[i].id == id {
        let i = choose|i: int| 0 <= i < m1.len() && #[trigger] m1[i].id == id;
        assert(m2[i].id == id);
        lemma_member_at(m1, id, i);
        lemma_member_at(m2, id, i);
    } else {
        assert forall|i: int| 0 <= i < m2.len() implies #[trigger] m2[i].id != id by {
            assert(m1[i].id == m2[i].id);
        }
    }
}

/// The individuals after `spec_dissolution`: both former partners are single.
pub open spec fn after_dissolution(members: Seq<Member>, actor_id: u32, target_id: u32) -> Seq<Member> {
    if spec_dissolution(members, actor_id, target_id) is Some {
        let a = member_index(members, actor_id).unwrap();
        let t = member_index(members, target_id).unwrap();
        members.update(a, Member { partner_id: None, ..members[a] }).update(t, Member { partner_id: None, ..members[t] })
    } else {
        members
    }
}

/// Ends the partnership of `actor_id` and `target_id` when either no longer holds the
/// other in positive affinity; reports it, or `None` with nothing changed.
pub fn try_dissolve(members: &mut Vec<Member>, actor_id: u32, target_id: u32) -> (r: Option<PartnershipDissolution>)
    requires
        population_sound(old(members)@),
    ensures
        r == spec_dissolution(old(members)@, actor_id, target_id),
        final(members)@ == after_dissolution(old(members)@, actor_id, target_id),
        population_sound(final(members)@),
{
    let ghost before = members@;
    let actor_index = match find_member(members, actor_id) {
        Some(index) => index,
        None => {
            return None;
        },
    };
    let target_index = match find_member(members, target_id) {
        Some(index) => index,
        None => {
            return None;
        },
    };
    if actor_index == target_index {
        return None;
    }
    let paired = match (members[actor_index].partner_id, members[target_index].partner_id) {
        (Some(a), Some(t)) => a == target_id && t == actor_id,
        _ => false,
    };
    if !paired {
        return None;
    }
    proof {
        assert(members@[actor_index as int].memory.known_entities@ == before[actor_index as int].memory.known_entities@);
        assert(ids_sorted(members@[actor_index as int].memory.known_entities@));
        assert(ids_sorted(members@[target_index as int].memory.known_entities@));
    }
    let actor_affinity = match acquaintance_of(&members[actor_index].memory.known_entities, target_id) {
        Some(known) => known.affinity,
        None => {
            return None;
        },
    };
    let target_affinity = match acquaintance_of(&members[target_index].memory.known_entities, actor_id) {
        Some(known) => known.affinity,
        None => {
            return None;
        },
    };
    if actor_affinity > DISSOLUTION_AFFINITY_THRESHOLD && target_affinity > DISSOLUTION_AFFINITY_THRESHOLD {
        return None;
    }
    members[actor_index].partner_id = None;
    members[target_index].partner_id = None;
    proof {
        assert(members@ =~= after_dissolution(before, actor_id, target_id));
        assert(members_by_id(members@)) by {
            assert forall|i: int, j: int| 0 <= i < j < members@.len() implies members@[i].id < members@[j].id by {
                assert(members@[i].id == before[i].id && members@[j].id == before[j].id);
            }
        }
        assert forall|i: int| 0 <= i < members@.len() implies ids_sorted(#[trigger] members@[i].memory.known_entities@) by {
            assert(members@[i].memory == before[i].memory);
        }
    }
    Some(PartnershipDissolution { actor_id, target_id, actor_affinity, target_affinity })
}

/// Kin too close to become partners: oneself, parents and children, siblings and
/// half-siblings, ancestors and descendants, aunts, uncles, nieces, nephews and first
/// cousins.
pub open spec fn blocks_partnership(relation: KinshipRelation) -> bool {
    match relation {
        KinshipRelation::Cousin { degree, .. } => degree == 1,
        KinshipRelation::Unrelated => false,
        _ => true,
    }
}

/// The affinity each side needs: the base threshold less the compatibility discount.
pub open spec fn affinity_threshold(compatibility_discount: i16) -> int {
    BASE_AFFINITY_THRESHOLD - compatibility_discount
}

/// A partnership forms between `actor_id` and `target_id` when both exist, are distinct,
/// alive, single and adult, remember each other with at least `MIN_INTERACTIONS`
/// interactions and an affinity reaching the threshold, and are not close kin.
pub open spec fn spec_formation(
    members: Seq<Member>,
    records: Seq<crate::genealogy::LineageRecord>,
    actor_id: u32,
    target_id: u32,
    compatibility_discount: i16,
    compatibility_per_mille: u16,
) -> Option<PartnershipFormation> {
    match (member_index(members, actor_id), member_index(members, target_id)) {
        (Some(a), Some(t)) => if actor_id != target_id && members[a].alive && members[t].alive
            && members[a].partner_id is None && members[t].partner_id is None && spec_life_stage(members[a].age_ticks)
            == LifeStage::Adult && spec_life_stage(members[t].age_ticks) == LifeStage::Adult {
            match (
                acquaintance(members[a].memory.known_entities@, target_id),
                acquaintance(members[t].memory.known_entities@, actor_id),
            ) {
                (Some(ka), Some(kt)) => if ka.interaction_count >= MIN_INTERACTIONS && kt.interaction_count
                    >= MIN_INTERACTIONS && ka.affinity >= affinity_threshold(compatibility_discount) && kt.affinity
                    >= affinity_threshold(compatibility_discount) && !blocks_partnership(
                    spec_relationship(records, actor_id, target_id),
                ) {
                    Some(
                        PartnershipFormation {
                            actor_id,
                            target_id,
                            actor_affinity: ka.affinity,
                            target_affinity: kt.affinity,
                            compatibility_per_mille,
                        },
                    )
                } else {
                    None
                },
                _ => None,
            }
        } else {
            None
        },
        _ => None,
    }
}

/// No partnership ever forms between close kin as the records show them: not between
/// two individuals who share a known mother or a known father, not when one descends
/// from the other (in particular a parent and its child), and not when they have a
/// parent or grandparent in common (siblings, aunts or uncles with nieces or nephews,
/// first cousins).
pub proof fn lemma_no_partnership_among_close_kin(
    members: Seq<Member>,
    records: Seq<crate::genealogy::LineageRecord>,
    actor_id: u32,
    target_id: u32,
    compatibility_discount: i16,
    compatibility_per_mille: u16,
)
    ensures
        spec_formation(members, records, actor_id, target_id, compatibility_discount, compatibility_per_mille) is Some
            ==> !common_mother(records, actor_id, target_id) && !common_father(records, actor_id, target_id),
        spec_formation(members, records, actor_id, target_id, compatibility_discount, compatibility_per_mille) is Some
            ==> !reachable(records, false, actor_id, target_id) && !reachable(records, true, actor_id, target_id),
        spec_formation(members, records, actor_id, target_id, compatibility_discount, compatibility_per_mille) is Some
            ==> !parent_of(records, target_id, actor_id) && !parent_of(records, actor_id, target_id),
        spec_formation(members, records, actor_id, target_id, compatibility_discount, compatibility_per_mille) is Some
            ==> forall|c: u32| !(#[trigger] close_ancestor(records, actor_id, c) && close_ancestor(records, target_id, c)),
{
    if spec_formation(members, records, actor_id, target_id, compatibility_discount, compatibility_per_mille) is Some {
        let relation = spec_relationship(records, actor_id, target_id);
        assert(actor_id != target_id);
        assert(!blocks_partnership(relation));
        lemma_siblings_by_shared_parents(records, actor_id, target_id);
        assert forall|c: u32| !(#[trigger] close_ancestor(records, actor_id, c) && close_ancestor(records, target_id, c)) by {
            if close_ancestor(records, actor_id, c) && close_ancestor(records, target_id, c) {
                lemma_shared_grandparent_is_close_kin(records, actor_id, target_id, c);
            }
        }
        if parent_of(records, target_id, actor_id) {
            assert(within(records, false, actor_id, 0).contains(actor_id));
            assert(link(records, false, actor_id, target_id));
            assert(within(records, false, actor_id, 1).contains(target_id));
            assert(reachable(records, false, actor_id, target_id));
        }
        if parent_of(records, actor_id, target_id) {
            assert(within(records, true, actor_id, 0).contains(actor_id));
            assert(link(records, true, actor_id, target_id));
            assert(within(records, true, actor_id, 1).contains(target_id));
            assert(reachable(records, true, actor_id, target_id));
        }
    }
}

/// The individuals after a formation: each partner names the other.
pub open spec fn after_formation(members: Seq<Member>, actor_id: u32, target_id: u32) -> Seq<Member> {
    let a = member_index(members, actor_id).unwrap();
    let t = member_index(members, target_id).unwrap();
    members.update(a, Member { partner_id: Some(target_id), ..members[a] }).update(
        t,
        Member { partner_id: Some(actor_id), ..members[t] },
    )
}

proof fn lemma_partner_change_sound(before: Seq<Member>, after: Seq<Member>)
    requires
        population_sound(before),
        after.len() == before.len(),
        forall|i: int| 0 <= i < before.len() ==> (#[trigger] after[i]).id == before[i].id && after[i].memory == before[i].memory,
    ensures
        population_sound(after),
{
    assert forall|i: int, j: int| 0 <= i < j < after.len() implies after[i].id < after[j].id by {
        assert(after[i].id == before[i].id && after[j].id == before[j].id);
    }
    assert forall|i: int| 0 <= i < after.len() implies ids_sorted(#[trigger] after[i].memory.known_entities@) by {
        assert(after[i].memory == before[i].memory);
    }
}

/// Forms a partnership between `actor_id` and `target_id` when both are willing and
/// free to (see `spec_formation`); the discount and the per-mille compatibility come from
/// the two personalities. Reports it, or `None` with nothing changed.
pub fn try_form(
    members: &mut Vec<Member>,
    genealogy: &Genealogy,
    actor_id: u32,
    target_id: u32,
    compatibility_discount: i16,
    compatibility_per_mille: u16,
) -> (r: Option<PartnershipFormation>)
    requires
        population_sound(old(members)@),
        genealogy.wf(),
    ensures
        r == spec_formation(
            old(members)@,
            genealogy.spec_records(),
            actor_id,
            target_id,
            compatibility_discount,
            compatibility_per_mille,
        ),
        r is Some ==> final(members)@ == after_formation(old(members)@, actor_id, target_id),
        r is None ==> final(members)@ == old(members)@,
        population_sound(final(members)@),
{
    let ghost before = members@;
    let actor_index = match find_member(members, actor_id) {
        Some(index) => index,
        None => {
            return None;
        },
    };
    let target_index = match find_member(members, target_id) {
        Some(index) => index,
        None => {
            return None;
        },
    };
    if actor_index == target_index {
        return None;
    }
    if !members[actor_index].alive || !members[target_index].alive || members[actor_index].partner_id.is_some()
        || members[target_index].partner_id.is_some() || !matches!(
        LifeStage::from_age_ticks(members[actor_index].age_ticks),
        LifeStage::Adult
    ) || !matches!(LifeStage::from_age_ticks(members[target_index].age_ticks), LifeStage::Adult) {
        return None;
    }
    let actor_relationship = match acquaintance_of(&members[actor_index].memory.known_entities, target_id) {
        Some(known) => known,
        None => {
            return None;
        },
    };
    let target_relationship = match acquaintance_of(&members[target_index].memory.known_entities, actor_id) {
        Some(known) => known,
        None => {
            return None;
        },
    };
    if actor_relationship.interaction_count < MIN_INTERACTIONS || target_relationship.interaction_count
        < MIN_INTERACTIONS {
        return None;
    }
    let threshold: i32 = BASE_AFFINITY_THRESHOLD as i32 - compatibility_discount as i32;
    if (actor_relationship.affinity as i32) < threshold || (target_relationship.affinity as i32) < threshold {
        return None;
    }
    let relation = relationship_between(genealogy, actor_id, target_id);
    let blocked = match relation {
        KinshipRelation::Cousin { degree, .. } => degree == 1,
        KinshipRelation::Unrelated => false,
        _ => true,
    };
    if blocked {
        return None;
    }
    members[actor_index].partner_id = Some(target_id);
    members[target_index].partner_id = Some(actor_id);
    proof {
        assert(members@ =~= after_formation(before, actor_id, target_id));
        lemma_partner_change_sound(before, members@);
    }
    Some(
        PartnershipFormation {
            actor_id,
            target_id,
            actor_affinity: actor_relationship.affinity,
            target_affinity: target_relationship.affinity,
            compatibility_per_mille,
        },
    )
}

/// The partnered pairs, each once, lower id first, in the order of the lower id.
pub open spec fn partner_pairs(members: Seq<Member>) -> Seq<(u32, u32)>
    decreases members.len(),
{
    if members.len() == 0 {
        Seq::empty()
    } else {
        let rest = partner_pairs(members.drop_last());
        let m = members.last();
        match m.partner_id {
            Some(p) => if m.id < p {
                rest.push((m.id, p))
            } else {
                rest
            },
            None => rest,
        }
    }
}

/// Trying every pair in turn for dissolution: the individuals afterwards and the
/// dissolutions, in pair order.
pub open spec fn dissolve_all(members: Seq<Member>, pairs: Seq<(u32, u32)>) -> (Seq<Member>, Seq<PartnershipDissolution>)
    decreases pairs.len(),
{
    if pairs.len() == 0 {
        (members, Seq::empty())
    } else {
        let (ms, ds) = dissolve_all(members, pairs.drop_last());
        let (a, t) = pairs.last();
        (
            after_dissolution(ms, a, t),
            match spec_dissolution(ms, a, t) {
                Some(d) => ds.push(d),
                None => ds,
            },
        )
    }
}

/// Ends every partnership in which either side's affection has run out.
pub fn dissolve_unhealthy(members: &mut Vec<Member>) -> (r: Vec<PartnershipDissolution>)
    requires
        population_sound(old(members)@),
    ensures
        ({
            let (ms, ds) = dissolve_all(old(members)@, partner_pairs(old(members)@));
            &&& final(members)@ == ms
            &&& r@ == ds
        }),
        population_sound(final(members)@),
{
    let mut pairs: Vec<(u32, u32)> = Vec::new();
    let mut i: usize = 0;
    while i < members.len()
        invariant
            i <= members@.len(),
            pairs@ == partner_pairs(members@.subrange(0, i as int)),
        decreases members@.len() - i,
    {
        proof {
            assert(members@.subrange(0, i + 1).drop_last() =~= members@.subrange(0, i as int));
        }
        if let Some(partner) = members[i].partner_id {
            if members[i].id < partner {
                pairs.push((members[i].id, partner));
            }
        }
        i += 1;
    }
    proof {
        assert(members@.subrange(0, members@.len() as int) =~= members@);
    }
    let ghost start = members@;
    let mut dissolutions: Vec<PartnershipDissolution> = Vec::new();
    let mut k: usize = 0;
    while k < pairs.len()
        invariant
            k <= pairs@.len(),
            pairs@ == partner_pairs(start),
            population_sound(members@),
            ({
                let (ms, ds) = dissolve_all(start, pairs@.subrange(0, k as int));
                &&& members@ == ms
                &&& dissolutions@ == ds
            }),
        decreases pairs@.len() - k,
    {
        proof {
            assert(pairs@.subrange(0, k + 1).drop_last() =~= pairs@.subrange(0, k as int));
        }
        let (a, t) = pairs[k];
        if let Some(d) = try_dissolve(members, a, t) {
            dissolutions.push(d);
        }
        k += 1;
    }
    proof {
        assert(pairs@.subrange(0, pairs@.len() as int) =~= pairs@);
    }
    dissolutions
}

/// The individual with any partner who is no longer listed made single.
pub open spec fn without_missing_partner(members: Seq<Member>, m: Member) -> Member {
    match m.partner_id {
        Some(p) => if member_index(members, p) is None {
            Member { partner_id: None, ..m }
        } else {
            m
        },
        None => m,
    }
}

/// Clears every partner reference to someone no longer listed.
pub fn clear_missing_partners(members: &mut Vec<Member>)
    requires
        population_sound(old(members)@),
    ensures
        final(members)@.len() == old(members)@.len(),
        forall|i: int| 0 <= i < old(members)@.len() ==> #[trigger] final(members)@[i] == without_missing_partner(
            old(members)@,
            old(members)@[i],
        ),
        population_sound(final(members)@),
{
    let ghost before = members@;
    let mut i: usize = 0;
    while i < members.len()
        invariant
            i <= members@.len(),
            members@.len() == before.len(),
            population_sound(before),
            forall|j: int| 0 <= j < before.len() ==> (#[trigger] members@[j]).id == before[j].id && members@[j].memory
                == before[j].memory,
            forall|j: int| 0 <= j < i ==> #[trigger] members@[j] == without_missing_partner(before, before[j]),
            forall|j: int| i <= j < before.len() ==> #[trigger] members@[j] == before[j],
        decreases members@.len() - i,
    {
        if let Some(partner) = members[i].partner_id {
            proof {
                lemma_partner_change_sound(before, members@);
                assert forall|j: int| 0 <= j < members@.len() && members@[j].id == partner implies before[j].id == partner by {}
            }
            let found = find_member(members, partner);
            proof {
                if found is None {
                    assert forall|j: int| 0 <= j < before.len() implies #[trigger] before[j].id != partner by {
                        assert(members@[j].id == before[j].id);
                    }
                } else {
                    let j = found.unwrap() as int;
                    assert(before[j].id == partner);
                }
            }
            if found.is_none() {
                members[i].partner_id = None;
            }
        }
        i += 1;
    }
    proof {
        lemma_partner_change_sound(before, members@);
    }
}

/// Every partner named is listed and names the individual back.
pub open spec fn partners_mutual(members: Seq<Member>) -> bool {
    forall|i: int|
        0 <= i < members.len() ==> ((#[trigger] members[i]).partner_id matches Some(p) ==> (member_index(members, p) matches Some(
            j,
        ) && members[j].partner_id == Some(members[i].id)))
}

/// Forming a partnership keeps partnerships mutual: the two new partners were single,
/// so nobody else named either of them.
pub proof fn lemma_formation_keeps_partners_mutual(
    members: Seq<Member>,
    records: Seq<crate::genealogy::LineageRecord>,
    actor_id: u32,
    target_id: u32,
    compatibility_discount: i16,
    compatibility_per_mille: u16,
)
    requires
        population_sound(members),
        partners_mutual(members),
        spec_formation(members, records, actor_id, target_id, compatibility_discount, compatibility_per_mille) is Some,
    ensures
        partners_mutual(after_formation(members, actor_id, target_id)),
{
    let a = member_index(members, actor_id).unwrap();
    let t = member_index(members, target_id).unwrap();
    let after = after_formation(members, actor_id, target_id);
    assert(members[a].id == actor_id && members[t].id == target_id);
    lemma_member_at(members, actor_id, a);
    lemma_member_at(members, target_id, t);
    assert forall|i: int| 0 <= i < after.len() implies ((#[trigger] after[i]).partner_id matches Some(p) ==> (member_index(after, p) matches Some(
        j,
    ) && after[j].partner_id == Some(after[i].id))) by {
        assert forall|k: int| 0 <= k < after.len() implies #[trigger] after[k].id == members[k].id by {}
        assert(members_by_id(after)) by {
            assert forall|x: int, y: int| 0 <= x < y < after.len() implies after[x].id < after[y].id by {
                assert(after[x].id == members[x].id && after[y].id == members[y].id);
            }
        }
        if i == a {
            lemma_member_at(after, target_id, t);
        } else if i == t {
            lemma_member_at(after, actor_id, a);
        } else if let Some(p) = after[i].partner_id {
            assert(members[i].partner_id == Some(p));
            let j = member_index(members, p).unwrap();
            assert(members[j].partner_id == Some(members[i].id));
            assert(j != a && j != t);
            lemma_member_at(members, p, j);
            lemma_member_at(after, p, j);
        }
    }
}

/// Ending a partnership keeps partnerships mutual: both former partners become single
/// together.
pub proof fn lemma_dissolution_keeps_partners_mutual(members: Seq<Member>, actor_id: u32, target_id: u32)
    requires
        population_sound(members),
        partners_mutual(members),
    ensures
        partners_mutual(after_dissolution(members, actor_id, target_id)),
{
    if spec_dissolution(members, actor_id, target_id) is Some {
        let a = member_index(members, actor_id).unwrap();
        let t = member_index(members, target_id).unwrap();
        let after = after_dissolution(members, actor_id, target_id);
        lemma_member_at(members, actor_id, a);
        lemma_member_at(members, target_id, t);
        assert forall|i: int| 0 <= i < after.len() implies ((#[trigger] after[i]).partner_id matches Some(p) ==> (member_index(after, p) matches Some(
            j,
        ) && after[j].partner_id == Some(after[i].id))) by {
            assert forall|k: int| 0 <= k < after.len() implies #[trigger] after[k].id == members[k].id by {}
            assert(members_by_id(after)) by {
                assert forall|x: int, y: int| 0 <= x < y < after.len() implies after[x].id < after[y].id by {
                    assert(after[x].id == members[x].id && after[y].id == members[y].id);
                }
            }
            if i != a && i != t {
                if let Some(p) = after[i].partner_id {
                    assert(members[i].partner_id == Some(p));
                    let j = member_index(members, p).unwrap();
                    assert(members[j].partner_id == Some(members[i].id));
                    assert(j != a && j != t);
                    lemma_member_at(members, p, j);
                    lemma_member_at(after, p, j);
                }
            }
        }
    }
}

} // verus!
