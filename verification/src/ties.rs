//! Close ties between individuals: the role one plays for another, and the grief a
//! witnessed death causes.
use vstd::prelude::*;
use crate::genealogy::Genealogy;
use crate::kinship::{relationship_between, spec_relationship, KinshipRelation};

verus! {

/// How close a tie is, closest first.
#[derive(Clone, Copy, Debug, PartialEq, Eq, PartialOrd, Ord, Structural)]
pub enum CloseRelationshipRole {
    CurrentPartner,
    ParentChild,
    Sibling,
    Other,
}

/// Who an individual is, as far as close ties are concerned.
#[derive(Clone, Copy, Debug, PartialEq, Eq, Structural)]
pub struct RelationshipIdentity {
    pub id: u32,
    pub partner_id: Option<u32>,
    pub mother_id: Option<u32>,
    pub father_id: Option<u32>,
}

/// The role `target` plays for `actor`: current partner, then parent or child, then a
/// sibling through a shared known parent, else other.
pub open spec fn spec_close_role(actor: RelationshipIdentity, target: RelationshipIdentity) -> CloseRelationshipRole {
    if actor.partner_id == Some(target.id) {
        CloseRelationshipRole::CurrentPartner
    } else if actor.mother_id == Some(target.id) || actor.father_id == Some(target.id) || target.mother_id == Some(
        actor.id,
    ) || target.father_id == Some(actor.id) {
        CloseRelationshipRole::ParentChild
    } else if (actor.mother_id is Some && actor.mother_id == target.mother_id) || (actor.father_id is Some
        && actor.father_id == target.father_id) {
        CloseRelationshipRole::Sibling
    } else {
        CloseRelationshipRole::Other
    }
}

fn same_id(a: Option<u32>, b: u32) -> (r: bool)
    ensures
        r == (a == Some(b)),
{
    match a {
        Some(v) => v == b,
        None => false,
    }
}

fn same_known(a: Option<u32>, b: Option<u32>) -> (r: bool)
    ensures
        r == (a is Some && a == b),
{
    match (a, b) {
        (Some(x), Some(y)) => x == y,
        _ => false,
    }
}

pub fn close_relationship_role_between(actor: RelationshipIdentity, target: RelationshipIdentity) -> (r:
    CloseRelationshipRole)
    ensures
        r == spec_close_role(actor, target),
{
    if same_id(actor.partner_id, target.id) {
        return CloseRelationshipRole::CurrentPartner;
    }
    if same_id(actor.mother_id, target.id) || same_id(actor.father_id, target.id) || same_id(target.mother_id, actor.id)
        || same_id(target.father_id, actor.id) {
        return CloseRelationshipRole::ParentChild;
    }
    if same_known(actor.mother_id, target.mother_id) || same_known(actor.father_id, target.father_id) {
        return CloseRelationshipRole::Sibling;
    }
    CloseRelationshipRole::Other
}

/// The close-tie role is symmetric.
pub proof fn lemma_close_role_symmetric(a: RelationshipIdentity, b: RelationshipIdentity)
    requires
        a.partner_id == Some(b.id) <==> b.partner_id == Some(a.id),
    ensures
        spec_close_role(a, b) == spec_close_role(b, a),
{
}

/// Grief below this intensity is not felt.
pub const GRIEF_MIN_INTENSITY: u8 = 20;

/// Why a death is grieved.
#[derive(Clone, Copy, Debug, PartialEq, Eq, Structural)]
pub enum GriefRole {
    Partner,
    CaregiverDependent,
    ParentChild,
    Sibling,
    BondedOther,
}

pub open spec fn spec_base_intensity(role: GriefRole) -> i16 {
    match role {
        GriefRole::Partner => 65,
        GriefRole::CaregiverDependent | GriefRole::ParentChild => 60,
        GriefRole::Sibling => 45,
        GriefRole::BondedOther => 30,
    }
}

impl GriefRole {
    pub fn base_intensity(self) -> (r: i16)
        ensures
            r == spec_base_intensity(self),
    {
        match self {
            GriefRole::Partner => 65,
            GriefRole::CaregiverDependent | GriefRole::ParentChild => 60,
            GriefRole::Sibling => 45,
            GriefRole::BondedOther => 30,
        }
    }
}

/// `a / b` rounded toward zero, as integer division does.
pub open spec fn truncating_div(a: int, b: int) -> int {
    if a >= 0 { a / b } else { -((-a) / b) }
}

/// Intensity of grief: the role's base plus a twenty-fifth of the affinity (held in the
/// affinity range, rounded toward zero), held in `0..=100`.
pub open spec fn spec_grief_intensity(role: GriefRole, affinity: i16) -> u8 {
    let held = if affinity < -1000 { -1000 } else if affinity > 1000 { 1000 } else { affinity as int };
    let v = spec_base_intensity(role) + truncating_div(held, 25);
    (if v < 0 { 0 } else if v > 100 { 100 } else { v }) as u8
}

pub fn grief_intensity(role: GriefRole, affinity: i16) -> (r: u8)
    ensures
        r == spec_grief_intensity(role, affinity),
{
    let held: i16 = if affinity < -1000 { -1000 } else if affinity > 1000 { 1000 } else { affinity };
    let share: i16 = if held >= 0 { held / 25 } else { -((-held) / 25) };
    let v = role.base_intensity() + share;
    (if v < 0 { 0 } else if v > 100 { 100 } else { v }) as u8
}

/// Who died, and who they were bound to.
#[derive(Clone, Copy, Debug, PartialEq, Eq, Structural)]
pub struct DeathContext {
    pub entity_id: u32,
    pub household_id: Option<u32>,
    pub partner_id: Option<u32>,
    pub caregiver_id: Option<u32>,
}

/// Why `survivor_id` grieves the death, if it does: the deceased's partner; a caregiver
/// or dependent of the deceased; a parent or child; a sibling; or anyone else whose
/// affinity reached 100.
pub open spec fn spec_grief_role(
    survivor_id: u32,
    survivor_caregiver_id: Option<u32>,
    death: DeathContext,
    relation: KinshipRelation,
    affinity: i16,
) -> Option<GriefRole> {
    if death.partner_id == Some(survivor_id) {
        Some(GriefRole::Partner)
    } else if survivor_caregiver_id == Some(death.entity_id) || death.caregiver_id == Some(survivor_id) {
        Some(GriefRole::CaregiverDependent)
    } else {
        match relation {
            KinshipRelation::Parent | KinshipRelation::Child => Some(GriefRole::ParentChild),
            KinshipRelation::FullSibling | KinshipRelation::HalfSibling => Some(GriefRole::Sibling),
            _ => if affinity >= 100 {
                Some(GriefRole::BondedOther)
            } else {
                None
            },
        }
    }
}

pub fn grief_role(
    survivor_id: u32,
    survivor_caregiver_id: Option<u32>,
    death: DeathContext,
    genealogy: &Genealogy,
    affinity: i16,
) -> (r: Option<GriefRole>)
    requires
        genealogy.wf(),
    ensures
        r == spec_grief_role(
            survivor_id,
            survivor_caregiver_id,
            death,
            spec_relationship(genealogy.spec_records(), survivor_id, death.entity_id),
            affinity,
        ),
{
    if same_id(death.partner_id, survivor_id) {
        return Some(GriefRole::Partner);
    }
    if same_id(survivor_caregiver_id, death.entity_id) || same_id(death.caregiver_id, survivor_id) {
        return Some(GriefRole::CaregiverDependent);
    }
    match relationship_between(genealogy, survivor_id, death.entity_id) {
        KinshipRelation::Parent | KinshipRelation::Child => Some(GriefRole::ParentChild),
        KinshipRelation::FullSibling | KinshipRelation::HalfSibling => Some(GriefRole::Sibling),
        _ => if affinity >= 100 {
            Some(GriefRole::BondedOther)
        } else {
            None
        },
    }
}

} // verus!
