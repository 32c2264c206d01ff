use nexus_engine::genealogy::Genealogy;
use nexus_engine::ties::{
    close_relationship_role_between, grief_intensity, grief_role, CloseRelationshipRole, DeathContext,
    GriefRole, RelationshipIdentity, GRIEF_MIN_INTENSITY,
};

fn identity(id: u32, partner: Option<u32>, mother: Option<u32>, father: Option<u32>) -> RelationshipIdentity {
    RelationshipIdentity { id, partner_id: partner, mother_id: mother, father_id: father }
}

#[test]
fn partner_outranks_every_other_tie() {
    let a = identity(1, Some(2), None, None);
    let b = identity(2, Some(1), Some(1), None);
    assert_eq!(close_relationship_role_between(a, b), CloseRelationshipRole::CurrentPartner);
}

#[test]
fn parent_and_child_see_each_other_as_parent_child() {
    let parent = identity(1, None, None, None);
    let child = identity(5, None, Some(1), Some(2));
    assert_eq!(close_relationship_role_between(parent, child), CloseRelationshipRole::ParentChild);
    assert_eq!(close_relationship_role_between(child, parent), CloseRelationshipRole::ParentChild);
}

#[test]
fn close_siblings_share_a_known_parent() {
    let a = identity(5, None, Some(1), Some(2));
    let b = identity(6, None, Some(3), Some(2));
    assert_eq!(close_relationship_role_between(a, b), CloseRelationshipRole::Sibling);
    let founders_a = identity(7, None, None, None);
    let founders_b = identity(8, None, None, None);
    assert_eq!(close_relationship_role_between(founders_a, founders_b), CloseRelationshipRole::Other);
}

#[test]
fn close_roles_order_closest_first() {
    assert!(CloseRelationshipRole::CurrentPartner < CloseRelationshipRole::ParentChild);
    assert!(CloseRelationshipRole::ParentChild < CloseRelationshipRole::Sibling);
    assert!(CloseRelationshipRole::Sibling < CloseRelationshipRole::Other);
}

#[test]
fn grief_intensity_adds_a_twenty_fifth_of_affinity() {
    assert_eq!(grief_intensity(GriefRole::Partner, 0), 65);
    assert_eq!(grief_intensity(GriefRole::Partner, 1_000), 100);
    assert_eq!(grief_intensity(GriefRole::Sibling, 260), 55);
    assert_eq!(grief_intensity(GriefRole::BondedOther, 100), 34);
    assert_eq!(grief_intensity(GriefRole::BondedOther, -1_000), 0);
    assert_eq!(grief_intensity(GriefRole::ParentChild, -24), 60);
    assert_eq!(grief_intensity(GriefRole::ParentChild, -26), 59);
    assert_eq!(grief_intensity(GriefRole::CaregiverDependent, i16::MAX), 100);
    assert!(grief_intensity(GriefRole::BondedOther, -300) < GRIEF_MIN_INTENSITY);
}

#[test]
fn grief_role_prefers_partner_then_care_then_kin() {
    let mut genealogy = Genealogy::new();
    genealogy.register(1, None, None);
    genealogy.register(2, None, None);
    genealogy.register(3, Some(1), Some(2));
    genealogy.register(4, Some(1), Some(2));

    let death = DeathContext { entity_id: 3, household_id: None, partner_id: Some(9), caregiver_id: Some(1) };
    assert_eq!(grief_role(9, None, death, &genealogy, 0), Some(GriefRole::Partner));
    assert_eq!(grief_role(1, None, death, &genealogy, 0), Some(GriefRole::CaregiverDependent));
    assert_eq!(grief_role(2, None, death, &genealogy, 0), Some(GriefRole::ParentChild));
    assert_eq!(grief_role(4, None, death, &genealogy, 0), Some(GriefRole::Sibling));
    assert_eq!(grief_role(8, Some(3), death, &genealogy, 0), Some(GriefRole::CaregiverDependent));
    assert_eq!(grief_role(8, None, death, &genealogy, 99), None);
    assert_eq!(grief_role(8, None, death, &genealogy, 100), Some(GriefRole::BondedOther));
}
