use nexus_engine::genealogy::Genealogy;
use nexus_engine::kinship::{
    ancestors_of, children_of, descendants_of, generation_of, relationship_between, siblings_of,
    KinshipGeneration, KinshipRelation,
};

/// Founders only.
fn family() -> Genealogy {
    let mut genealogy = Genealogy::default();
    for id in [1, 2, 5, 7, 9, 11] {
        genealogy.register(id, None, None);
    }
    genealogy
}

/// 1 + 2 -> 3, 4; 1 + 5 -> 6; 3 + 7 -> 8; 4 + 9 -> 10; 8 + 11 -> 12.
fn lineage() -> Genealogy {
    let mut genealogy = Genealogy::default();
    genealogy.register(1, None, None);
    genealogy.register(2, None, None);
    genealogy.register(3, Some(1), Some(2));
    genealogy.register(4, Some(1), Some(2));
    genealogy.register(5, None, None);
    genealogy.register(6, Some(1), Some(5));
    genealogy.register(7, None, None);
    genealogy.register(8, Some(3), Some(7));
    genealogy.register(9, None, None);
    genealogy.register(10, Some(4), Some(9));
    genealogy.register(11, None, None);
    genealogy.register(12, Some(8), Some(11));
    genealogy
}

#[test]
fn children_are_listed_in_registration_order_through_the_index() {
    let genealogy = lineage();
    assert_eq!(children_of(&genealogy, 1), vec![3, 4, 6]);
    assert_eq!(genealogy.children_of(2), &[3, 4]);
    assert!(genealogy.children_of(12).is_empty());
    assert!(family().children_of(1).is_empty());
}

#[test]
fn a_repeated_parent_is_filed_once() {
    let mut genealogy = Genealogy::default();
    genealogy.register(1, None, None);
    genealogy.register(2, Some(1), Some(1));
    assert_eq!(genealogy.children_of(1), &[2]);
    assert_eq!(genealogy.get(2).unwrap().father_id, Some(1));
    assert!(genealogy.get(3).is_none());
}

#[test]
fn siblings_share_a_known_parent() {
    let genealogy = lineage();
    assert_eq!(siblings_of(&genealogy, 3), vec![4, 6]);
    assert_eq!(siblings_of(&genealogy, 6), vec![3, 4]);
    assert!(siblings_of(&genealogy, 1).is_empty());
    assert!(siblings_of(&genealogy, 99).is_empty());
}

#[test]
fn ancestors_and_descendants_carry_their_generation() {
    let genealogy = lineage();
    assert_eq!(
        ancestors_of(&genealogy, 12),
        vec![
            KinshipGeneration { entity_id: 8, generation: 1 },
            KinshipGeneration { entity_id: 11, generation: 1 },
            KinshipGeneration { entity_id: 3, generation: 2 },
            KinshipGeneration { entity_id: 7, generation: 2 },
            KinshipGeneration { entity_id: 1, generation: 3 },
            KinshipGeneration { entity_id: 2, generation: 3 },
        ]
    );
    let descendants = descendants_of(&genealogy, 1);
    assert_eq!(
        descendants.iter().map(|r| (r.entity_id, r.generation)).collect::<Vec<_>>(),
        vec![(3, 1), (4, 1), (6, 1), (8, 2), (10, 2), (12, 3)]
    );
    assert_eq!(generation_of(&descendants, 10), Some(2));
    assert_eq!(generation_of(&descendants, 2), None);
}

#[test]
fn relationships_cover_every_kind() {
    let genealogy = lineage();
    assert_eq!(relationship_between(&genealogy, 3, 3), KinshipRelation::SamePerson);
    assert_eq!(relationship_between(&genealogy, 1, 3), KinshipRelation::Parent);
    assert_eq!(relationship_between(&genealogy, 3, 1), KinshipRelation::Child);
    assert_eq!(
        relationship_between(&genealogy, 1, 12),
        KinshipRelation::Ancestor { generations: 3 }
    );
    assert_eq!(
        relationship_between(&genealogy, 12, 1),
        KinshipRelation::Descendant { generations: 3 }
    );
    assert_eq!(relationship_between(&genealogy, 3, 4), KinshipRelation::FullSibling);
    assert_eq!(relationship_between(&genealogy, 3, 6), KinshipRelation::HalfSibling);
    assert_eq!(
        relationship_between(&genealogy, 4, 8),
        KinshipRelation::AuntUncle { generations_removed: 0 }
    );
    assert_eq!(
        relationship_between(&genealogy, 8, 4),
        KinshipRelation::NieceNephew { generations_removed: 0 }
    );
    assert_eq!(
        relationship_between(&genealogy, 8, 10),
        KinshipRelation::Cousin { degree: 1, removed: 0 }
    );
    assert_eq!(
        relationship_between(&genealogy, 12, 10),
        KinshipRelation::Cousin { degree: 1, removed: 1 }
    );
    assert_eq!(relationship_between(&genealogy, 7, 9), KinshipRelation::Unrelated);
}

fn mirror(relation: KinshipRelation) -> KinshipRelation {
    match relation {
        KinshipRelation::Parent => KinshipRelation::Child,
        KinshipRelation::Child => KinshipRelation::Parent,
        KinshipRelation::Ancestor { generations } => KinshipRelation::Descendant { generations },
        KinshipRelation::Descendant { generations } => KinshipRelation::Ancestor { generations },
        KinshipRelation::AuntUncle { generations_removed } => {
            KinshipRelation::NieceNephew { generations_removed }
        }
        KinshipRelation::NieceNephew { generations_removed } => {
            KinshipRelation::AuntUncle { generations_removed }
        }
        other => other,
    }
}

#[test]
fn relationships_read_mirrored_from_the_other_side() {
    let genealogy = lineage();
    for first in 1..=12 {
        for second in 1..=12 {
            assert_eq!(
                relationship_between(&genealogy, second, first),
                mirror(relationship_between(&genealogy, first, second)),
                "{first} and {second}"
            );
        }
    }
    assert_eq!(relationship_between(&genealogy, 1, 12), KinshipRelation::Ancestor { generations: 3 });
    assert_eq!(relationship_between(&genealogy, 12, 1), KinshipRelation::Descendant { generations: 3 });
    assert_eq!(relationship_between(&genealogy, 4, 8), KinshipRelation::AuntUncle { generations_removed: 0 });
    assert_eq!(relationship_between(&genealogy, 8, 4), KinshipRelation::NieceNephew { generations_removed: 0 });
}

#[test]
fn ancestors_and_descendants_mirror_each_other() {
    let genealogy = lineage();
    for entity in 1..=12 {
        for relative in ancestors_of(&genealogy, entity) {
            assert_eq!(
                generation_of(&descendants_of(&genealogy, relative.entity_id), entity),
                Some(relative.generation)
            );
        }
    }
}
