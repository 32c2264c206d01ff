use nexus_engine::inventory::{Inventory, ItemKind};

#[test]
fn additions_share_one_bounded_capacity() {
    let mut inventory = Inventory::new(10);
    assert_eq!(inventory.add(ItemKind::Food, 7), 7);
    assert_eq!(inventory.add(ItemKind::Timber, 8), 3);
    assert_eq!(inventory.add(ItemKind::Stone, 1), 0);
    assert_eq!((inventory.used_capacity(), inventory.remaining_capacity()), (10, 0));
}

#[test]
fn removal_never_underflows_and_releases_capacity() {
    let mut inventory = Inventory::new(5);
    inventory.add(ItemKind::Iron, 4);
    assert_eq!(inventory.remove(ItemKind::Iron, 10), 4);
    assert_eq!(inventory.remove(ItemKind::Iron, 1), 0);
    assert_eq!((inventory.used_capacity(), inventory.remaining_capacity()), (0, 5));
}

#[test]
fn identical_operation_sequences_are_deterministic() {
    let run = || {
        let mut value = Inventory::new(12);
        value.add(ItemKind::Stone, 5);
        value.add(ItemKind::Food, 9);
        value.remove(ItemKind::Stone, 2);
        value
    };
    assert_eq!(run(), run());
}

#[test]
fn slugs_round_trip_through_labels() {
    for kind in ItemKind::all() {
        assert_eq!(ItemKind::from_slug(&kind.label().to_lowercase()), Some(kind));
    }
    assert_eq!(ItemKind::from_slug("Food"), None);
    assert_eq!(ItemKind::from_slug("gold"), None);
    let inventory = Inventory::new(3);
    assert_eq!(inventory.capacity(), 3);
    assert_eq!(inventory.amount(ItemKind::Food), 0);
    assert_eq!(inventory.amounts(), &[0, 0, 0, 0]);
}
