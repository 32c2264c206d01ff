//! What an individual carries: four kinds of items sharing one bounded capacity.
use vstd::prelude::*;
use crate::text::str_equals;

verus! {

pub const DEFAULT_CARRYING_CAPACITY: u16 = 50;

#[derive(Clone, Copy, Debug, PartialEq, Eq, Structural)]
pub enum ItemKind {
    Food,
    Timber,
    Stone,
    Iron,
}

pub open spec fn spec_item_index(kind: ItemKind) -> int {
    match kind {
        ItemKind::Food => 0,
        ItemKind::Timber => 1,
        ItemKind::Stone => 2,
        ItemKind::Iron => 3,
    }
}

pub open spec fn spec_item_label(kind: ItemKind) -> Seq<char> {
    match kind {
        ItemKind::Food => "Food"@,
        ItemKind::Timber => "Timber"@,
        ItemKind::Stone => "Stone"@,
        ItemKind::Iron => "Iron"@,
    }
}

/// The kind whose lower-case slug is `value`.
pub open spec fn spec_item_from_slug(value: Seq<char>) -> Option<ItemKind> {
    if value == "food"@ {
        Some(ItemKind::Food)
    } else if value == "timber"@ {
        Some(ItemKind::Timber)
    } else if value == "stone"@ {
        Some(ItemKind::Stone)
    } else if value == "iron"@ {
        Some(ItemKind::Iron)
    } else {
        None
    }
}

impl ItemKind {
    /// Every kind, in slot order.
    pub fn all() -> (r: [ItemKind; 4])
        ensures
            r@ == seq![ItemKind::Food, ItemKind::Timber, ItemKind::Stone, ItemKind::Iron],
    {
        let r = [ItemKind::Food, ItemKind::Timber, ItemKind::Stone, ItemKind::Iron];
        assert(r@ =~= seq![ItemKind::Food, ItemKind::Timber, ItemKind::Stone, ItemKind::Iron]);
        r
    }

    pub fn index(self) -> (r: usize)
        ensures
            r == spec_item_index(self),
    {
        match self {
            ItemKind::Food => 0,
            ItemKind::Timber => 1,
            ItemKind::Stone => 2,
            ItemKind::Iron => 3,
        }
    }

    pub fn label(self) -> (r: &'static str)
        ensures
            r@ == spec_item_label(self),
    {
        match self {
            ItemKind::Food => "Food",
            ItemKind::Timber => "Timber",
            ItemKind::Stone => "Stone",
            ItemKind::Iron => "Iron",
        }
    }

    pub fn from_slug(value: &str) -> (r: Option<ItemKind>)
        ensures
            r == spec_item_from_slug(value@),
    {
        if str_equals(value, "food") {
            Some(ItemKind::Food)
        } else if str_equals(value, "timber") {
            Some(ItemKind::Timber)
        } else if str_equals(value, "stone") {
            Some(ItemKind::Stone)
        } else if str_equals(value, "iron") {
            Some(ItemKind::Iron)
        } else {
            None
        }
    }
}

pub open spec fn spec_total(amounts: Seq<u16>) -> int {
    amounts[0] + amounts[1] + amounts[2] + amounts[3]
}

#[derive(Clone, Copy, Debug, PartialEq, Eq)]
pub struct Inventory {
    capacity: u16,
    amounts: [u16; 4],
}

impl Inventory {
    /// The items never take more room than the capacity.
    #[verifier::type_invariant]
    spec fn within_capacity(self) -> bool {
        spec_total(self.amounts@) <= self.capacity
    }

    pub closed spec fn spec_capacity(&self) -> u16 {
        self.capacity
    }

    /// Amount held of each kind, in slot order.
    pub closed spec fn spec_amounts(&self) -> Seq<u16> {
        self.amounts@
    }

    /// One amount per item kind.
    pub proof fn lemma_one_slot_per_kind(&self)
        ensures
            self.spec_amounts().len() == 4,
    {
    }

    pub fn new(capacity: u16) -> (r: Self)
        ensures
            r.spec_capacity() == capacity,
            r.spec_amounts() == seq![0u16, 0u16, 0u16, 0u16],
    {
        let r = Inventory { capacity, amounts: [0, 0, 0, 0] };
        assert(r.amounts@ =~= seq![0u16, 0u16, 0u16, 0u16]);
        r
    }

    pub fn default_inventory() -> (r: Self)
        ensures
            r.spec_capacity() == DEFAULT_CARRYING_CAPACITY,
            r.spec_amounts() == seq![0u16, 0u16, 0u16, 0u16],
    {
        Self::new(DEFAULT_CARRYING_CAPACITY)
    }

    pub fn capacity(&self) -> (r: u16)
        ensures
            r == self.spec_capacity(),
            spec_total(self.spec_amounts()) <= r,
    {
        proof {
            use_type_invariant(self);
        }
        self.capacity
    }

    pub fn amounts(&self) -> (r: &[u16; 4])
        ensures
            r@ == self.spec_amounts(),
    {
        &self.amounts
    }

    pub fn used_capacity(&self) -> (r: u16)
        ensures
            r == spec_total(self.spec_amounts()),
    {
        proof {
            use_type_invariant(self);
        }
        self.amounts[0] + self.amounts[1] + self.amounts[2] + self.amounts[3]
    }

    pub fn remaining_capacity(&self) -> (r: u16)
        ensures
            r == self.spec_capacity() - spec_total(self.spec_amounts()),
    {
        proof {
            use_type_invariant(self);
        }
        self.capacity - self.used_capacity()
    }

    pub fn amount(&self, kind: ItemKind) -> (r: u16)
        ensures
            r == self.spec_amounts()[spec_item_index(kind)],
    {
        self.amounts[kind.index()]
    }

    /// Stores as much of `quantity` as the remaining room allows and reports how much.
    pub fn add(&mut self, kind: ItemKind, quantity: u16) -> (accepted: u16)
        ensures
            accepted == if quantity <= old(self).spec_capacity() - spec_total(old(self).spec_amounts()) {
                quantity as int
            } else {
                old(self).spec_capacity() - spec_total(old(self).spec_amounts())
            },
            final(self).spec_capacity() == old(self).spec_capacity(),
            final(self).spec_amounts() == old(self).spec_amounts().update(
                spec_item_index(kind),
                (old(self).spec_amounts()[spec_item_index(kind)] + accepted) as u16,
            ),
    {
        proof {
            use_type_invariant(&*self);
        }
        let remaining = self.remaining_capacity();
        let accepted = if quantity <= remaining { quantity } else { remaining };
        let i = kind.index();
        let mut amounts = self.amounts;
        amounts[i] = amounts[i] + accepted;
        self.amounts = amounts;
        accepted
    }

    /// Takes out as much of `quantity` as is held and reports how much.
    pub fn remove(&mut self, kind: ItemKind, quantity: u16) -> (removed: u16)
        ensures
            removed == if quantity <= old(self).spec_amounts()[spec_item_index(kind)] {
                quantity
            } else {
                old(self).spec_amounts()[spec_item_index(kind)]
            },
            final(self).spec_capacity() == old(self).spec_capacity(),
            final(self).spec_amounts() == old(self).spec_amounts().update(
                spec_item_index(kind),
                (old(self).spec_amounts()[spec_item_index(kind)] - removed) as u16,
            ),
    {
        proof {
            use_type_invariant(&*self);
        }
        let i = kind.index();
        let held = self.amounts[i];
        let removed = if quantity <= held { quantity } else { held };
        let mut amounts = self.amounts;
        amounts[i] = held - removed;
        self.amounts = amounts;
        removed
    }
}

} // verus!
