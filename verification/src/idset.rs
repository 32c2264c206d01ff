//! A set of entity ids kept as a strictly increasing list, searched by bisection.
use vstd::prelude::*;

verus! {

/// `ids` is strictly increasing.
pub open spec fn strictly_increasing(ids: Seq<u32>) -> bool {
    forall|i: int, j: int| 0 <= i < j < ids.len() ==> ids[i] < ids[j]
}

pub struct IdSet {
    ids: Vec<u32>,
}

impl View for IdSet {
    type V = Seq<u32>;

    closed spec fn view(&self) -> Seq<u32> {
        self.ids@
    }
}

impl IdSet {
    /// The ids are held in strictly increasing order.
    pub closed spec fn wf(&self) -> bool {
        strictly_increasing(self.ids@)
    }

    pub proof fn lemma_increasing(&self)
        requires
            self.wf(),
        ensures
            strictly_increasing(self@),
            self@.no_duplicates(),
    {
    }

    pub fn new() -> (r: Self)
        ensures
            r.wf(),
            r@ == Seq::<u32>::empty(),
    {
        IdSet { ids: Vec::new() }
    }

    pub fn len(&self) -> (r: usize)
        ensures
            r == self@.len(),
    {
        self.ids.len()
    }

    /// The `index`-th smallest id.
    pub fn get(&self, index: usize) -> (r: u32)
        requires
            index < self@.len(),
        ensures
            r == self@[index as int],
    {
        self.ids[index]
    }

    /// Where `id` is, or where it would go.
    fn position(&self, id: u32) -> (r: Result<usize, usize>)
        requires
            self.wf(),
        ensures
            r matches Ok(i) ==> i < self@.len() && self@[i as int] == id,
            r matches Err(i) ==> i <= self@.len() && !self@.contains(id) && (forall|j: int|
                0 <= j < i ==> self@[j] < id) && (forall|j: int| i <= j < self@.len() ==> self@[j] > id),
    {
        let mut lo: usize = 0;
        let mut hi: usize = self.ids.len();
        while lo < hi
            invariant
                strictly_increasing(self.ids@),
                0 <= lo <= hi <= self.ids@.len(),
                forall|j: int| 0 <= j < lo ==> self.ids@[j] < id,
                forall|j: int| hi <= j < self.ids@.len() ==> self.ids@[j] > id,
            decreases hi - lo,
        {
            let mid = lo + (hi - lo) / 2;
            let v = self.ids[mid];
            if v == id {
                return Ok(mid);
            } else if v < id {
                lo = mid + 1;
            } else {
                hi = mid;
            }
        }
        Err(lo)
    }

    pub fn contains(&self, id: u32) -> (r: bool)
        requires
            self.wf(),
        ensures
            r == self@.contains(id),
    {
        match self.position(id) {
            Ok(_) => true,
            Err(_) => false,
        }
    }

    /// Adds `id`; reports whether it was new.
    pub fn insert(&mut self, id: u32) -> (inserted: bool)
        requires
            old(self).wf(),
        ensures
            final(self).wf(),
            inserted == !old(self)@.contains(id),
            forall|v: u32| #[trigger] final(self)@.contains(v) <==> (old(self)@.contains(v) || v == id),
            inserted ==> final(self)@.len() == old(self)@.len() + 1,
            !inserted ==> final(self)@ == old(self)@,
    {
        match self.position(id) {
            Ok(_) => false,
            Err(i) => {
                let ghost before = self.ids@;
                self.ids.insert(i, id);
                proof {
                    assert forall|a: int, b: int| 0 <= a < b < self.ids@.len() implies self.ids@[a]
                        < self.ids@[b] by {
                        if b < i {
                            assert(self.ids@[a] == before[a]);
                        } else if a < i && b == i {
                            assert(self.ids@[a] == before[a]);
                        } else if a < i {
                            assert(self.ids@[a] == before[a]);
                            assert(self.ids@[b] == before[b - 1]);
                        } else if a == i {
                            assert(self.ids@[b] == before[b - 1]);
                        } else {
                            assert(self.ids@[a] == before[a - 1]);
                            assert(self.ids@[b] == before[b - 1]);
                        }
                    }
                    assert forall|v: u32| #[trigger] self.ids@.contains(v) <==> (before.contains(v) || v == id) by {
                        if self.ids@.contains(v) {
                            let k = choose|k: int| 0 <= k < self.ids@.len() && self.ids@[k] == v;
                            if k < i {
                                assert(before[k] == v);
                            } else if k > i {
                                assert(before[k - 1] == v);
                            }
                        }
                        if before.contains(v) {
                            let k = choose|k: int| 0 <= k < before.len() && before[k] == v;
                            if k < i {
                                assert(self.ids@[k] == v);
                            } else {
                                assert(self.ids@[k + 1] == v);
                            }
                        }
                        if v == id {
                            assert(self.ids@[i as int] == v);
                        }
                    }
                }
                true
            },
        }
    }
}

} // verus!
