//! Append-only biological lineage for every entity ever created, with an index from
//! each parent to its children.
use vstd::prelude::*;

verus! {

#[derive(Clone, Copy, Debug, PartialEq, Eq, Structural)]
pub struct LineageRecord {
    pub entity_id: u32,
    pub mother_id: Option<u32>,
    pub father_id: Option<u32>,
}

/// `parent_id` is the mother or the father of `record`.
pub open spec fn has_parent(record: LineageRecord, parent_id: u32) -> bool {
    record.mother_id == Some(parent_id) || record.father_id == Some(parent_id)
}

/// The ids of the records that name `parent_id` as a parent, in registration order.
pub open spec fn spec_children(records: Seq<LineageRecord>, parent_id: u32) -> Seq<u32>
    decreases records.len(),
{
    if records.len() == 0 {
        Seq::empty()
    } else {
        let rest = spec_children(records.drop_last(), parent_id);
        if has_parent(records.last(), parent_id) {
            rest.push(records.last().entity_id)
        } else {
            rest
        }
    }
}

/// Records are listed in strictly increasing entity-id order.
pub open spec fn ids_increasing(records: Seq<LineageRecord>) -> bool {
    forall|i: int, j: int| 0 <= i < j < records.len() ==> records[i].entity_id < records[j].entity_id
}

/// The children filed under one parent.
struct ChildList {
    parent_id: u32,
    child_ids: Vec<u32>,
}

/// The children filed under `parent_id`, or none when it has no entry.
spec fn lookup(index: Seq<ChildList>, parent_id: u32) -> Seq<u32> {
    if exists|i: int| 0 <= i < index.len() && #[trigger] index[i].parent_id == parent_id {
        let i = choose|i: int| 0 <= i < index.len() && #[trigger] index[i].parent_id == parent_id;
        index[i].child_ids@
    } else {
        Seq::empty()
    }
}

spec fn keys_increasing(index: Seq<ChildList>) -> bool {
    forall|i: int, j: int| 0 <= i < j < index.len() ==> index[i].parent_id < index[j].parent_id
}

proof fn lemma_lookup_at(index: Seq<ChildList>, i: int)
    requires
        keys_increasing(index),
        0 <= i < index.len(),
    ensures
        lookup(index, index[i].parent_id) == index[i].child_ids@,
{
    let k = choose|k: int| 0 <= k < index.len() && #[trigger] index[k].parent_id == index[i].parent_id;
    if k != i {
        assert(index[k].parent_id != index[i].parent_id);
    }
}

pub struct Genealogy {
    records: Vec<LineageRecord>,
    /// Parent id -> child ids in registration order, keyed in increasing parent order.
    children: Vec<ChildList>,
}

/// Whether the parent index holds `p`, and where it is or would go.
fn index_position(index: &Vec<ChildList>, parent_id: u32) -> (r: Result<usize, usize>)
    requires
        keys_increasing(index@),
    ensures
        r matches Ok(i) ==> i < index@.len() && index@[i as int].parent_id == parent_id,
        r matches Err(i) ==> i <= index@.len() && (forall|j: int| 0 <= j < i ==> index@[j].parent_id < parent_id)
            && (forall|j: int| i <= j < index@.len() ==> index@[j].parent_id > parent_id),
{
    let mut lo: usize = 0;
    let mut hi: usize = index.len();
    while lo < hi
        invariant
            keys_increasing(index@),
            0 <= lo <= hi <= index@.len(),
            forall|j: int| 0 <= j < lo ==> index@[j].parent_id < parent_id,
            forall|j: int| hi <= j < index@.len() ==> index@[j].parent_id > parent_id,
        decreases hi - lo,
    {
        let mid = lo + (hi - lo) / 2;
        let v = index[mid].parent_id;
        if v == parent_id {
            return Ok(mid);
        } else if v < parent_id {
            lo = mid + 1;
        } else {
            hi = mid;
        }
    }
    Err(lo)
}

/// Files `child_id` after the children already filed under `parent_id`.
fn add_child(index: &mut Vec<ChildList>, parent_id: u32, child_id: u32)
    requires
        keys_increasing(old(index)@),
    ensures
        keys_increasing(final(index)@),
        forall|q: u32| #[trigger] lookup(final(index)@, q) == if q == parent_id {
            lookup(old(index)@, q).push(child_id)
        } else {
            lookup(old(index)@, q)
        },
{
    let ghost before = index@;
    match index_position(index, parent_id) {
        Ok(i) => {
            let mut entry = ChildList { parent_id, child_ids: Vec::new() };
            std::mem::swap(&mut entry, &mut index[i]);
            let ghost old_children = entry.child_ids@;
            entry.child_ids.push(child_id);
            index.set(i, entry);
            proof {
                assert(index@ == before.update(i as int, index@[i as int]));
                assert(keys_increasing(index@)) by {
                    assert forall|a: int, b: int| 0 <= a < b < index@.len() implies index@[a].parent_id
                        < index@[b].parent_id by {
                        if a != i as int {
                            assert(index@[a] == before[a]);
                        }
                        if b != i as int {
                            assert(index@[b] == before[b]);
                        }
                    }
                }
                lemma_lookup_at(before, i as int);
                lemma_lookup_at(index@, i as int);
                assert forall|q: u32| #[trigger] lookup(index@, q) == if q == parent_id {
                    lookup(before, q).push(child_id)
                } else {
                    lookup(before, q)
                } by {
                    if q != parent_id {
                        if exists|k: int| 0 <= k < before.len() && #[trigger] before[k].parent_id == q {
                            let k = choose|k: int| 0 <= k < before.len() && #[trigger] before[k].parent_id == q;
                            lemma_lookup_at(before, k);
                            assert(index@[k] == before[k]);
                            lemma_lookup_at(index@, k);
                        } else {
                            assert forall|k: int| 0 <= k < index@.len() implies #[trigger] index@[k].parent_id != q by {
                                if k != i as int {
                                    assert(index@[k] == before[k]);
                                }
                            }
                        }
                    }
                }
            }
        },
        Err(i) => {
            let mut child_ids: Vec<u32> = Vec::new();
            child_ids.push(child_id);
            index.insert(i, ChildList { parent_id, child_ids });
            proof {
                assert(forall|k: int| 0 <= k < before.len() ==> before[k].parent_id != parent_id);
                assert(keys_increasing(index@)) by {
                    assert forall|a: int, b: int| 0 <= a < b < index@.len() implies index@[a].parent_id
                        < index@[b].parent_id by {
                        if a < i {
                            assert(index@[a] == before[a]);
                        } else if a > i {
                            assert(index@[a] == before[a - 1]);
                        }
                        if b < i {
                            assert(index@[b] == before[b]);
                        } else if b > i {
                            assert(index@[b] == before[b - 1]);
                        }
                    }
                }
                lemma_lookup_at(index@, i as int);
                assert(lookup(before, parent_id) == Seq::<u32>::empty());
                assert(index@[i as int].child_ids@ =~= Seq::<u32>::empty().push(child_id));
                assert forall|q: u32| #[trigger] lookup(index@, q) == if q == parent_id {
                    lookup(before, q).push(child_id)
                } else {
                    lookup(before, q)
                } by {
                    if q != parent_id {
                        if exists|k: int| 0 <= k < before.len() && #[trigger] before[k].parent_id == q {
                            let k = choose|k: int| 0 <= k < before.len() && #[trigger] before[k].parent_id == q;
                            lemma_lookup_at(before, k);
                            if k < i {
                                assert(index@[k] == before[k]);
                                lemma_lookup_at(index@, k);
                            } else {
                                assert(index@[k + 1] == before[k]);
                                lemma_lookup_at(index@, k + 1);
                            }
                        } else {
                            assert forall|k: int| 0 <= k < index@.len() implies #[trigger] index@[k].parent_id != q by {
                                if k < i {
                                    assert(index@[k] == before[k]);
                                } else if k > i {
                                    assert(index@[k] == before[k - 1]);
                                }
                            }
                        }
                    }
                }
            }
        },
    }
}

impl Genealogy {
    /// Records run in increasing id order and the index lists, for every parent, exactly
    /// the children that the records name.
    pub closed spec fn wf(&self) -> bool {
        &&& ids_increasing(self.records@)
        &&& keys_increasing(self.children@)
        &&& forall|p: u32| #[trigger] lookup(self.children@, p) == spec_children(self.records@, p)
    }

    pub closed spec fn spec_records(&self) -> Seq<LineageRecord> {
        self.records@
    }

    pub proof fn lemma_records_increasing(&self)
        requires
            self.wf(),
        ensures
            ids_increasing(self.spec_records()),
    {
    }

    pub fn new() -> (r: Self)
        ensures
            r.wf(),
            r.spec_records() == Seq::<LineageRecord>::empty(),
    {
        Genealogy { records: Vec::new(), children: Vec::new() }
    }

    /// Appends the lineage of `entity_id`, which must come after every id registered so
    /// far, and files it under each of its distinct parents.
    pub fn register(&mut self, entity_id: u32, mother_id: Option<u32>, father_id: Option<u32>)
        requires
            old(self).wf(),
            old(self).spec_records().len() == 0 || old(self).spec_records().last().entity_id < entity_id,
        ensures
            final(self).wf(),
            final(self).spec_records() == old(self).spec_records().push(
                LineageRecord { entity_id, mother_id, father_id },
            ),
    {
        let record = LineageRecord { entity_id, mother_id, father_id };
        let ghost records = self.records@;
        let ghost index = self.children@;
        let second = if father_id == mother_id {
            None
        } else {
            father_id
        };
        match mother_id {
            Some(p) => add_child(&mut self.children, p, entity_id),
            None => {},
        }
        match second {
            Some(p) => add_child(&mut self.children, p, entity_id),
            None => {},
        }
        self.records.push(record);
        proof {
            assert(self.records@.drop_last() =~= records);
            assert forall|p: u32| #[trigger] lookup(self.children@, p) == spec_children(self.records@, p) by {
                assert(spec_children(self.records@, p) == if has_parent(record, p) {
                    spec_children(records, p).push(entity_id)
                } else {
                    spec_children(records, p)
                });
            }
        }
    }

    /// The lineage record of `entity_id`, if it was registered.
    pub fn get(&self, entity_id: u32) -> (r: Option<&LineageRecord>)
        requires
            self.wf(),
        ensures
            r matches Some(record) ==> record.entity_id == entity_id && self.spec_records().contains(*record),
            r is None ==> forall|i: int| 0 <= i < self.spec_records().len() ==> #[trigger] self.spec_records()[i].entity_id
                != entity_id,
    {
        let mut lo: usize = 0;
        let mut hi: usize = self.records.len();
        while lo < hi
            invariant
                ids_increasing(self.records@),
                0 <= lo <= hi <= self.records@.len(),
                forall|j: int| 0 <= j < lo ==> self.records@[j].entity_id < entity_id,
                forall|j: int| hi <= j < self.records@.len() ==> self.records@[j].entity_id > entity_id,
            decreases hi - lo,
        {
            let mid = lo + (hi - lo) / 2;
            let v = self.records[mid].entity_id;
            if v == entity_id {
                assert(self.records@.contains(self.records@[mid as int]));
                return Some(&self.records[mid]);
            } else if v < entity_id {
                lo = mid + 1;
            } else {
                hi = mid;
            }
        }
        None
    }

    /// Every lineage record, in registration order.
    pub fn records(&self) -> (r: &[LineageRecord])
        ensures
            r@ == self.spec_records(),
    {
        self.records.as_slice()
    }

    /// Children of `parent_id` in registration order, read from the index: the ids of
    /// the records naming it as mother or father.
    pub fn children_of(&self, parent_id: u32) -> (r: &[u32])
        requires
            self.wf(),
        ensures
            r@ == spec_children(self.spec_records(), parent_id),
    {
        match index_position(&self.children, parent_id) {
            Ok(i) => {
                proof {
                    lemma_lookup_at(self.children@, i as int);
                }
                self.children[i].child_ids.as_slice()
            },
            Err(_) => {
                assert(lookup(self.children@, parent_id) == Seq::<u32>::empty());
                &[]
            },
        }
    }
}

impl Default for Genealogy {
    fn default() -> (r: Self)
        ensures
            r.wf(),
            r.spec_records() == Seq::<LineageRecord>::empty(),
    {
        Genealogy::new()
    }
}

} // verus!
