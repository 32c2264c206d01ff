//! The canonical deterministic state hash: a SplitMix64-style mixer that absorbs the
//! logical state word by word.
use vstd::prelude::*;
use crate::genealogy::{Genealogy, LineageRecord};

verus! {

/// A canonical 64-bit hash of the complete logical state of a simulation.
#[derive(Clone, Copy, Debug, PartialEq, Eq, PartialOrd, Ord, Hash, Structural)]
pub struct SimulationStateHash(pub u64);

/// `value` as sixteen lower-case hexadecimal digits.
pub uninterp spec fn hex16_text(value: u64) -> Seq<char>;

/// `format!("{:016x}", value)`: the zero-padded lower-case hexadecimal form of `value`,
/// named by `hex16_text`.
#[verifier::external_body]
fn format_hex16(value: u64) -> (r: String)
    ensures
        r@ == hex16_text(value),
{
    format!("{:016x}", value)
}

impl SimulationStateHash {
    /// The hash as sixteen hexadecimal digits.
    pub fn to_text(&self) -> (r: String)
        ensures
            r@ == hex16_text(self.0),
    {
        format_hex16(self.0)
    }
}

pub const HASH_VERSION: u64 = 1;
pub const TAG_META: u8 = 1;
pub const TAG_GRID: u8 = 2;
pub const TAG_ENTITY: u8 = 3;
pub const TAG_HOUSEHOLD: u8 = 4;
pub const TAG_GENEALOGY: u8 = 5;
pub const TAG_EVENT: u8 = 6;

/// The SplitMix64 finalizer.
#[verifier::opaque]
pub open spec fn spec_mix64(value: u64) -> u64 {
    let a = value ^ (value >> 30u64);
    let b = vstd::wrapping::u64_specs::wrapping_mul(a, 0xbf58_476d_1ce4_e5b9);
    let c = b ^ (b >> 27u64);
    let d = vstd::wrapping::u64_specs::wrapping_mul(c, 0x94d0_49bb_1331_11eb);
    d ^ (d >> 31u64)
}

fn mix64(value: u64) -> (r: u64)
    ensures
        r == spec_mix64(value),
{
    reveal(spec_mix64);
    let mut v = value;
    v = v ^ (v >> 30);
    v = v.wrapping_mul(0xbf58_476d_1ce4_e5b9);
    v = v ^ (v >> 27);
    v = v.wrapping_mul(0x94d0_49bb_1331_11eb);
    v ^ (v >> 31)
}

/// The state after absorbing one word.
pub open spec fn absorb(state: u64, word: u64) -> u64 {
    spec_mix64(state ^ vstd::wrapping::u64_specs::wrapping_mul(word, 0x9e37_79b9_7f4a_7c15))
}

/// The state after absorbing `words` in order.
pub open spec fn absorb_all(state: u64, words: Seq<u64>) -> u64
    decreases words.len(),
{
    if words.len() == 0 {
        state
    } else {
        absorb(absorb_all(state, words.drop_last()), words.last())
    }
}

pub const INITIAL_STATE: u64 = 0xcbf2_9ce4_8422_2325;

/// The words an optional `u32` contributes: a presence flag, then the value.
pub open spec fn opt_u32_words(value: Option<u32>) -> Seq<u64> {
    match value {
        Some(v) => seq![1u64, v as u64],
        None => seq![0u64],
    }
}

/// The words an optional `u64` contributes: a presence flag, then the value.
pub open spec fn opt_u64_words(value: Option<u64>) -> Seq<u64> {
    match value {
        Some(v) => seq![1u64, v],
        None => seq![0u64],
    }
}

/// Deterministic 64-bit state hasher.
pub struct StateHasher {
    state: u64,
}

impl StateHasher {
    pub closed spec fn spec_state(&self) -> u64 {
        self.state
    }

    pub fn new() -> (r: Self)
        ensures
            r.spec_state() == INITIAL_STATE,
    {
        StateHasher { state: INITIAL_STATE }
    }

    pub fn write_u64(&mut self, val: u64)
        ensures
            final(self).spec_state() == absorb(old(self).spec_state(), val),
    {
        self.state = mix64(self.state ^ val.wrapping_mul(0x9e37_79b9_7f4a_7c15));
    }

    pub fn write_u32(&mut self, val: u32)
        ensures
            final(self).spec_state() == absorb(old(self).spec_state(), val as u64),
    {
        self.write_u64(val as u64);
    }

    pub fn write_u16(&mut self, val: u16)
        ensures
            final(self).spec_state() == absorb(old(self).spec_state(), val as u64),
    {
        self.write_u64(val as u64);
    }

    pub fn write_usize(&mut self, val: usize)
        ensures
            final(self).spec_state() == absorb(old(self).spec_state(), val as u64),
    {
        self.write_u64(val as u64);
    }

    pub fn write_u8(&mut self, val: u8)
        ensures
            final(self).spec_state() == absorb(old(self).spec_state(), val as u64),
    {
        self.write_u64(val as u64);
    }

    /// Absorbs the two's-complement bits of `val`, zero-extended.
    pub fn write_i16(&mut self, val: i16)
        ensures
            final(self).spec_state() == absorb(old(self).spec_state(), (val as u16) as u64),
    {
        self.write_u64(val as u16 as u64);
    }

    pub fn write_bool(&mut self, val: bool)
        ensures
            final(self).spec_state() == absorb(old(self).spec_state(), if val { 1u64 } else { 0u64 }),
    {
        self.write_u64(if val { 1 } else { 0 });
    }

    pub fn write_opt_u32(&mut self, val: Option<u32>)
        ensures
            final(self).spec_state() == absorb_all(old(self).spec_state(), opt_u32_words(val)),
    {
        let ghost start = self.state;
        match val {
            Some(v) => {
                self.write_bool(true);
                self.write_u32(v);
                proof {
                    lemma_absorb_two(start, 1u64, v as u64);
                }
            },
            None => {
                self.write_bool(false);
                proof {
                    lemma_absorb_one(start, 0u64);
                }
            },
        }
    }

    pub fn write_opt_u64(&mut self, val: Option<u64>)
        ensures
            final(self).spec_state() == absorb_all(old(self).spec_state(), opt_u64_words(val)),
    {
        let ghost start = self.state;
        match val {
            Some(v) => {
                self.write_bool(true);
                self.write_u64(v);
                proof {
                    lemma_absorb_two(start, 1u64, v);
                }
            },
            None => {
                self.write_bool(false);
                proof {
                    lemma_absorb_one(start, 0u64);
                }
            },
        }
    }

    pub fn finish(self) -> (r: SimulationStateHash)
        ensures
            r.0 == self.spec_state(),
    {
        SimulationStateHash(self.state)
    }
}

proof fn lemma_absorb_one(state: u64, w: u64)
    ensures
        absorb_all(state, seq![w]) == absorb(state, w),
{
    assert(seq![w].drop_last() =~= Seq::<u64>::empty());
    assert(seq![w].last() == w);
    assert(absorb_all(state, Seq::<u64>::empty()) == state);
    assert(absorb_all(state, seq![w]) == absorb(absorb_all(state, seq![w].drop_last()), w));
}

proof fn lemma_absorb_two(state: u64, a: u64, b: u64)
    ensures
        absorb_all(state, seq![a, b]) == absorb(absorb(state, a), b),
{
    assert(seq![a, b].drop_last() =~= seq![a]);
    assert(seq![a, b].last() == b);
    lemma_absorb_one(state, a);
}

/// One more record absorbed extends the absorbed record list.
proof fn lemma_record_step(
    after_len: u64,
    prefix: Seq<LineageRecord>,
    record: LineageRecord,
    before: u64,
    after: u64,
)
    requires
        before == absorb_all(after_len, records_words(prefix)),
        after == absorb_all(before, record_words(record)),
    ensures
        after == absorb_all(after_len, records_words(prefix.push(record))),
{
    assert(prefix.push(record).drop_last() =~= prefix);
    assert(records_words(prefix.push(record)) == records_words(prefix) + record_words(record));
    lemma_absorb_concat(after_len, records_words(prefix), record_words(record));
}

/// Absorbing `a` and then `b` is absorbing their concatenation.
pub proof fn lemma_absorb_concat(state: u64, a: Seq<u64>, b: Seq<u64>)
    ensures
        absorb_all(absorb_all(state, a), b) == absorb_all(state, a + b),
    decreases b.len(),
{
    if b.len() == 0 {
        assert(a + b =~= a);
    } else {
        lemma_absorb_concat(state, a, b.drop_last());
        assert((a + b).drop_last() =~= a + b.drop_last());
    }
}

/// The words one lineage record contributes.
pub open spec fn record_words(record: LineageRecord) -> Seq<u64> {
    seq![record.entity_id as u64] + opt_u32_words(record.mother_id) + opt_u32_words(record.father_id)
}

/// The words a list of lineage records contributes, record by record.
pub open spec fn records_words(records: Seq<LineageRecord>) -> Seq<u64>
    decreases records.len(),
{
    if records.len() == 0 {
        Seq::empty()
    } else {
        records_words(records.drop_last()) + record_words(records.last())
    }
}

/// The words a genealogy contributes: its record count, then every record in order.
pub open spec fn genealogy_words(records: Seq<LineageRecord>) -> Seq<u64> {
    seq![records.len() as u64] + records_words(records)
}

/// Absorbs the genealogy: its record count, then each record's id and optional parents.
pub fn hash_genealogy(genealogy: &Genealogy, hasher: &mut StateHasher)
    ensures
        final(hasher).spec_state() == absorb_all(old(hasher).spec_state(), genealogy_words(genealogy.spec_records())),
{
    let records = genealogy.records();
    let ghost start = hasher.spec_state();
    hasher.write_usize(records.len());
    proof {
        lemma_absorb_one(start, records@.len() as u64);
    }
    let ghost after_len = hasher.spec_state();
    let mut i: usize = 0;
    while i < records.len()
        invariant
            0 <= i <= records@.len(),
            after_len == absorb_all(start, seq![records@.len() as u64]),
            hasher.spec_state() == absorb_all(after_len, records_words(records@.subrange(0, i as int))),
        decreases records@.len() - i,
    {
        let record = records[i];
        let ghost before = hasher.spec_state();
        hasher.write_u32(record.entity_id);
        hasher.write_opt_u32(record.mother_id);
        hasher.write_opt_u32(record.father_id);
        proof {
            lemma_absorb_one(before, record.entity_id as u64);
            lemma_absorb_concat(before, seq![record.entity_id as u64], opt_u32_words(record.mother_id));
            lemma_absorb_concat(
                before,
                seq![record.entity_id as u64] + opt_u32_words(record.mother_id),
                opt_u32_words(record.father_id),
            );
            assert(records@.subrange(0, i + 1) =~= records@.subrange(0, i as int).push(record));
            lemma_record_step(after_len, records@.subrange(0, i as int), record, before, hasher.spec_state());
        }
        i += 1;
    }
    proof {
        assert(records@.subrange(0, records@.len() as int) =~= records@);
        lemma_absorb_concat(start, seq![records@.len() as u64], records_words(records@));
    }
}

} // verus!
