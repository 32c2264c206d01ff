use nexus_engine::genealogy::Genealogy;
use nexus_engine::state_hash::{SimulationStateHash, StateHasher, INITIAL_STATE, TAG_GENEALOGY};

fn splitmix(mut value: u64) -> u64 {
    value ^= value >> 30;
    value = value.wrapping_mul(0xbf58_476d_1ce4_e5b9);
    value ^= value >> 27;
    value = value.wrapping_mul(0x94d0_49bb_1331_11eb);
    value ^ (value >> 31)
}

fn absorb(state: u64, word: u64) -> u64 {
    splitmix(state ^ word.wrapping_mul(0x9e37_79b9_7f4a_7c15))
}

#[test]
fn state_hash_text_is_sixteen_lowercase_hex_digits() {
    assert_eq!(SimulationStateHash(0xab).to_text(), "00000000000000ab");
    assert_eq!(SimulationStateHash(u64::MAX).to_text(), "ffffffffffffffff");
    assert_eq!(SimulationStateHash(0x0123_4567_89ab_cdef).to_text(), "0123456789abcdef");
}

#[test]
fn empty_hasher_finishes_at_the_initial_state() {
    assert_eq!(StateHasher::new().finish(), SimulationStateHash(INITIAL_STATE));
}

#[test]
fn each_write_mixes_one_word() {
    let mut hasher = StateHasher::new();
    hasher.write_u64(42);
    hasher.write_u32(7);
    let expected = absorb(absorb(INITIAL_STATE, 42), 7);
    assert_eq!(hasher.finish(), SimulationStateHash(expected));
}

#[test]
fn narrow_writes_widen_to_the_same_word() {
    let mut a = StateHasher::new();
    a.write_u8(9);
    a.write_u16(9);
    a.write_usize(9);
    let mut b = StateHasher::new();
    b.write_u64(9);
    b.write_u64(9);
    b.write_u64(9);
    assert_eq!(a.finish(), b.finish());
}

#[test]
fn negative_i16_is_written_as_its_bit_pattern() {
    let mut a = StateHasher::new();
    a.write_i16(-1);
    let mut b = StateHasher::new();
    b.write_u64(0xffff);
    assert_eq!(a.finish(), b.finish());
}

#[test]
fn bool_and_options_are_tagged() {
    let mut a = StateHasher::new();
    a.write_bool(true);
    a.write_opt_u32(None);
    a.write_opt_u64(Some(5));
    let expected = absorb(absorb(absorb(absorb(INITIAL_STATE, 1), 0), 1), 5);
    assert_eq!(a.finish(), SimulationStateHash(expected));

    let mut none = StateHasher::new();
    none.write_opt_u32(None);
    let mut zero = StateHasher::new();
    zero.write_opt_u32(Some(0));
    assert_ne!(none.finish(), zero.finish());
}

#[test]
fn identical_write_sequences_hash_identically() {
    let mut a = StateHasher::new();
    let mut b = StateHasher::new();
    for value in 0..50u64 {
        a.write_u64(value * 3);
        b.write_u64(value * 3);
    }
    assert_eq!(a.finish(), b.finish());
}

#[test]
fn write_order_matters() {
    let mut a = StateHasher::new();
    a.write_u64(1);
    a.write_u64(2);
    let mut b = StateHasher::new();
    b.write_u64(2);
    b.write_u64(1);
    assert_ne!(a.finish(), b.finish());
}

#[test]
fn empty_genealogy_writes_a_zero_count() {
    let genealogy = Genealogy::new();
    let mut hasher = StateHasher::new();
    hasher.write_u8(TAG_GENEALOGY);
    nexus_engine::state_hash::hash_genealogy(&genealogy, &mut hasher);
    let mut expected = StateHasher::new();
    expected.write_u8(TAG_GENEALOGY);
    expected.write_usize(0);
    assert_eq!(hasher.finish(), expected.finish());
}

#[test]
fn genealogy_hash_absorbs_each_record() {
    let mut genealogy = Genealogy::new();
    genealogy.register(4, None, Some(2));
    let mut hasher = StateHasher::new();
    nexus_engine::state_hash::hash_genealogy(&genealogy, &mut hasher);
    let mut expected = StateHasher::new();
    expected.write_usize(1);
    expected.write_u32(4);
    expected.write_opt_u32(None);
    expected.write_opt_u32(Some(2));
    assert_eq!(hasher.finish(), expected.finish());
    let words = [1u64, 4, 0, 1, 2];
    let state = words.iter().fold(INITIAL_STATE, |state, word| absorb(state, *word));
    assert_eq!(expected_state(&genealogy), SimulationStateHash(state));
}

fn expected_state(genealogy: &Genealogy) -> SimulationStateHash {
    let mut hasher = StateHasher::new();
    nexus_engine::state_hash::hash_genealogy(genealogy, &mut hasher);
    hasher.finish()
}

#[test]
fn genealogy_hash_depends_on_parents() {
    let mut first = Genealogy::new();
    first.register(1, None, None);
    first.register(2, None, None);
    first.register(3, Some(1), Some(2));
    let mut second = Genealogy::new();
    second.register(1, None, None);
    second.register(2, None, None);
    second.register(3, Some(2), Some(1));

    let mut a = StateHasher::new();
    nexus_engine::state_hash::hash_genealogy(&first, &mut a);
    let mut b = StateHasher::new();
    nexus_engine::state_hash::hash_genealogy(&second, &mut b);
    assert_ne!(a.finish(), b.finish());
}
