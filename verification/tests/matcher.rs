use std::collections::hash_map::DefaultHasher;
use std::hash::Hasher;

use simd_table::commons::Group;
use simd_table::commons::DELETED;
use simd_table::commons::EMPTY;
use simd_table::commons::MASK_DATA;
use simd_table::commons::MASK_EXISTS;
use simd_table::commons::MASK_H1;
use simd_table::commons::MASK_H2;
use simd_table::key::Key;
use simd_table::simdmap::SimdTable;

#[test]
fn control_byte_constants() {
    assert_eq!(EMPTY, 0x80);
    assert_eq!(DELETED, 0xFE);
    assert_eq!(MASK_EXISTS, 0x80);
    assert_eq!(MASK_DATA, 0x7F);
    assert_eq!(MASK_H1, 0xFFFF_FFFF_FFFF_FF80);
    assert_eq!(MASK_H2, 0x7F);
}

#[test]
fn hash_split_takes_upper_57_and_lower_7_bits() {
    let t: SimdTable<u64, u64> = SimdTable::new(8);
    assert_eq!(t.hash_split(0), (0, 0));
    assert_eq!(t.hash_split(0x7F), (0, 0x7F));
    assert_eq!(t.hash_split(0x80), (1, 0));
    assert_eq!(t.hash_split(0x1234), (0x24, 0x34));
    assert_eq!(t.hash_split(u64::MAX), (0x01FF_FFFF_FFFF_FFFF, 0x7F));
    assert_eq!(t.hash_split(0xFFFF_FFFF_FFFF_FF80), (0x01FF_FFFF_FFFF_FFFF, 0));
}

#[test]
fn start_probe_is_h1_modulo_group_count() {
    let t: SimdTable<u64, u64> = SimdTable::new(24);
    assert_eq!(t.start_probe(0), 0);
    assert_eq!(t.start_probe(1), 1);
    assert_eq!(t.start_probe(2), 2);
    assert_eq!(t.start_probe(3), 0);
    assert_eq!(t.start_probe(100), 1);
    assert_eq!(t.start_probe(0x01FF_FFFF_FFFF_FFFF), 1);
    let one: SimdTable<u64, u64> = SimdTable::new(0);
    assert_eq!(one.start_probe(12345), 0);
}

#[test]
fn match_h2_compares_every_lane() {
    let ctrl = [5, EMPTY, 5, 0, 0x7F, DELETED, 6, 5];
    assert_eq!(
        SimdTable::<u64, u64>::match_h2(&ctrl, 5),
        [true, false, true, false, false, false, false, true]
    );
    assert_eq!(
        SimdTable::<u64, u64>::match_h2(&ctrl, 0x7F),
        [false, false, false, false, true, false, false, false]
    );
    assert_eq!(SimdTable::<u64, u64>::match_h2(&ctrl, 9), [false; 8]);
}

#[test]
fn tag_zero_does_not_match_a_free_slot() {
    let ctrl = [EMPTY; 8];
    assert_eq!(SimdTable::<u64, u64>::match_h2(&ctrl, 0), [false; 8]);
    let mixed = [0, EMPTY, 0, EMPTY, 1, EMPTY, EMPTY, EMPTY];
    assert_eq!(
        SimdTable::<u64, u64>::match_h2(&mixed, 0),
        [true, false, true, false, false, false, false, false]
    );
}

#[test]
fn empty_meta_marks_lanes_with_the_high_bit_set() {
    let ctrl = [5, EMPTY, 0, 0x7F, EMPTY, 1, 2, EMPTY];
    assert_eq!(
        SimdTable::<u64, u64>::empty_meta(&ctrl),
        [false, true, false, false, true, false, false, true]
    );
    assert_eq!(SimdTable::<u64, u64>::empty_meta(&[EMPTY; 8]), [true; 8]);
    assert_eq!(SimdTable::<u64, u64>::empty_meta(&[0x7F; 8]), [false; 8]);
}

#[test]
fn string_digest_is_the_standard_hash_of_its_bytes() {
    let mut hasher = DefaultHasher::new();
    hasher.write(b"hello");
    assert_eq!("hello".to_string().digest(), hasher.finish());
    let mut empty = DefaultHasher::new();
    empty.write(b"");
    assert_eq!(String::new().digest(), empty.finish());
}

#[test]
fn integer_digest_is_the_standard_hash_of_its_little_endian_bytes() {
    let mut hasher = DefaultHasher::new();
    hasher.write(&[0x08, 0x07, 0x06, 0x05, 0x04, 0x03, 0x02, 0x01]);
    assert_eq!(0x0102_0304_0506_0708u64.digest(), hasher.finish());
}

#[test]
fn group_holds_eight_lanes_of_keys_and_values() {
    let group: Group<u64, &str> = Group {
        keys: [Some(1), None, None, None, None, None, None, Some(8)],
        values: [Some("a"), None, None, None, None, None, None, Some("h")],
    };
    let copy = group.clone();
    assert_eq!(copy.keys, group.keys);
    assert_eq!(copy.values, group.values);
    assert_eq!(copy.keys.len(), 8);
}
