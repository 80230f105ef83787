use simd_table::commons::EMPTY;
use simd_table::key::Key;
use simd_table::simdmap::SimdTable;

fn start_group(t: &SimdTable<u64, u64>, k: u64) -> usize {
    let (h1, _) = t.hash_split(t.hash(&k));
    t.start_probe(h1)
}

fn tag(t: &SimdTable<u64, u64>, k: u64) -> u8 {
    t.hash_split(t.hash(&k)).1
}

fn keys_starting_at(t: &SimdTable<u64, u64>, group: usize, count: usize) -> Vec<u64> {
    let mut keys = Vec::new();
    let mut k: u64 = 0;
    while keys.len() < count {
        if start_group(t, k) == group {
            keys.push(k);
        }
        k += 1;
    }
    keys
}

fn occupied_slots(t: &SimdTable<u64, u64>) -> Vec<(usize, usize, u8)> {
    let mut slots = Vec::new();
    for g in 0..t.group_count() {
        for j in 0..8 {
            let byte = t.control_byte(g, j).unwrap();
            if byte != EMPTY {
                slots.push((g, j, byte));
            }
        }
    }
    slots
}

#[test]
fn string_keys_scenario() {
    let mut t: SimdTable<String, &str> = SimdTable::new(10);
    t.insert("hello".to_string(), "world");
    t.insert("hello2".to_string(), "world2");
    assert_eq!(t.get(&"hello".to_string()), Some(&"world"));
    assert_eq!(t.get(&"hello2".to_string()), Some(&"world2"));
    assert_eq!(t.get(&"bye".to_string()), None);
    t.insert("hello".to_string(), "WORLD");
    assert_eq!(t.get(&"hello".to_string()), Some(&"WORLD"));
    assert_eq!(t.get(&"hello2".to_string()), Some(&"world2"));
}

#[test]
fn five_entries_inserted_then_replaced() {
    let mut t: SimdTable<String, String> = SimdTable::new(10);
    for i in 0..5 {
        t.insert(format!("hello{}", i), format!("world{}", i));
    }
    for i in 0..5 {
        assert_eq!(t.get(&format!("hello{}", i)), Some(&format!("world{}", i)));
    }
    for i in 0..5 {
        t.insert(format!("hello{}", i), format!("world{} bye", i));
    }
    for i in 0..5 {
        assert_eq!(t.get(&format!("hello{}", i)), Some(&format!("world{} bye", i)));
    }
}

#[test]
fn capacity_is_rounded_up_to_whole_groups() {
    assert_eq!(SimdTable::<u64, u64>::new(10).group_count(), 2);
    assert_eq!(SimdTable::<u64, u64>::new(8).group_count(), 1);
    assert_eq!(SimdTable::<u64, u64>::new(9).group_count(), 2);
    assert_eq!(SimdTable::<u64, u64>::new(16).group_count(), 2);
    assert_eq!(SimdTable::<u64, u64>::new(17).group_count(), 3);
    assert_eq!(SimdTable::<u64, u64>::new(1).group_count(), 1);
}

#[test]
fn zero_capacity_gives_one_usable_group() {
    let mut t: SimdTable<u64, u64> = SimdTable::new(0);
    assert_eq!(t.group_count(), 1);
    assert_eq!(t.get(&7), None);
    t.insert(7, 70);
    assert_eq!(t.get(&7), Some(&70));
    for k in 0..7 {
        t.insert(100 + k, k);
    }
    for k in 0..7 {
        assert_eq!(t.get(&(100 + k)), Some(&k));
    }
}

#[test]
fn new_table_has_every_slot_free() {
    let t: SimdTable<u64, u64> = SimdTable::new(10);
    for g in 0..2 {
        for j in 0..8 {
            assert_eq!(t.control_byte(g, j), Some(EMPTY));
        }
    }
    assert_eq!(t.control_byte(2, 0), None);
    assert_eq!(t.control_byte(0, 8), None);
    assert!(occupied_slots(&t).is_empty());
}

#[test]
fn every_entry_of_a_table_with_room_is_found() {
    let mut t: SimdTable<u64, u64> = SimdTable::new(64);
    for k in 0..64u64 {
        t.insert(k, k * 3 + 1);
        assert_eq!(t.get(&k), Some(&(k * 3 + 1)));
    }
    for k in 0..64u64 {
        assert_eq!(t.get(&k), Some(&(k * 3 + 1)));
    }
    assert_eq!(occupied_slots(&t).len(), 64);
}

#[test]
fn first_entry_lands_in_lane_zero_of_its_start_group() {
    let mut t: SimdTable<u64, u64> = SimdTable::new(24);
    let g = start_group(&t, 42);
    let h2 = tag(&t, 42);
    t.insert(42, 1);
    assert_eq!(occupied_slots(&t), vec![(g, 0, h2)]);
}

#[test]
fn update_keeps_slot_and_control_byte() {
    let mut t: SimdTable<u64, u64> = SimdTable::new(16);
    for k in 0..10u64 {
        t.insert(k, k);
    }
    let before = occupied_slots(&t);
    assert_eq!(before.len(), 10);
    t.insert(4, 400);
    assert_eq!(occupied_slots(&t), before);
    assert_eq!(t.get(&4), Some(&400));
    for k in 0..10u64 {
        if k != 4 {
            assert_eq!(t.get(&k), Some(&k));
        }
    }
}

#[test]
fn missing_key_with_a_stored_tag_is_not_found() {
    let mut t: SimdTable<u64, u64> = SimdTable::new(8);
    t.insert(0, 1);
    let h2 = tag(&t, 0);
    let mut other: u64 = 1;
    while tag(&t, other) != h2 {
        other += 1;
    }
    assert_eq!(t.get(&other), None);
    assert_eq!(t.get(&0), Some(&1));
}

#[test]
fn keys_with_equal_tags_are_both_found() {
    let mut t: SimdTable<u64, u64> = SimdTable::new(16);
    let h2 = tag(&t, 0);
    let mut other: u64 = 1;
    while tag(&t, other) != h2 {
        other += 1;
    }
    assert_ne!(t.hash(&0), t.hash(&other));
    t.insert(0, 10);
    t.insert(other, 20);
    assert_eq!(t.get(&0), Some(&10));
    assert_eq!(t.get(&other), Some(&20));
    let slots = occupied_slots(&t);
    assert_eq!(slots.len(), 2);
    assert_eq!(slots[0].2, h2);
    assert_eq!(slots[1].2, h2);
}

#[test]
fn probe_wraps_round_to_the_first_group() {
    let mut t: SimdTable<u64, u64> = SimdTable::new(24);
    assert_eq!(t.group_count(), 3);
    let keys = keys_starting_at(&t, 2, 10);
    for (i, k) in keys.iter().enumerate() {
        t.insert(*k, i as u64);
    }
    for j in 0..8 {
        assert_eq!(t.control_byte(2, j), Some(tag(&t, keys[j])));
    }
    assert_eq!(t.control_byte(0, 0), Some(tag(&t, keys[8])));
    assert_eq!(t.control_byte(0, 1), Some(tag(&t, keys[9])));
    assert_eq!(t.control_byte(0, 2), Some(EMPTY));
    for j in 0..8 {
        assert_eq!(t.control_byte(1, j), Some(EMPTY));
    }
    for (i, k) in keys.iter().enumerate() {
        assert_eq!(t.get(k), Some(&(i as u64)));
    }
}

#[test]
fn new_key_is_dropped_when_no_slot_is_free() {
    let mut t: SimdTable<u64, u64> = SimdTable::new(8);
    for k in 0..8u64 {
        t.insert(k, k + 100);
    }
    let before = occupied_slots(&t);
    assert_eq!(before.len(), 8);
    t.insert(8, 108);
    assert_eq!(t.get(&8), None);
    assert_eq!(occupied_slots(&t), before);
    for k in 0..8u64 {
        assert_eq!(t.get(&k), Some(&(k + 100)));
    }
}

#[test]
fn stored_key_is_updated_when_no_slot_is_free() {
    let mut t: SimdTable<u64, u64> = SimdTable::new(16);
    for k in 0..16u64 {
        t.insert(k, k);
    }
    t.insert(99, 99);
    assert_eq!(t.get(&99), None);
    for k in 0..16u64 {
        t.insert(k, k + 1000);
    }
    for k in 0..16u64 {
        assert_eq!(t.get(&k), Some(&(k + 1000)));
    }
}

#[test]
fn digest_of_a_key_does_not_change() {
    let t: SimdTable<String, u64> = SimdTable::new(8);
    let a = "hello".to_string();
    let b = "hello".to_string();
    assert_eq!(a.digest(), b.digest());
    assert_eq!(t.hash(&a), a.digest());
    assert_eq!(7u64.digest(), 7u64.digest());
    assert_ne!(7u64.digest(), 8u64.digest());
}

#[test]
fn keys_are_the_same_when_equal() {
    assert!("hello".to_string().same(&"hello".to_string()));
    assert!(!"hello".to_string().same(&"hello2".to_string()));
    assert!(5u64.same(&5u64));
    assert!(!5u64.same(&6u64));
}
