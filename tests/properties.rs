use hash_table::table::{HashTable, INITIAL_CAPACITY};

#[test]
fn new_table_is_empty() {
    let table: HashTable<u64, u64> = HashTable::new();
    assert_eq!(table.size(), 0);
    assert_eq!(table.capacity(), INITIAL_CAPACITY);
    assert_eq!(table.capacity(), 16);
    for k in 0..100u64 {
        assert_eq!(table.get(&k), None);
    }
}

#[test]
fn distinct_keys_round_trip_in_any_order() {
    let mut forward: HashTable<i64, i64> = HashTable::new();
    let mut backward: HashTable<i64, i64> = HashTable::new();
    for k in 0..200i64 {
        forward.insert(k * 7 - 500, k);
    }
    for k in (0..200i64).rev() {
        backward.insert(k * 7 - 500, k);
    }
    for k in 0..200i64 {
        assert_eq!(forward.get(&(k * 7 - 500)), Some(&k));
        assert_eq!(backward.get(&(k * 7 - 500)), Some(&k));
    }
    assert_eq!(forward.size(), 200);
    assert_eq!(backward.size(), 200);
}

#[test]
fn overwrite_keeps_size_and_takes_new_value() {
    let mut table: HashTable<&str, i32> = HashTable::new();
    table.insert("k", 1);
    assert_eq!(table.size(), 1);
    table.insert("k", 2);
    assert_eq!(table.size(), 1);
    assert_eq!(table.get(&"k"), Some(&2));
}

#[test]
fn absent_key_changes_nothing() {
    let mut table: HashTable<u32, u32> = HashTable::new();
    table.insert(1, 10);
    table.insert(2, 20);
    assert_eq!(table.get(&3), None);
    assert_eq!(table.remove(&3), None);
    assert_eq!(table.size(), 2);
    assert_eq!(table.remove(&1), Some(10));
    assert_eq!(table.remove(&1), None);
    assert_eq!(table.get(&1), None);
    assert_eq!(table.size(), 1);
}

#[test]
fn size_counts_live_keys() {
    let mut table: HashTable<i32, i32> = HashTable::new();
    for k in 0..40 {
        table.insert(k, k);
    }
    for k in 0..40 {
        if k % 3 == 0 {
            assert_eq!(table.remove(&k), Some(k));
        }
    }
    // 0, 3, ..., 39: fourteen keys removed
    assert_eq!(table.size(), 26);
    for k in 0..10 {
        table.insert(k, -k);
    }
    // 0, 3, 6, 9 come back
    assert_eq!(table.size(), 30);
    for k in 0..40 {
        let expected = if k < 10 {
            Some(-k)
        } else if k % 3 == 0 {
            None
        } else {
            Some(k)
        };
        assert_eq!(table.get(&k).copied(), expected);
    }
}

#[test]
fn growth_doubles_before_the_slot_is_taken() {
    let mut table: HashTable<u64, u64> = HashTable::new();
    for k in 0..8u64 {
        table.insert(k, k);
    }
    // 8 entries in 16 slots: no growth yet
    assert_eq!(table.capacity(), 16);
    table.insert(8, 8);
    assert_eq!(table.capacity(), 32);
    // overwriting never grows
    let mut full: HashTable<u64, u64> = HashTable::new();
    for k in 0..8u64 {
        full.insert(k, k);
    }
    full.insert(3, 30);
    assert_eq!(full.capacity(), 16);
    assert_eq!(full.get(&3), Some(&30));
}

#[test]
fn capacity_stays_a_doubling_of_sixteen() {
    let mut table: HashTable<i32, i32> = HashTable::new();
    for n in 1..=300 {
        table.insert(n, n);
        let cap = table.capacity();
        assert!(cap >= 2 * table.size());
        assert_eq!(cap % 16, 0);
        assert!((cap / 16).is_power_of_two());
    }
    assert_eq!(table.capacity(), 1024);
}

#[test]
fn removal_keeps_later_entries_reachable() {
    // Eight keys in sixteen slots share home slots often enough; whichever
    // entry goes, the others must stay reachable.
    for gone in 0..8i32 {
        let mut table: HashTable<i32, i32> = HashTable::new();
        for k in 0..8i32 {
            table.insert(k * 1000, k);
        }
        assert_eq!(table.remove(&(gone * 1000)), Some(gone));
        for k in 0..8i32 {
            let expected = if k == gone { None } else { Some(&k) };
            assert_eq!(table.get(&(k * 1000)), expected);
        }
        assert_eq!(table.size(), 7);
    }
}

#[test]
fn removed_slots_are_reused() {
    let mut table: HashTable<u32, u32> = HashTable::new();
    for round in 0..100u32 {
        for k in 0..7u32 {
            table.insert(round * 10 + k, k);
        }
        for k in 0..7u32 {
            assert_eq!(table.remove(&(round * 10 + k)), Some(k));
        }
    }
    assert_eq!(table.size(), 0);
    assert_eq!(table.capacity(), 16);
    assert_eq!(table.get(&5), None);
}

#[test]
fn string_keys_compare_by_content() {
    let owned = String::from("alpha");
    let mut table: HashTable<&str, u8> = HashTable::new();
    table.insert("alpha", 1);
    table.insert("", 2);
    assert_eq!(table.get(&owned.as_str()), Some(&1));
    assert_eq!(table.get(&""), Some(&2));
    assert_eq!(table.get(&"alph"), None);
    assert_eq!(table.get(&"alphaa"), None);
}

#[test]
fn negative_and_extreme_integer_keys() {
    let mut table: HashTable<i64, u8> = HashTable::new();
    table.insert(i64::MIN, 1);
    table.insert(-1, 2);
    table.insert(i64::MAX, 3);
    table.insert(0, 4);
    assert_eq!(table.get(&i64::MIN), Some(&1));
    assert_eq!(table.get(&-1), Some(&2));
    assert_eq!(table.get(&i64::MAX), Some(&3));
    assert_eq!(table.get(&0), Some(&4));
    assert_eq!(table.size(), 4);
}
