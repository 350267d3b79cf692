use hash_table::table::HashTable;

#[test]
fn test_insert_and_get() {
    let mut table: HashTable<&str, i32> = HashTable::new();
    table.insert("one", 1);
    table.insert("two", 2);
    table.insert("three", 3);

    assert_eq!(table.get(&"one"), Some(&1));
    assert_eq!(table.get(&"two"), Some(&2));
    assert_eq!(table.get(&"three"), Some(&3));
    assert_eq!(table.get(&"four"), None);
}

#[test]
fn test_insert_and_remove() {
    let mut table: HashTable<&str, i32> = HashTable::new();
    table.insert("one", 1);
    table.insert("two", 2);
    table.insert("three", 3);

    assert_eq!(table.remove(&"two"), Some(2));
    assert_eq!(table.get(&"two"), None);
    assert_eq!(table.size(), 2);

    assert_eq!(table.remove(&"one"), Some(1));
    assert_eq!(table.get(&"one"), None);
    assert_eq!(table.size(), 1);

    assert_eq!(table.remove(&"four"), None);
}

#[test]
fn test_default() {
    let table: HashTable<&str, i32> = HashTable::default();
    assert_eq!(table.size(), 0);
    assert_eq!(table.get(&"key"), None);
}

#[test]
fn test_resize() {
    let mut table: HashTable<i32, i32> = HashTable::new();

    // Insert 32 elements to trigger a resize
    for i in 0..32 {
        table.insert(i, i);
    }

    // Ensure all elements are present
    for i in 0..32 {
        assert_eq!(table.get(&i), Some(&i));
    }

    // Insert 64 more elements to trigger another resize
    for i in 32..96 {
        table.insert(i, i);
    }

    // Ensure all elements are still present
    for i in 0..96 {
        assert_eq!(table.get(&i), Some(&i));
    }

    // Ensure the table size is correct
    assert_eq!(table.size(), 96);
    // Ensure the capacity has increased to accommodate the elements
    assert!(table.capacity() >= 96);
}
