use algos::hash_search::{HashMap, TableError};

#[test]
fn hash_search_basic_test() {
    let mut hmap = HashMap::new(11);
    let _ = hmap.insert(2, "dog");
    let _ = hmap.insert(3, "tiger");
    let _ = hmap.insert(10, "cat");

    println!("empty: {}, size: {:?}", hmap.is_empty(), hmap.len());
    println!("contains key 2: {}", hmap.contains(2));
    println!("key 3: {:?}", hmap.get(3));
    let val_ptr = hmap.get_mut(3).unwrap();
    *val_ptr = "fish";
    println!("key 3 after change: {:?}", hmap.get(3));
    println!("remove key 3: {:?}", hmap.remove(3).unwrap());
    println!("remove key 3: {:?}", hmap.remove(3).unwrap());

    hmap.clear();
    println!("empty: {}, size: {}", hmap.is_empty(), hmap.len());
}

#[test]
fn round_trip_insert_get() {
    let mut t: HashMap<u64> = HashMap::new(7);
    assert_eq!(t.insert(5, 500), Ok(()));
    assert_eq!(t.get(5), Some(&500));
    assert_eq!(t.len(), 1);
}

#[test]
fn overwrite_keeps_len() {
    let mut t: HashMap<&str> = HashMap::new(5);
    assert_eq!(t.insert(4, "first"), Ok(()));
    assert_eq!(t.insert(4, "second"), Ok(()));
    assert_eq!(t.len(), 1);
    assert_eq!(t.get(4), Some(&"second"));
}

#[test]
fn remove_returns_value_and_shrinks() {
    let mut t: HashMap<i64> = HashMap::new(4);
    assert_eq!(t.insert(9, -9), Ok(()));
    assert_eq!(t.insert(2, -2), Ok(()));
    assert_eq!(t.remove(9), Ok(Some(-9)));
    assert_eq!(t.get(9), None);
    assert_eq!(t.len(), 1);
    assert_eq!(t.remove(9), Ok(None));
}

#[test]
fn capacity_bound_preserves_entries() {
    let mut t: HashMap<u8> = HashMap::new(3);
    assert_eq!(t.insert(1, 10), Ok(()));
    assert_eq!(t.insert(2, 20), Ok(()));
    assert_eq!(t.insert(3, 30), Ok(()));
    assert_eq!(t.insert(4, 40), Err(TableError::TableFull));
    assert_eq!(t.get(1), Some(&10));
    assert_eq!(t.get(2), Some(&20));
    assert_eq!(t.get(3), Some(&30));
    assert_eq!(t.get(4), None);
    assert_eq!(t.len(), 3);
    // Re-inserting a key that is already present still succeeds on a full
    // table.
    assert_eq!(t.insert(2, 22), Ok(()));
    assert_eq!(t.get(2), Some(&22));
}

#[test]
fn three_colliding_keys_probe_in_order() {
    // With capacity 11 the keys 2, 13 and 24 all hash to slot 2, so linear
    // probing must place them at slots 2, 3 and 4.
    let mut t: HashMap<&str> = HashMap::new(11);
    assert_eq!(t.insert(2, "a"), Ok(()));
    assert_eq!(t.insert(13, "b"), Ok(()));
    assert_eq!(t.insert(24, "c"), Ok(()));
    assert_eq!(t.get_pos(2), Some(2));
    assert_eq!(t.get_pos(13), Some(3));
    assert_eq!(t.get_pos(24), Some(4));
    assert_eq!(t.get(2), Some(&"a"));
    assert_eq!(t.get(13), Some(&"b"));
    assert_eq!(t.get(24), Some(&"c"));
    assert_eq!(t.remove(13), Ok(Some("b")));
    assert_eq!(t.get(2), Some(&"a"));
    assert_eq!(t.get(24), Some(&"c"));
    assert_eq!(t.remove(2), Ok(Some("a")));
    assert_eq!(t.remove(24), Ok(Some("c")));
    assert!(t.is_empty());
}

#[test]
fn lookup_passes_gaps_left_by_removal() {
    // 13 was placed past the slot of 2; removing 2 leaves a gap in the
    // probe chain, and the bounded full scan must still find 13.
    let mut t: HashMap<i32> = HashMap::new(11);
    assert_eq!(t.insert(2, 100), Ok(()));
    assert_eq!(t.insert(13, 200), Ok(()));
    assert_eq!(t.remove(2), Ok(Some(100)));
    assert_eq!(t.get(13), Some(&200));
    assert!(t.contains(13));
    assert_eq!(t.remove(13), Ok(Some(200)));
}

#[test]
fn clear_resets_state() {
    let mut t: HashMap<u32> = HashMap::new(6);
    assert_eq!(t.insert(1, 11), Ok(()));
    assert_eq!(t.insert(2, 22), Ok(()));
    t.clear();
    assert_eq!(t.len(), 0);
    assert!(t.is_empty());
    assert_eq!(t.get(1), None);
    assert_eq!(t.get(2), None);
    // The capacity is kept, so the table can be refilled.
    assert_eq!(t.insert(1, 33), Ok(()));
    assert_eq!(t.get(1), Some(&33));
}

#[test]
fn invalid_key_rejected() {
    let mut t: HashMap<u32> = HashMap::new(5);
    assert_eq!(t.insert(3, 30), Ok(()));
    assert_eq!(t.insert(0, 99), Err(TableError::InvalidKey));
    assert_eq!(t.remove(0), Err(TableError::InvalidKey));
    assert_eq!(t.len(), 1);
    assert_eq!(t.get(3), Some(&30));
}

#[test]
fn iter_yields_values_in_slot_order() {
    let mut t: HashMap<&str> = HashMap::new(11);
    let _ = t.insert(5, "five");
    let _ = t.insert(3, "three");
    let _ = t.insert(14, "fourteen");
    // Slots: 3 -> "three", 4 -> "fourteen" (14 probes from 3), 5 -> "five".
    let vals = t.iter();
    assert_eq!(vals.len(), 3);
    assert_eq!(*vals[0], "three");
    assert_eq!(*vals[1], "fourteen");
    assert_eq!(*vals[2], "five");
}

#[test]
fn capacity_one_table() {
    let mut t: HashMap<char> = HashMap::new(1);
    assert_eq!(t.insert(7, 'x'), Ok(()));
    assert_eq!(t.get(7), Some(&'x'));
    assert_eq!(t.insert(8, 'y'), Err(TableError::TableFull));
    assert_eq!(t.insert(7, 'z'), Ok(()));
    assert_eq!(t.remove(7), Ok(Some('z')));
    assert!(t.is_empty());
}
