use bucketmap::HashMap;

#[test]
fn empty_len() {
    let map: HashMap<()> = HashMap::new();
    assert_eq!(map.len(), 0);
}

#[test]
fn get_non_existent_key() {
    let map: HashMap<()> = HashMap::new();
    assert_eq!(map.get(0), None);
}

#[test]
fn insert_one() {
    let mut map = HashMap::new();
    assert_eq!(map.insert(1, 2u64), None);
    println!("{:?}", map);
    assert_eq!(map.get(1), Some(&2));
    assert_eq!(map.len(), 1);
}

#[test]
fn insert_and_replace_one() {
    let mut map = HashMap::new();
    assert_eq!(map.insert(1, 2u64), None);
    println!("{:?}", map);
    assert_eq!(map.get(1), Some(&2));
    assert_eq!(map.insert(1, 3), Some(2));
    println!("{:?}", map);
    assert_eq!(map.get(1), Some(&3));
    assert_eq!(map.len(), 1);
}

#[test]
fn insert_many() {
    let mut map = HashMap::new();
    for i in 0..1000u64 {
        assert_eq!(map.insert(i, i + 1), None);
    }
    for i in 0..1000u64 {
        assert_eq!(map.get(i), Some(&(i + 1)));
    }
}

#[test]
fn insert_and_replace_many() {
    let mut map = HashMap::new();
    for i in 0..1000u64 {
        assert_eq!(map.insert(i, i + 1), None);
    }
    for i in 0..1000u64 {
        assert_eq!(map.get(i), Some(&(i + 1)));
    }

    for i in 0..1000u64 {
        assert_eq!(map.insert(i, i + i + 1), Some(i + 1));
    }
    for i in 0..1000u64 {
        assert_eq!(map.get(i), Some(&(i + i + 1)));
    }
}

#[test]
fn insert_and_remove_one() {
    let mut map = HashMap::new();
    assert_eq!(map.insert(1, 2u64), None);
    println!("{:?}", map);
    assert_eq!(map.get(1), Some(&2));
    assert_eq!(map.len(), 1);
    assert_eq!(map.remove(1), Some(2));
    println!("{:?}", map);
    assert_eq!(map.get(1), None);
    assert_eq!(map.len(), 0);
}

#[test]
fn insert_and_remove_many() {
    let mut map = HashMap::new();
    for i in 0..1000u64 {
        assert_eq!(map.insert(i, i + 1), None);
    }
    for i in 0..1000u64 {
        assert_eq!(map.get(i), Some(&(i + 1)));
    }

    for i in 0..1000u64 {
        assert_eq!(map.remove(i), Some(i + 1));
    }
    for i in 0..1000u64 {
        assert_eq!(map.get(i), None);
    }
}

#[test]
fn from_iter() {
    let mut pairs: Vec<(u64, u64)> = Vec::new();
    for i in 0..1000u64 {
        pairs.push((i, i + 1));
    }
    let map: HashMap<u64> = HashMap::from_entries(pairs);

    for i in 0..1000u64 {
        assert_eq!(map.get(i), Some(&(i + 1)));
    }
}

#[test]
fn get_mut_writes_through() {
    let mut map = HashMap::new();
    map.insert(1, 2u64);
    map.insert(9, 10);
    if let Some(v) = map.get_mut(1) {
        *v = 5;
    }
    assert_eq!(map.get_mut(77), None);
    assert_eq!(map.get(1), Some(&5));
    assert_eq!(map.get(9), Some(&10));
    assert_eq!(map.len(), 2);
}

#[test]
fn len_counts_distinct_keys() {
    let mut map = HashMap::new();
    map.insert(3, 30u64);
    map.insert(4, 40);
    map.insert(3, 31);
    map.insert(5, 50);
    map.insert(4, 41);
    assert_eq!(map.len(), 3);
    assert!(!map.is_empty());
    assert!(map.contains_key(3));
    assert!(!map.contains_key(6));
    assert_eq!(map.get_key_value(4), Some((&4, &41)));
}

#[test]
fn remove_absent_key_changes_nothing() {
    let mut map = HashMap::new();
    map.insert(1, 10u64);
    map.insert(2, 20);
    assert_eq!(map.remove(77), None);
    assert_eq!(map.remove_entry(77), None);
    assert_eq!(map.len(), 2);
    assert_eq!(map.get(1), Some(&10));
    assert_eq!(map.remove_entry(1), Some((1, 10)));
    assert_eq!(map.len(), 1);
    assert_eq!(map.get(1), None);
}

#[test]
fn capacity_one_growth() {
    // A table of one slot grows through several doublings while every
    // entry stays reachable.
    let mut map = HashMap::with_capacity_and_hasher(1, 7);
    for i in 0..16u64 {
        assert_eq!(map.insert(i, i + 1), None);
    }
    assert_eq!(map.len(), 16);
    for i in 0..16u64 {
        assert_eq!(map.get(i), Some(&(i + 1)));
    }
}

#[test]
fn resize_keeps_previous_entries_reachable() {
    let mut map = HashMap::with_capacity_and_hasher(4, 99);
    for i in 0..200u64 {
        assert_eq!(map.insert(i, 1000 + i), None);
        for j in 0..(i + 1) {
            assert_eq!(map.get(j), Some(&(1000 + j)));
        }
    }
    assert_eq!(map.len(), 200);
}

#[test]
fn promotion_to_tree_slot() {
    // Keys that are multiples of 1024 share slot 0 in a 16-slot table
    // under seed 0; more than the threshold of them promotes the chain.
    let mut map = HashMap::with_capacity_and_hasher(16, 0);
    for i in 0..8u64 {
        assert_eq!(map.insert(i * 1024, i), None);
    }
    assert!(!map.slot_is_tree(0));
    for i in 8..10u64 {
        assert_eq!(map.insert(i * 1024, i), None);
    }
    assert!(map.slot_is_tree(0));
    assert_eq!(map.len(), 10);
    for i in 0..10u64 {
        assert_eq!(map.get(i * 1024), Some(&i));
    }
    // The tree slot serves replacement and removal, and empties back to
    // an empty slot.
    assert_eq!(map.insert(0, 100), Some(0));
    assert_eq!(map.get(0), Some(&100));
    for i in 1..10u64 {
        assert_eq!(map.remove(i * 1024), Some(i));
    }
    // Once promoted, the slot stays tree-shaped until its last entry
    // leaves; only then is it reset to Empty.
    assert!(map.slot_is_tree(0));
    assert_eq!(map.remove(0), Some(100));
    assert!(!map.slot_is_tree(0));
    assert_eq!(map.len(), 0);
}

#[test]
fn zero_capacity_hint_rounds_up() {
    let mut map = HashMap::with_capacity_and_hasher(0, 5);
    assert!(map.is_empty());
    assert_eq!(map.insert(8, 80u64), None);
    assert_eq!(map.get(8), Some(&80));
    assert_eq!(map.len(), 1);
}

#[test]
fn round_trip_entries() {
    let mut map = HashMap::with_hasher(42);
    for i in 0..50u64 {
        map.insert(i * 3, i);
    }
    let entries = map.into_entries();
    assert_eq!(entries.len(), 50);
    let mut seen = std::collections::HashMap::new();
    for (k, v) in entries {
        assert!(seen.insert(k, v).is_none(), "duplicate key drained");
    }
    for i in 0..50u64 {
        assert_eq!(seen.get(&(i * 3)), Some(&i));
    }
}

#[test]
fn round_trip_empty() {
    let map: HashMap<u64> = HashMap::new();
    let entries = map.into_entries();
    assert_eq!(entries.len(), 0);
}

#[test]
fn from_entries_last_value_wins() {
    let pairs: Vec<(u64, u64)> = vec![(1, 10), (2, 20), (1, 11), (3, 30), (2, 22)];
    let map = HashMap::from_entries(pairs);
    assert_eq!(map.len(), 3);
    assert_eq!(map.get(1), Some(&11));
    assert_eq!(map.get(2), Some(&22));
    assert_eq!(map.get(3), Some(&30));
}
