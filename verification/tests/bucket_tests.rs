use bucketmap::AvlTree;
use bucketmap::LinkedList;

#[test]
fn linked_list_insert_get_remove() {
    let mut list: LinkedList<u64> = LinkedList::new();
    assert!(list.is_empty());
    assert_eq!(list.insert(100, 1, 10), None);
    assert_eq!(list.insert(200, 2, 20), None);
    assert_eq!(list.insert(300, 3, 30), None);
    assert!(!list.is_empty());
    assert_eq!(list.get_key_value(2), Some((&2, &20)));
    assert_eq!(list.get_key_value(4), None);
    assert_eq!(list.insert(200, 2, 21), Some(20));
    assert_eq!(list.get_key_value(2), Some((&2, &21)));
    assert_eq!(list.remove_entry(2), Some((2, 21)));
    assert_eq!(list.get_key_value(2), None);
    assert_eq!(list.remove_entry(2), None);
    assert_eq!(list.remove_entry(1), Some((1, 10)));
    assert_eq!(list.remove_entry(3), Some((3, 30)));
    assert!(list.is_empty());
}

#[test]
fn linked_list_get_mut() {
    let mut list: LinkedList<u64> = LinkedList::new();
    list.insert(10, 1, 100);
    list.insert(20, 2, 200);
    if let Some(v) = list.get_mut(2) {
        *v = 201;
    }
    assert_eq!(list.get_mut(3), None);
    assert_eq!(list.get_key_value(2), Some((&2, &201)));
    assert_eq!(list.get_key_value(1), Some((&1, &100)));
}

#[test]
fn avl_get_mut() {
    let mut tree: AvlTree<u64> = AvlTree::new();
    for i in 0..10u64 {
        tree.insert(i, i, i);
    }
    if let Some(v) = tree.get_mut(4, 4) {
        *v = 44;
    }
    assert_eq!(tree.get_mut(4, 5), None);
    assert_eq!(tree.get_key_value(4, 4), Some((&4, &44)));
    assert_eq!(tree.get_key_value(5, 5), Some((&5, &5)));
}

#[test]
fn linked_list_longer_than() {
    let mut list: LinkedList<u64> = LinkedList::new();
    assert!(!list.longer_than(0));
    for i in 0..5u64 {
        list.insert(i, i, i);
    }
    assert!(list.longer_than(4));
    assert!(!list.longer_than(5));
}

#[test]
fn linked_list_round_trip() {
    let mut list: LinkedList<u64> = LinkedList::new();
    for i in 0..8u64 {
        list.insert(1000 + i, i, i * 2);
    }
    let entries = list.into_entries();
    assert_eq!(entries.len(), 8);
    let mut seen = std::collections::HashMap::new();
    for (h, k, v) in entries {
        assert_eq!(h, 1000 + k);
        assert_eq!(v, k * 2);
        assert!(seen.insert(k, v).is_none(), "duplicate key drained");
    }
}

#[test]
fn avl_insert_and_get() {
    let mut tree: AvlTree<u64> = AvlTree::new();
    assert!(tree.is_empty());
    // Ascending hashes force left rotations all the way up.
    for i in 0..64u64 {
        assert_eq!(tree.insert(i, i, i + 1), None);
    }
    assert!(!tree.is_empty());
    for i in 0..64u64 {
        assert_eq!(tree.get_key_value(i, i), Some((&i, &(i + 1))));
    }
    assert_eq!(tree.get_key_value(64, 64), None);
}

#[test]
fn avl_descending_and_replace() {
    let mut tree: AvlTree<u64> = AvlTree::new();
    // Descending hashes force right rotations.
    for i in (0..64u64).rev() {
        assert_eq!(tree.insert(i, i, i), None);
    }
    for i in 0..64u64 {
        assert_eq!(tree.insert(i, i, i + 100), Some(i));
    }
    for i in 0..64u64 {
        assert_eq!(tree.get_key_value(i, i), Some((&i, &(i + 100))));
    }
}

#[test]
fn avl_equal_hash_distinct_keys() {
    let mut tree: AvlTree<u64> = AvlTree::new();
    // All entries share one hash; the key is the tie-break.
    for k in 0..20u64 {
        assert_eq!(tree.insert(5, k, k * 7), None);
    }
    for k in 0..20u64 {
        assert_eq!(tree.get_key_value(5, k), Some((&k, &(k * 7))));
    }
    // A different hash for a held key misses.
    assert_eq!(tree.get_key_value(6, 3), None);
    for k in 0..20u64 {
        assert_eq!(tree.remove_entry(5, k), Some((k, k * 7)));
    }
    assert!(tree.is_empty());
}

#[test]
fn avl_remove_inner_nodes() {
    let mut tree: AvlTree<u64> = AvlTree::new();
    for i in 0..100u64 {
        tree.insert(i, i, i);
    }
    // Removing every even entry forces successor replacement and
    // rebalancing at inner nodes.
    for i in (0..100u64).step_by(2) {
        assert_eq!(tree.remove_entry(i, i), Some((i, i)));
    }
    for i in 0..100u64 {
        if i % 2 == 0 {
            assert_eq!(tree.get_key_value(i, i), None);
        } else {
            assert_eq!(tree.get_key_value(i, i), Some((&i, &i)));
        }
    }
    assert_eq!(tree.remove_entry(2, 2), None);
}

#[test]
fn avl_round_trip() {
    let mut tree: AvlTree<u64> = AvlTree::new();
    for i in 0..30u64 {
        tree.insert(i * 11, i, i + 5);
    }
    let entries = tree.into_entries();
    assert_eq!(entries.len(), 30);
    let mut seen = std::collections::HashMap::new();
    for (h, k, v) in entries {
        assert_eq!(h, k * 11);
        assert_eq!(v, k + 5);
        assert!(seen.insert((h, k), v).is_none(), "duplicate pair drained");
    }
}
