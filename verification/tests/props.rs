use indextreemap::stc::{Item, Node, Pointer};
use indextreemap::{IndexTreeMap, IndexTreeSet};

#[test]
fn inserts_iterate_sorted_with_distinct_len() {
    let order: [usize; 12] = [7, 3, 11, 1, 9, 5, 12, 2, 10, 4, 8, 6];
    let mut tree = IndexTreeMap::new();
    for k in order {
        tree.insert(k, k * 10);
    }
    assert_eq!(tree.len(), 12);
    let mut prev: Option<usize> = None;
    let mut count: usize = 0;
    let mut it = tree.iter();
    while let Some((key, value)) = it.next() {
        if let Some(p) = prev {
            assert!(p < *key);
        }
        assert_eq!(*value, *key * 10);
        prev = Some(*key);
        count += 1;
    }
    assert_eq!(count, 12);
}

#[test]
fn insert_then_get_and_contains() {
    let mut tree = IndexTreeMap::new();
    tree.insert(42usize, "x");
    assert_eq!(tree.get(&42), Some(&"x"));
    assert!(tree.contains_key(&42));
    assert!(!tree.contains_key(&41));
}

#[test]
fn insert_same_key_twice_keeps_size() {
    let mut tree = IndexTreeMap::new();
    tree.insert(5usize, 1usize);
    tree.insert(5usize, 2usize);
    assert_eq!(tree.get(&5), Some(&2));
    assert_eq!(tree.len(), 1);
}

#[test]
fn rank_round_trip() {
    let mut tree = IndexTreeMap::new();
    for i in 0..500usize {
        tree.insert(i * 3, i);
    }
    for r in 0..500usize {
        let key = *tree.get_key_from_index(r).unwrap();
        assert_eq!(key, r * 3);
        assert_eq!(tree.get_index_from_key(&key), Some(r));
    }
}

#[test]
fn remove_decrements_size_iff_present() {
    let mut tree = IndexTreeMap::new();
    for i in 0..100usize {
        tree.insert(i, i);
    }
    assert_eq!(tree.remove(&50), Some((50, 50)));
    assert_eq!(tree.get(&50), None);
    assert_eq!(tree.len(), 99);
    assert_eq!(tree.remove(&50), None);
    assert_eq!(tree.len(), 99);
}

#[test]
fn split_off_partitions_all_entries() {
    let mut tree = IndexTreeMap::new();
    for i in 0..300usize {
        tree.insert(i, i);
    }
    let right = tree.split_off(&120);
    assert_eq!(tree.len() + right.len(), 300);
    let mut it = tree.iter();
    while let Some((key, _)) = it.next() {
        assert!(*key < 120);
    }
    let mut it = right.iter();
    while let Some((key, _)) = it.next() {
        assert!(*key >= 120);
    }
}

#[test]
fn split_off_by_index_moves_exact_suffix() {
    let mut tree = IndexTreeMap::new();
    for i in 0..300usize {
        tree.insert(i, i);
    }
    let right = tree.split_off_from_index(120);
    assert_eq!(tree.len(), 120);
    assert_eq!(right.len(), 180);
    for r in 0..180usize {
        assert_eq!(right.get_key_from_index(r), Some(&(120 + r)));
    }
}

#[test]
fn clear_and_repopulate_string_keys() {
    let mut tree = IndexTreeMap::new();
    for i in 0..2000usize {
        tree.insert(i.to_string(), i);
    }
    for i in 0..2000usize {
        assert_eq!(tree.get(&i.to_string()), Some(&i));
    }
    tree.clear();
    assert!(tree.is_empty());
    for i in 0..2000usize {
        tree.insert(i.to_string(), i);
    }
    for i in 0..2000usize {
        assert_eq!(tree.get(&i.to_string()), Some(&i));
    }
}

#[test]
fn remove_one_of_two_thousand() {
    let mut tree = IndexTreeMap::new();
    for i in 0..2000usize {
        tree.insert(i, i);
    }
    tree.remove(&667);
    let mut it = tree.iter();
    while let Some((key, _)) = it.next() {
        assert_ne!(*key, 667);
    }
    assert_eq!(tree.len(), 1999);
}

#[test]
fn replace_one_of_two_thousand() {
    let mut tree = IndexTreeMap::new();
    for i in 0..2000usize {
        tree.insert(i, i);
    }
    assert_eq!(tree.replace(&667, 668), Some(667));
    assert_eq!(tree.get(&667), Some(&668));
}

#[test]
fn split_five_pairs_by_key() {
    let mut a = IndexTreeMap::new();
    a.insert(1usize, "a");
    a.insert(2, "b");
    a.insert(13, "c");
    a.insert(17, "d");
    a.insert(41, "e");

    let b = a.split_off(&13);

    assert_eq!(a.len(), 2);
    assert_eq!(b.len(), 3);
    assert_eq!(a.get_key_from_index(0), Some(&1));
    assert_eq!(a.get_key_from_index(1), Some(&2));
    assert_eq!(b.get_key_from_index(0), Some(&13));
    assert_eq!(b.get_key_from_index(1), Some(&17));
    assert_eq!(b.get_key_from_index(2), Some(&41));
}

#[test]
fn split_five_pairs_by_index() {
    let mut a = IndexTreeMap::new();
    a.insert(1usize, "a");
    a.insert(2, "b");
    a.insert(13, "c");
    a.insert(17, "d");
    a.insert(41, "e");

    let b = a.split_off_from_index(2);

    assert_eq!(a.len(), 2);
    assert_eq!(b.len(), 3);
    assert_eq!(a.get_key_from_index(0), Some(&1));
    assert_eq!(a.get_key_from_index(1), Some(&2));
    assert_eq!(b.get_key_from_index(0), Some(&13));
    assert_eq!(b.get_key_from_index(1), Some(&17));
    assert_eq!(b.get_key_from_index(2), Some(&41));
}

#[test]
fn byte_array_keys_full_round() {
    let mut tree = IndexTreeMap::new();
    for i in 0..2000usize {
        tree.insert(i.to_le_bytes(), i);
    }
    for i in 0..2000usize {
        assert!(tree.get(&i.to_le_bytes()).is_some());
        assert!(tree.get_from_index(i).is_some());
        assert!(tree.get_index_from_key(&i.to_le_bytes()).is_some());
    }
    tree.remove(&667usize.to_le_bytes());
    assert_eq!(tree.get(&667usize.to_le_bytes()), None);
    assert_eq!(tree.len(), 1999);
}

#[test]
fn empty_map_lookups() {
    let tree: IndexTreeMap<usize, usize> = IndexTreeMap::new();
    assert!(tree.is_empty());
    assert_eq!(tree.len(), 0);
    assert_eq!(tree.get(&3), None);
    assert_eq!(tree.get_from_index(0), None);
    assert_eq!(tree.get_key_from_index(0), None);
    assert_eq!(tree.get_key_value(&3), None);
    assert_eq!(tree.get_index_from_key(&3), None);
    assert_eq!(tree.get_first_key(), None);
    assert_eq!(tree.get_first_value(), None);
    assert_eq!(tree.get_first_key_value(), None);
    assert_eq!(tree.get_last_key(), None);
    assert_eq!(tree.get_last_value(), None);
    assert_eq!(tree.get_last_key_value(), None);
    assert!(!tree.contains_key(&3));
    assert!(!tree.contains_index(0));
}

#[test]
fn empty_map_mutations() {
    let mut tree: IndexTreeMap<usize, usize> = IndexTreeMap::new();
    assert_eq!(tree.remove(&3), None);
    assert_eq!(tree.remove_from_index(0), None);
    assert_eq!(tree.replace(&3, 4), None);
    let right = tree.split_off(&3);
    assert!(right.is_empty());
    assert!(tree.is_empty());
    let right = tree.split_off_from_index(5);
    assert!(right.is_empty());
}

#[test]
fn first_and_last_accessors() {
    let mut tree = IndexTreeMap::new();
    for i in 1..100usize {
        tree.insert(i, i * 2);
    }
    assert_eq!(tree.get_first_key(), Some(&1));
    assert_eq!(tree.get_first_value(), Some(&2));
    assert_eq!(tree.get_first_key_value(), Some((&1, &2)));
    assert_eq!(tree.get_last_key(), Some(&99));
    assert_eq!(tree.get_last_value(), Some(&198));
    assert_eq!(tree.get_last_key_value(), Some((&99, &198)));
}

#[test]
fn remove_from_index_shifts_ranks() {
    let mut tree = IndexTreeMap::new();
    for i in 0..50usize {
        tree.insert(i, i);
    }
    assert_eq!(tree.remove_from_index(10), Some((10, 10)));
    assert_eq!(tree.len(), 49);
    assert_eq!(tree.get_key_from_index(10), Some(&11));
    assert_eq!(tree.remove_from_index(100), None);
}

#[test]
fn replace_index_changes_value_only() {
    let mut tree = IndexTreeMap::new();
    tree.insert(1usize, "a".to_string());
    tree.replace_index(0, "b".to_string());
    assert_eq!(tree.get(&1), Some(&"b".to_string()));
    tree.replace_index(5, "c".to_string());
    assert_eq!(tree.get(&1), Some(&"b".to_string()));
    assert_eq!(tree.len(), 1);
}

#[test]
fn keys_and_values_cursors() {
    let mut tree = IndexTreeMap::new();
    tree.insert(10usize, "b");
    tree.insert(1usize, "a");

    let mut ks = tree.keys();
    assert_eq!(ks.next(), Some(&1));
    assert_eq!(ks.next(), Some(&10));
    assert_eq!(ks.next(), None);

    let mut vs = tree.values();
    assert_eq!(vs.next(), Some(&"a"));
    assert_eq!(vs.next(), Some(&"b"));
    assert_eq!(vs.next(), None);

    let mut it = tree.iter();
    assert_eq!(it.next(), Some((&1, &"a")));
    assert_eq!(it.next(), Some((&10, &"b")));
    assert_eq!(it.next(), None);
}

#[test]
fn set_basics() {
    let mut set = IndexTreeSet::new();
    assert!(set.is_empty());
    set.insert(3usize);
    set.insert(1);
    set.insert(3);
    assert_eq!(set.len(), 2);
    assert!(set.contains_key(&1));
    assert!(set.contains_index(1));
    assert!(!set.contains_index(2));
    assert_eq!(set.get(&3), Some(&3));
    assert_eq!(set.get_from_index(0), Some(&1));
    assert_eq!(set.get_key_from_index(1), Some(&3));
    assert_eq!(set.get_index_from_key(&3), Some(1));
    assert_eq!(set.get_first(), Some(&1));
    assert_eq!(set.get_last(), Some(&3));
    assert_eq!(set.remove(&1), Some(1));
    assert_eq!(set.remove(&1), None);
    assert_eq!(set.remove_from_index(0), Some(3));
    assert!(set.is_empty());
}

#[test]
fn large_mixed_workout() {
    let mut tree = IndexTreeMap::new();
    for i in 0..2000usize {
        tree.insert((i * 7919) % 4001, i);
    }
    let n = tree.len();
    let mut prev: Option<usize> = None;
    for r in 0..n {
        let k = *tree.get_key_from_index(r).unwrap();
        if let Some(p) = prev {
            assert!(p < k);
        }
        assert_eq!(tree.get_index_from_key(&k), Some(r));
        prev = Some(k);
    }
    for i in (0..2000usize).step_by(3) {
        tree.remove(&((i * 7919) % 4001));
    }
    let m = tree.len();
    let mut prev: Option<usize> = None;
    for r in 0..m {
        let k = *tree.get_key_from_index(r).unwrap();
        if let Some(p) = prev {
            assert!(p < k);
        }
        prev = Some(k);
    }
}

#[test]
fn string_order_is_lexicographic() {
    let mut tree = IndexTreeMap::new();
    tree.insert("10".to_string(), 10usize);
    tree.insert("2".to_string(), 2usize);
    tree.insert("1".to_string(), 1usize);
    assert_eq!(tree.get_key_from_index(0), Some(&"1".to_string()));
    assert_eq!(tree.get_key_from_index(1), Some(&"10".to_string()));
    assert_eq!(tree.get_key_from_index(2), Some(&"2".to_string()));
}

#[test]
fn split_off_key_between_entries() {
    let mut tree = IndexTreeMap::new();
    for i in 0..100usize {
        tree.insert(i * 2, i);
    }
    let right = tree.split_off(&51);
    assert_eq!(tree.len(), 26);
    assert_eq!(right.len(), 74);
    assert_eq!(tree.get_last_key(), Some(&50));
    assert_eq!(right.get_first_key(), Some(&52));
}

#[test]
fn split_off_whole_and_nothing() {
    let mut tree = IndexTreeMap::new();
    for i in 0..40usize {
        tree.insert(i, i);
    }
    let right = tree.split_off(&0);
    assert!(tree.is_empty());
    assert_eq!(right.len(), 40);

    let mut tree = right;
    let right = tree.split_off(&1000);
    assert_eq!(tree.len(), 40);
    assert!(right.is_empty());

    let right = tree.split_off_from_index(40);
    assert_eq!(tree.len(), 40);
    assert!(right.is_empty());

    let right = tree.split_off_from_index(0);
    assert!(tree.is_empty());
    assert_eq!(right.len(), 40);
}

#[test]
fn node_level_helpers() {
    let mut node = *Node::<usize, usize>::new();
    assert!(node.is_empty());
    for i in 0..13usize {
        node.keys.push(Item::new(i, i * 2));
    }
    assert!(node.is_full());
    assert_eq!(node.size(), 13);
    assert_eq!(node.binary_search(&7), Ok(7));
    assert_eq!(node.binary_search(&13), Err(13));
    node.split_root();
    assert_eq!(node.keys.len(), 1);
    assert_eq!(node.size(), 13);
    let it = node.take_last_key().unwrap();
    assert_eq!(it.key, 12);
    assert_eq!(it.value, 24);
    assert_eq!(node.size(), 12);
    let edge: Pointer<usize, usize> = Pointer::new();
    assert_eq!(edge.counter, 0);
    let keys = node.take_keys();
    assert_eq!(keys.len(), 1);
    let ptrs = node.take_pointers();
    assert_eq!(ptrs.len(), 2);
}

#[test]
fn get_mut_writes_through() {
    let mut tree = IndexTreeMap::new();
    for i in 0..100usize {
        tree.insert(i, i);
    }
    *tree.get_mut(&42).unwrap() = 999;
    assert_eq!(tree.get(&42), Some(&999));
    *tree.get_mut_from_index(10).unwrap() = 1234;
    assert_eq!(tree.get(&10), Some(&1234));
    assert!(tree.get_mut(&1000).is_none());
    assert!(tree.get_mut_from_index(100).is_none());
    assert_eq!(tree.len(), 100);
}
