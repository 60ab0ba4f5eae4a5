use indextreemap::IndexTreeMap;
use sha2::{Digest, Sha256};

const SCOPE: usize = 2_000;

fn hash(n: &[u8]) -> String {
    let mut sha256 = Sha256::new();
    sha256.update(n);
    hex::encode(sha256.finalize())
}

#[derive(Clone)]
struct Value();

#[test]
fn map_tests_insert_test() {
    let mut tree = IndexTreeMap::new();
    for i in 0..SCOPE {
        tree.insert(i.to_string(), i);
    }

    println!("{tree:#?}")
}

#[test]
fn map_tests_clear_test() {
    let mut tree = IndexTreeMap::new();
    for i in 0..SCOPE {
        tree.insert(hash(i.to_le_bytes().as_slice()), i)
    }

    for i in 0..SCOPE {
        assert!(tree.get(&hash(i.to_le_bytes().as_slice())).is_some());
    }

    tree.clear();

    for i in 0..SCOPE {
        tree.insert(hash(i.to_le_bytes().as_slice()), i)
    }

    for i in 0..SCOPE {
        assert!(tree.get(&hash(i.to_le_bytes().as_slice())).is_some());
    }
}

#[test]
fn map_tests_string_expansive_test() {
    let hashes: Vec<String> = (0..SCOPE)
        .map(|i| hash(i.to_le_bytes().as_slice()))
        .collect();
    let mut tree = IndexTreeMap::new();
    for i in 0..SCOPE {
        for j in 0..i {
            tree.insert(hashes[j].clone(), j)
        }

        for k in 0..i {
            assert!(tree.get(&hashes[k]).is_some());
        }
    }
}

#[test]
fn map_tests_string_get() {
    let mut tree = IndexTreeMap::new();
    for i in 0..SCOPE {
        tree.insert(hash(i.to_le_bytes().as_slice()), i)
    }

    for i in 0..SCOPE {
        assert!(tree.get(&hash(i.to_le_bytes().as_slice())).is_some());
    }
}

#[test]
fn map_tests_string_get_index() {
    let mut tree = IndexTreeMap::new();
    for i in 0..SCOPE {
        tree.insert(hash(i.to_le_bytes().as_slice()), i)
    }

    for i in 0..SCOPE {
        assert!(tree.get_from_index(i).is_some());
    }
}

#[test]
fn map_tests_string_index_from_key() {
    let mut tree = IndexTreeMap::new();
    for i in 0..SCOPE {
        tree.insert(hash(i.to_le_bytes().as_slice()), i)
    }

    for i in 0..SCOPE {
        assert!(tree
            .get_index_from_key(&hash(i.to_le_bytes().as_slice()))
            .is_some());
    }
}

#[test]
fn map_tests_string_remove() {
    let mut tree = IndexTreeMap::new();
    for i in 0..SCOPE {
        tree.insert(hash(i.to_le_bytes().as_slice()), i)
    }

    let removed = SCOPE / 3 + 1;
    tree.remove(&hash(removed.to_le_bytes().as_slice()));

    let mut it = tree.iter();
    while let Some((key, value)) = it.next() {
        assert_ne!(key, &removed.to_string());
        assert_ne!(value, &removed)
    }
}

#[test]
fn map_tests_string_replace() {
    let mut tree = IndexTreeMap::new();
    for i in 0..SCOPE {
        tree.insert(hash(i.to_le_bytes().as_slice()), i)
    }

    let removed = SCOPE / 3 + 1;
    assert_eq!(
        tree.replace(&hash(removed.to_le_bytes().as_slice()), removed + 1),
        Some(removed)
    );
    assert_eq!(
        tree.get(&hash(removed.to_le_bytes().as_slice())),
        Some(&(removed + 1))
    );
}

#[test]
fn map_tests_string_split_off() {
    for a in 10..SCOPE {
        let mut tree = IndexTreeMap::new();
        for i in 0..a {
            tree.insert(hash(i.to_le_bytes().as_slice()), i)
        }

        let split_key = &(a / 3 + 1).to_string();
        let split_tree = tree.split_off(split_key);

        assert_eq!(tree.len() + split_tree.len(), a);
        let mut it = tree.iter();
        while let Some((key, _)) = it.next() {
            assert!(key < split_key)
        }
        let mut it = split_tree.iter();
        while let Some((key, _)) = it.next() {
            assert!(key >= split_key)
        }
    }
}

#[test]
fn map_tests_string_split_off_at_index() {
    for a in 1..SCOPE {
        let mut tree = IndexTreeMap::new();
        for i in 0..a {
            tree.insert(hash(i.to_le_bytes().as_slice()), i)
        }

        let split_index = a / 3;

        let tree_copy = tree.clone();
        let split_key = tree_copy.get_key_from_index(split_index).unwrap();
        let split_tree = tree.split_off_from_index(split_index);

        assert_eq!(tree.len() + split_tree.len(), a);
        let mut it = tree.iter();
        while let Some((key, _)) = it.next() {
            assert!(key < split_key)
        }
        let mut it = split_tree.iter();
        while let Some((key, _)) = it.next() {
            assert!(key >= split_key)
        }
    }
}

#[test]
fn map_tests_i32_expansive_test() {
    let mut tree = IndexTreeMap::new();
    for i in 0..SCOPE {
        for j in 0..i {
            tree.insert(j as i32, j)
        }

        for k in 0..i {
            assert!(tree.get(&(k as i32)).is_some());
        }
    }
}

#[test]
fn map_tests_i32_get() {
    let mut tree = IndexTreeMap::new();
    for i in 0..SCOPE {
        tree.insert(i as i32, i)
    }

    for i in 0..SCOPE {
        assert!(tree.get(&(i as i32)).is_some());
    }
}

#[test]
fn map_tests_i32_get_index() {
    let mut tree = IndexTreeMap::new();
    for i in 0..SCOPE {
        tree.insert(i as i32, i)
    }

    for i in 0..SCOPE {
        assert!(tree.get_from_index(i).is_some());
    }
}

#[test]
fn map_tests_i32_index_from_key() {
    let mut tree = IndexTreeMap::new();
    for i in 0..SCOPE {
        tree.insert(i as i32, i)
    }

    for i in 0..SCOPE {
        assert!(tree.get_index_from_key(&(i as i32)).is_some());
    }
}

#[test]
fn map_tests_i32_remove() {
    let mut tree = IndexTreeMap::new();
    for i in 0..SCOPE {
        tree.insert(i as i32, i)
    }

    let removed = SCOPE / 3 + 1;
    tree.remove(&(removed as i32));

    let mut it = tree.iter();
    while let Some((key, value)) = it.next() {
        assert_ne!(key, &(removed as i32));
        assert_ne!(value, &removed)
    }
}

#[test]
fn map_tests_i32_replace() {
    let mut tree = IndexTreeMap::new();
    for i in 0..SCOPE {
        tree.insert(i as i32, i)
    }

    let removed = SCOPE / 3 + 1;
    assert_eq!(tree.replace(&(removed as i32), removed + 1), Some(removed));
    assert_eq!(tree.get(&(removed as i32)), Some(&(removed + 1)));
}

#[test]
fn map_tests_i32_split_off() {
    for a in 10..SCOPE {
        let mut tree = IndexTreeMap::new();
        for i in 0..a {
            tree.insert(i as i32, i)
        }

        let split_key = &((a / 3 + 1) as i32);
        let split_tree = tree.split_off(split_key);

        assert_eq!(tree.len() + split_tree.len(), a);
        let mut it = tree.iter();
        while let Some((key, _)) = it.next() {
            assert!(key < split_key)
        }
        let mut it = split_tree.iter();
        while let Some((key, _)) = it.next() {
            assert!(key >= split_key)
        }
    }
}

#[test]
fn map_tests_usize_expansive_test() {
    let mut tree = IndexTreeMap::new();
    for i in 0..SCOPE {
        for j in 0..i {
            tree.insert(j, j)
        }

        for k in 0..i {
            assert!(tree.get(&k).is_some());
        }
    }
}

#[test]
fn map_tests_usize_get() {
    let mut tree = IndexTreeMap::new();
    for i in 0..SCOPE {
        tree.insert(i, i)
    }

    for i in 0..SCOPE {
        assert!(tree.get(&i).is_some());
    }
}

#[test]
fn map_tests_usize_get_index() {
    let mut tree = IndexTreeMap::new();
    for i in 0..SCOPE {
        tree.insert(i, i)
    }

    for i in 0..SCOPE {
        assert!(tree.get_from_index(i).is_some());
    }
}

#[test]
fn map_tests_usize_index_from_key() {
    let mut tree = IndexTreeMap::new();
    for i in 0..SCOPE {
        tree.insert(i, i)
    }

    for i in 0..SCOPE {
        assert!(tree.get_index_from_key(&i).is_some());
    }
}

#[test]
fn map_tests_usize_remove() {
    let mut tree = IndexTreeMap::new();
    for i in 0..SCOPE {
        tree.insert(i, i)
    }

    let removed = SCOPE / 3 + 1;
    tree.remove(&removed);

    let mut it = tree.iter();
    while let Some((key, value)) = it.next() {
        assert_ne!(key, &removed);
        assert_ne!(value, &removed)
    }
}

#[test]
fn map_tests_usize_replace() {
    let mut tree = IndexTreeMap::new();
    for i in 0..SCOPE {
        tree.insert(i, i)
    }

    let removed = SCOPE / 3 + 1;
    assert_eq!(tree.replace(&removed, removed + 1), Some(removed));
    assert_eq!(tree.get(&removed), Some(&(removed + 1)));
}

#[test]
fn map_tests_usize_split_off() {
    for a in 10..SCOPE {
        let mut tree = IndexTreeMap::new();
        for i in 0..a {
            tree.insert(i, i)
        }

        let split_key = &(a / 3 + 1);
        let split_tree = tree.split_off(split_key);

        assert_eq!(tree.len() + split_tree.len(), a);
        let mut it = tree.iter();
        while let Some((key, _)) = it.next() {
            assert!(key < split_key)
        }
        let mut it = split_tree.iter();
        while let Some((key, _)) = it.next() {
            assert!(key >= split_key)
        }
    }
}

#[test]
fn usize_iter() {
    let mut tree = IndexTreeMap::new();
    for i in 0..SCOPE {
        tree.insert(i, i)
    }

    let mut index: usize = 0;
    let mut it = tree.iter();
    while let Some((key, value)) = it.next() {
        println!("{index} {key} {value}");
        assert_eq!(key, &index);
        assert_eq!(value, &index);
        index += 1;
    }
}

#[test]
fn map_tests_byte_array_expansive_test() {
    let mut tree = IndexTreeMap::new();
    for i in 0..SCOPE {
        for j in 0..i {
            tree.insert(j.to_le_bytes(), j)
        }

        for k in 0..i {
            assert!(tree.get(&k.to_le_bytes()).is_some());
        }
    }
}

#[test]
fn map_tests_byte_array_get() {
    let mut tree = IndexTreeMap::new();
    for i in 0..SCOPE {
        tree.insert(i.to_le_bytes(), i)
    }

    for i in 0..SCOPE {
        assert!(tree.get(&i.to_le_bytes()).is_some());
    }
}

#[test]
fn map_tests_byte_array_get_index() {
    let mut tree = IndexTreeMap::new();
    for i in 0..SCOPE {
        tree.insert(i.to_le_bytes(), i)
    }

    for i in 0..SCOPE {
        assert!(tree.get_from_index(i).is_some());
    }
}

#[test]
fn map_tests_byte_array_index_from_key() {
    let mut tree = IndexTreeMap::new();
    for i in 0..SCOPE {
        tree.insert(i.to_le_bytes(), i)
    }

    for i in 0..SCOPE {
        assert!(tree.get_index_from_key(&i.to_le_bytes()).is_some());
    }
}

#[test]
fn map_tests_byte_array_remove() {
    let mut tree = IndexTreeMap::new();
    for i in 0..SCOPE {
        tree.insert(i.to_le_bytes(), i)
    }

    let removed = SCOPE / 3 + 1;
    tree.remove(&removed.to_le_bytes());

    let mut it = tree.iter();
    while let Some((key, value)) = it.next() {
        assert_ne!(key, &removed.to_le_bytes());
        assert_ne!(value, &removed)
    }
}

#[test]
fn map_tests_byte_array_replace() {
    let mut tree = IndexTreeMap::new();
    for i in 0..SCOPE {
        tree.insert(i.to_le_bytes(), i)
    }

    let removed = SCOPE / 3 + 1;
    assert_eq!(
        tree.replace(&removed.to_le_bytes(), removed + 1),
        Some(removed)
    );
    assert_eq!(tree.get(&removed.to_le_bytes()), Some(&(removed + 1)));
}

#[test]
fn map_tests_byte_array_split_off() {
    for a in 10..SCOPE {
        let mut tree: IndexTreeMap<[u8; 8], usize> = IndexTreeMap::new();
        for i in 0..a {
            tree.insert(i.to_le_bytes(), i)
        }

        let split_key = &(a / 3 + 1).to_le_bytes();
        let split_tree = tree.split_off(split_key);

        assert_eq!(tree.len() + split_tree.len(), a);
        let mut it = tree.iter();
        while let Some((key, _)) = it.next() {
            assert!(key < split_key)
        }
        let mut it = split_tree.iter();
        while let Some((key, _)) = it.next() {
            assert!(key >= split_key)
        }
    }
}

#[test]
fn test_values_without_traits() {
    let mut map: IndexTreeMap<u64, Value> = IndexTreeMap::default();
    map.insert(1, Value());
}

#[test]
fn map_tests_string_get_mut() {
    let mut tree = IndexTreeMap::new();
    for i in 0..SCOPE {
        tree.insert(hash(i.to_le_bytes().as_slice()), i)
    }

    for i in 0..SCOPE {
        assert!(tree.get_mut(&hash(i.to_le_bytes().as_slice())).is_some());
    }
}

#[test]
fn map_tests_string_get_mut_index() {
    let mut tree = IndexTreeMap::new();
    for i in 0..SCOPE {
        tree.insert(hash(i.to_le_bytes().as_slice()), i)
    }

    for i in 0..SCOPE {
        assert!(tree.get_mut_from_index(i).is_some());
    }
}

#[test]
fn map_tests_i32_get_mut() {
    let mut tree = IndexTreeMap::new();
    for i in 0..SCOPE {
        tree.insert(i as i32, i)
    }

    for i in 0..SCOPE {
        assert!(tree.get_mut(&(i as i32)).is_some());
    }
}

#[test]
fn map_tests_i32_get_mut_index() {
    let mut tree = IndexTreeMap::new();
    for i in 0..SCOPE {
        tree.insert(i as i32, i)
    }

    for i in 0..SCOPE {
        assert!(tree.get_mut_from_index(i).is_some());
    }
}

#[test]
fn map_tests_usize_get_mut() {
    let mut tree = IndexTreeMap::new();
    for i in 0..SCOPE {
        tree.insert(i, i)
    }

    for i in 0..SCOPE {
        assert!(tree.get_mut(&i).is_some());
    }
}

#[test]
fn map_tests_usize_get_mut_index() {
    let mut tree = IndexTreeMap::new();
    for i in 0..SCOPE {
        tree.insert(i, i)
    }

    for i in 0..SCOPE {
        assert!(tree.get_mut_from_index(i).is_some());
    }
}

#[test]
fn map_tests_byte_array_get_mut() {
    let mut tree = IndexTreeMap::new();
    for i in 0..SCOPE {
        tree.insert(i.to_le_bytes(), i)
    }

    for i in 0..SCOPE {
        assert!(tree.get_mut(&i.to_le_bytes()).is_some());
    }
}

#[test]
fn map_tests_byte_array_get_mut_index() {
    let mut tree = IndexTreeMap::new();
    for i in 0..SCOPE {
        tree.insert(i.to_le_bytes(), i)
    }

    for i in 0..SCOPE {
        assert!(tree.get_mut_from_index(i).is_some());
    }
}

