use indextreemap::IndexTreeSet;
use sha2::{Digest, Sha256};

const SCOPE: usize = 2_000;

fn hash(n: &[u8]) -> String {
    let mut sha256 = Sha256::new();
    sha256.update(n);
    hex::encode(sha256.finalize())
}

#[test]
fn set_tests_insert_test() {
    let mut tree = IndexTreeSet::new();
    for i in 0..SCOPE {
        tree.insert(i.to_string());
    }

    println!("{tree:#?}")
}

#[test]
fn set_tests_clear_test() {
    let mut tree = IndexTreeSet::new();
    for i in 0..SCOPE {
        tree.insert(hash(i.to_le_bytes().as_slice()))
    }

    for i in 0..SCOPE {
        assert!(tree.contains_key(&hash(i.to_le_bytes().as_slice())));
    }

    tree.clear();

    for i in 0..SCOPE {
        assert!(!tree.contains_key(&hash(i.to_le_bytes().as_slice())));
    }

    for i in 0..SCOPE {
        tree.insert(hash(i.to_le_bytes().as_slice()))
    }

    for i in 0..SCOPE {
        assert!(tree.contains_key(&hash(i.to_le_bytes().as_slice())));
    }
}

#[test]
fn set_tests_string_expansive_test() {
    let hashes: Vec<String> = (0..SCOPE)
        .map(|i| hash(i.to_le_bytes().as_slice()))
        .collect();
    let mut tree = IndexTreeSet::new();
    for i in 0..SCOPE {
        for j in 0..i {
            tree.insert(hashes[j].clone())
        }

        for k in 0..i {
            assert!(tree.contains_key(&hashes[k]));
        }
    }
}

#[test]
fn set_tests_string_index_from_key() {
    let mut tree = IndexTreeSet::new();
    for i in 0..SCOPE {
        tree.insert(hash(i.to_le_bytes().as_slice()))
    }

    for i in 0..SCOPE {
        assert!(tree
            .get_index_from_key(&hash(i.to_le_bytes().as_slice()))
            .is_some());
    }
}

#[test]
fn set_tests_string_remove() {
    let mut tree = IndexTreeSet::new();
    for i in 0..SCOPE {
        tree.insert(hash(i.to_le_bytes().as_slice()))
    }

    let removed = SCOPE / 3 + 1;
    tree.remove(&hash(removed.to_le_bytes().as_slice()));

    let mut it = tree.iter();
    while let Some(key) = it.next() {
        assert_ne!(key, &removed.to_string());
    }
}

#[test]
fn set_tests_string_split_off() {
    for a in 10..SCOPE {
        let mut tree = IndexTreeSet::new();
        for i in 0..a {
            tree.insert(hash(i.to_le_bytes().as_slice()))
        }

        let split_key = &(a / 3 + 1).to_string();
        let split_tree = tree.split_off(split_key);

        assert_eq!(tree.len() + split_tree.len(), a);
        let mut it = tree.iter();
        while let Some(key) = it.next() {
            assert!(key < split_key)
        }
        let mut it = split_tree.iter();
        while let Some(key) = it.next() {
            assert!(key >= split_key)
        }
    }
}

#[test]
fn set_tests_string_split_off_at_index() {
    for a in 1..SCOPE {
        let mut tree = IndexTreeSet::new();
        for i in 0..a {
            tree.insert(hash(i.to_le_bytes().as_slice()))
        }

        let split_index = a / 3;

        let tree_copy = tree.clone();
        let split_key = tree_copy.get_key_from_index(split_index).unwrap();
        let split_tree = tree.split_off_from_index(split_index);

        assert_eq!(tree.len() + split_tree.len(), a);
        let mut it = tree.iter();
        while let Some(key) = it.next() {
            assert!(key < split_key)
        }
        let mut it = split_tree.iter();
        while let Some(key) = it.next() {
            assert!(key >= split_key)
        }
    }
}

#[test]
fn set_tests_i32_expansive_test() {
    let mut tree = IndexTreeSet::new();
    for i in 0..SCOPE {
        for j in 0..i {
            tree.insert(j as i32)
        }

        for k in 0..i {
            assert!(tree.contains_key(&(k as i32)));
        }
    }
}

#[test]
fn set_tests_i32_remove() {
    let mut tree = IndexTreeSet::new();
    for i in 0..SCOPE {
        tree.insert(i as i32)
    }

    let removed = SCOPE / 3 + 1;
    tree.remove(&(removed as i32));

    let mut it = tree.iter();
    while let Some(key) = it.next() {
        assert_ne!(key, &(removed as i32));
    }
}

#[test]
fn set_tests_i32_split_off() {
    for a in 10..SCOPE {
        let mut tree = IndexTreeSet::new();
        for i in 0..a {
            tree.insert(i as i32)
        }

        let split_key = &((a / 3 + 1) as i32);
        let split_tree = tree.split_off(split_key);

        assert_eq!(tree.len() + split_tree.len(), a);
        let mut it = tree.iter();
        while let Some(key) = it.next() {
            assert!(key < split_key)
        }
        let mut it = split_tree.iter();
        while let Some(key) = it.next() {
            assert!(key >= split_key)
        }
    }
}

#[test]
fn set_tests_usize_expansive_test() {
    let mut tree = IndexTreeSet::new();
    for i in 0..SCOPE {
        for j in 0..i {
            tree.insert(j)
        }

        for k in 0..i {
            assert!(tree.contains_key(&k));
        }
    }
}

#[test]
fn set_tests_usize_index_from_key() {
    let mut tree = IndexTreeSet::new();
    for i in 0..SCOPE {
        tree.insert(i)
    }

    for i in 0..SCOPE {
        assert_eq!(tree.get_index_from_key(&i).unwrap(), i);
    }
}

#[test]
fn set_tests_usize_remove() {
    let mut tree = IndexTreeSet::new();
    for i in 0..SCOPE {
        tree.insert(i)
    }

    let removed = SCOPE / 3 + 1;
    tree.remove(&removed);

    let mut it = tree.iter();
    while let Some(key) = it.next() {
        assert_ne!(key, &removed);
    }
}

#[test]
fn set_tests_usize_split_off() {
    for a in 10..SCOPE {
        let mut tree = IndexTreeSet::new();
        for i in 0..a {
            tree.insert(i)
        }

        let split_key = &(a / 3 + 1);
        let split_tree = tree.split_off(split_key);

        assert_eq!(tree.len() + split_tree.len(), a);
        let mut it = tree.iter();
        while let Some(key) = it.next() {
            assert!(key < split_key)
        }
        let mut it = split_tree.iter();
        while let Some(key) = it.next() {
            assert!(key >= split_key)
        }
    }
}

#[test]
fn set_tests_byte_array_expansive_test() {
    let mut tree = IndexTreeSet::new();
    for i in 0..SCOPE {
        for j in 0..i {
            tree.insert(j.to_le_bytes())
        }

        for k in 0..i {
            assert!(tree.contains_key(&k.to_le_bytes()));
        }
    }
}

#[test]
fn set_tests_byte_array_index_from_key() {
    let mut tree = IndexTreeSet::new();
    for i in 0..SCOPE {
        tree.insert(i.to_le_bytes())
    }

    for i in 0..SCOPE {
        assert!(tree.get_index_from_key(&i.to_le_bytes()).is_some());
    }
}

#[test]
fn set_tests_byte_array_remove() {
    let mut tree = IndexTreeSet::new();
    for i in 0..SCOPE {
        tree.insert(i.to_le_bytes())
    }

    let removed = SCOPE / 3 + 1;
    tree.remove(&removed.to_le_bytes());

    let mut it = tree.iter();
    while let Some(key) = it.next() {
        assert_ne!(key, &removed.to_le_bytes());
    }
}

#[test]
fn set_tests_byte_array_split_off() {
    for a in 10..SCOPE {
        let mut tree: IndexTreeSet<[u8; 8]> = IndexTreeSet::new();
        for i in 0..a {
            tree.insert(i.to_le_bytes())
        }

        let split_key = &(a / 3 + 1).to_le_bytes();
        let split_tree = tree.split_off(split_key);

        assert_eq!(tree.len() + split_tree.len(), a);
        let mut it = tree.iter();
        while let Some(key) = it.next() {
            assert!(key < split_key)
        }
        let mut it = split_tree.iter();
        while let Some(key) = it.next() {
            assert!(key >= split_key)
        }
    }
}
