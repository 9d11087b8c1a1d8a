use authtree::{Digest, Key, TreeError, TreeState};

fn key(first: u8, last: u8) -> Key {
    let mut bytes = [0u8; 32];
    bytes[0] = first;
    bytes[31] = last;
    bytes
}

fn counting_key() -> Key {
    let mut bytes = [0u8; 32];
    for (i, b) in bytes.iter_mut().enumerate() {
        *b = i as u8;
    }
    bytes
}

#[test]
fn new_tree_has_no_root() {
    let tree = TreeState::new();
    assert_eq!(tree.current_root(), Err(TreeError::EmptyTree));
}

#[test]
fn new_tree_commits_to_the_vacant_digest() {
    let tree = TreeState::new();
    assert_eq!(tree.commitment(), Digest::vacant());
    assert_eq!(tree.get(&key(0, 0)), None);
}

#[test]
fn failed_operations_leave_the_tree_without_root() {
    let mut tree = TreeState::new();
    assert_eq!(
        tree.update(key(1, 1), b"v".to_vec()).unwrap_err(),
        TreeError::KeyNotFound
    );
    assert_eq!(tree.current_root(), Err(TreeError::EmptyTree));
}

#[test]
fn root_of_a_single_entry() {
    let mut tree = TreeState::new();
    tree.insert([0u8; 32], b"hello".to_vec()).unwrap();
    assert_eq!(
        tree.current_root().unwrap().to_hex(),
        "705e78fcbd9807fb5665bdbab3750e66fea4f72c9cfd9b89c40ffa52e4e46d61"
    );
    assert_eq!(tree.commitment(), tree.current_root().unwrap());
}

#[test]
fn root_of_another_single_entry() {
    let mut tree = TreeState::new();
    tree.insert(counting_key(), b"value".to_vec()).unwrap();
    assert_eq!(
        tree.current_root().unwrap().to_hex(),
        "b28ce0c9a9f9b8f6319e74702db20d89e472951cf3de522c1a435f08da357bda"
    );
}

#[test]
fn root_of_two_entries_that_part_at_the_root() {
    let mut tree = TreeState::new();
    tree.insert([0u8; 32], b"hello".to_vec()).unwrap();
    tree.insert(key(0x80, 0), b"world".to_vec()).unwrap();
    assert_eq!(
        tree.current_root().unwrap().to_hex(),
        "c8368f23ffdf79fa72b53aa7ae0ad4e0355f14286160ade550f44f465b899d97"
    );
}

#[test]
fn root_of_two_entries_that_part_at_the_last_bit() {
    let mut tree = TreeState::new();
    tree.insert([0u8; 32], b"hello".to_vec()).unwrap();
    tree.insert(key(0, 1), b"x".to_vec()).unwrap();
    assert_eq!(
        tree.current_root().unwrap().to_hex(),
        "68c1ed04cfa1c918df98461e740f4df0b94a029bb94119f442ac1c90eaf75fb7"
    );
}

#[test]
fn root_of_three_entries() {
    let mut tree = TreeState::new();
    tree.insert([0u8; 32], b"hello".to_vec()).unwrap();
    tree.insert(key(0x80, 0), b"world".to_vec()).unwrap();
    tree.insert([0xffu8; 32], b"!".to_vec()).unwrap();
    assert_eq!(
        tree.current_root().unwrap().to_hex(),
        "b7f6fb5e6f5e565305319a8dc79346b525dbff6170bf10db55ae2b7a50ffa44d"
    );
}

#[test]
fn root_after_an_update() {
    let mut tree = TreeState::new();
    tree.insert([0u8; 32], b"hello".to_vec()).unwrap();
    tree.insert(key(0x80, 0), b"world".to_vec()).unwrap();
    tree.update([0u8; 32], b"bye".to_vec()).unwrap();
    assert_eq!(
        tree.current_root().unwrap().to_hex(),
        "beb32d9ec718342c4c692b49ccbbf203a7706823c947b306657936990cf13250"
    );
}

#[test]
fn root_does_not_depend_on_the_order_of_insertion() {
    let entries: Vec<(Key, Vec<u8>)> = (0..20u8)
        .map(|i| (key(i.wrapping_mul(13), i), vec![i; (i as usize) % 5]))
        .collect();
    let mut forward = TreeState::new();
    for (k, v) in entries.iter() {
        forward.insert(*k, v.clone()).unwrap();
    }
    let mut backward = TreeState::new();
    for (k, v) in entries.iter().rev() {
        backward.insert(*k, v.clone()).unwrap();
    }
    assert_eq!(forward.current_root(), backward.current_root());
}

#[test]
fn update_back_restores_the_root() {
    let mut tree = TreeState::new();
    tree.insert(key(1, 0), b"one".to_vec()).unwrap();
    tree.insert(key(2, 0), b"two".to_vec()).unwrap();
    let before = tree.current_root().unwrap();
    tree.update(key(1, 0), b"uno".to_vec()).unwrap();
    assert_ne!(tree.current_root().unwrap(), before);
    tree.update(key(1, 0), b"one".to_vec()).unwrap();
    assert_eq!(tree.current_root().unwrap(), before);
}

#[test]
fn insert_twice_fails_with_key_already_exists() {
    let mut tree = TreeState::new();
    assert!(tree.insert(key(9, 9), b"first".to_vec()).is_ok());
    let root = tree.current_root().unwrap();
    assert_eq!(
        tree.insert(key(9, 9), b"second".to_vec()).unwrap_err(),
        TreeError::KeyAlreadyExists
    );
    assert_eq!(tree.current_root().unwrap(), root);
    assert_eq!(tree.get(&key(9, 9)), Some(b"first".to_vec()));
}

#[test]
fn insert_of_the_same_value_twice_fails_too() {
    let mut tree = TreeState::new();
    tree.insert(key(9, 9), b"same".to_vec()).unwrap();
    assert_eq!(
        tree.insert(key(9, 9), b"same".to_vec()).unwrap_err(),
        TreeError::KeyAlreadyExists
    );
}

#[test]
fn update_of_absent_key_fails_with_key_not_found() {
    let mut tree = TreeState::new();
    tree.insert(key(1, 0), b"one".to_vec()).unwrap();
    let root = tree.current_root().unwrap();
    assert_eq!(
        tree.update(key(1, 1), b"x".to_vec()).unwrap_err(),
        TreeError::KeyNotFound
    );
    assert_eq!(tree.current_root().unwrap(), root);
    assert_eq!(tree.get(&key(1, 1)), None);
}

#[test]
fn update_after_insert_succeeds_and_shows_the_new_value() {
    let mut tree = TreeState::new();
    tree.insert(key(4, 2), b"v".to_vec()).unwrap();
    let proof = tree.update(key(4, 2), b"v2".to_vec()).unwrap();
    assert_eq!(proof.old_value, b"v".to_vec());
    assert_eq!(proof.new_value, b"v2".to_vec());
    assert_eq!(tree.get(&key(4, 2)), Some(b"v2".to_vec()));
    let mut direct = TreeState::new();
    direct.insert(key(4, 2), b"v2".to_vec()).unwrap();
    assert_eq!(
        proof.verify(&proof.prior_root),
        Ok(direct.current_root().unwrap())
    );
}

#[test]
fn get_finds_what_was_put() {
    let mut tree = TreeState::new();
    for i in 0..40u8 {
        tree.insert(key(i, i.wrapping_mul(7)), vec![i, i, i]).unwrap();
    }
    for i in 0..40u8 {
        assert_eq!(tree.get(&key(i, i.wrapping_mul(7))), Some(vec![i, i, i]));
    }
    assert_eq!(tree.get(&key(40, 0)), None);
    assert_eq!(tree.get(&key(0, 1)), None);
}

#[test]
fn empty_value_is_a_value() {
    let mut tree = TreeState::new();
    tree.insert(key(1, 1), Vec::new()).unwrap();
    assert_eq!(tree.get(&key(1, 1)), Some(Vec::new()));
    assert!(tree.current_root().is_ok());
    assert_ne!(tree.current_root().unwrap(), Digest::vacant());
}

#[test]
fn insert_proof_brackets_the_call() {
    let mut tree = TreeState::new();
    tree.insert(key(1, 0), b"one".to_vec()).unwrap();
    let before = tree.current_root().unwrap();
    let proof = tree.insert(key(2, 0), b"two".to_vec()).unwrap();
    let after = tree.current_root().unwrap();
    assert_eq!(proof.prior_root, before);
    assert_eq!(proof.new_root, after);
    assert_eq!(proof.key, key(2, 0));
    assert_eq!(proof.value, b"two".to_vec());
    assert_eq!(proof.siblings.len(), 256);
    assert_ne!(before, after);
}

#[test]
fn first_insert_starts_at_the_vacant_digest() {
    let mut tree = TreeState::new();
    let proof = tree.insert(key(1, 0), b"one".to_vec()).unwrap();
    assert_eq!(proof.prior_root, Digest::vacant());
    assert_eq!(proof.new_root, tree.current_root().unwrap());
    assert!(proof.siblings.iter().all(|d| d.is_vacant()));
}

#[test]
fn update_proof_brackets_the_call() {
    let mut tree = TreeState::new();
    tree.insert(key(1, 0), b"one".to_vec()).unwrap();
    tree.insert(key(2, 0), b"two".to_vec()).unwrap();
    let before = tree.current_root().unwrap();
    let proof = tree.update(key(1, 0), b"uno".to_vec()).unwrap();
    let after = tree.current_root().unwrap();
    assert_eq!(proof.prior_root, before);
    assert_eq!(proof.new_root, after);
    assert_eq!(proof.key, key(1, 0));
    assert_eq!(proof.leaf.key, key(1, 0));
    assert_eq!(proof.leaf.value_digest, Digest::hash(b"one"));
    assert_eq!(proof.siblings.len(), 256);
}

#[test]
fn witness_holds_the_neighbour_at_the_parting_level() {
    let mut tree = TreeState::new();
    tree.insert([0u8; 32], b"hello".to_vec()).unwrap();
    let at_root = tree.insert(key(0x80, 0), b"world".to_vec()).unwrap();
    assert_eq!(
        at_root.siblings[0].to_hex(),
        "36082d6e843ce9667af100b47ae65d3fe8ea161d9476ec51025624c599b1527f"
    );
    assert!(at_root.siblings[1..].iter().all(|d| d.is_vacant()));

    let mut tree = TreeState::new();
    tree.insert([0u8; 32], b"hello".to_vec()).unwrap();
    let at_leaf = tree.insert(key(0, 1), b"x".to_vec()).unwrap();
    assert_eq!(
        at_leaf.siblings[255].to_hex(),
        "3fa4b2237523dfe5fe0f4e3cbdf16a50bf10d48cb15e40ff00553baa94936b35"
    );
    assert!(at_leaf.siblings[..255].iter().all(|d| d.is_vacant()));
}

#[test]
fn same_operations_give_the_same_roots_and_proofs() {
    let mut first = TreeState::new();
    let mut second = TreeState::new();
    for i in 0..30u8 {
        let k = key(i.wrapping_mul(31), i);
        let a = first.insert(k, vec![i]).unwrap();
        let b = second.insert(k, vec![i]).unwrap();
        assert_eq!(a, b);
        assert_eq!(first.current_root(), second.current_root());
    }
    for i in (0..30u8).step_by(3) {
        let k = key(i.wrapping_mul(31), i);
        let a = first.update(k, vec![i, 1]).unwrap();
        let b = second.update(k, vec![i, 1]).unwrap();
        assert_eq!(a, b);
        assert_eq!(first.current_root(), second.current_root());
    }
}
