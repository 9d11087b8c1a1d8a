use authtree::{Batch, Digest, Key, Proof, TreeError, TreeState};

fn key(first: u8, last: u8) -> Key {
    let mut bytes = [0u8; 32];
    bytes[0] = first;
    bytes[31] = last;
    bytes
}

fn small_batch() -> Batch {
    let mut tree = TreeState::new();
    tree.insert(key(1, 1), b"seed".to_vec()).unwrap();
    let prev_root = tree.current_root().unwrap();
    let mut proofs = Vec::new();
    proofs.push(Proof::Insert(tree.insert(key(2, 2), b"two".to_vec()).unwrap()));
    proofs.push(Proof::Update(tree.update(key(1, 1), b"grown".to_vec()).unwrap()));
    proofs.push(Proof::Insert(tree.insert(key(0x82, 2), b"three".to_vec()).unwrap()));
    proofs.push(Proof::Update(tree.update(key(2, 2), b"deux".to_vec()).unwrap()));
    proofs.push(Proof::Update(tree.update(key(2, 2), b"zwei".to_vec()).unwrap()));
    let new_root = tree.current_root().unwrap();
    Batch { prev_root, new_root, proofs }
}

#[test]
fn empty_batch_with_equal_roots_validates() {
    let root = Digest::hash(b"any root");
    let batch = Batch { prev_root: root, new_root: root, proofs: Vec::new() };
    assert_eq!(batch.validate(), Ok(root));
}

#[test]
fn empty_batch_with_different_roots_is_a_root_mismatch() {
    let batch = Batch {
        prev_root: Digest::hash(b"one root"),
        new_root: Digest::hash(b"another root"),
        proofs: Vec::new(),
    };
    assert_eq!(batch.validate(), Err(TreeError::RootMismatch));
}

#[test]
fn empty_batch_over_the_vacant_root_validates() {
    let batch = Batch {
        prev_root: Digest::vacant(),
        new_root: Digest::vacant(),
        proofs: Vec::new(),
    };
    assert_eq!(batch.validate(), Ok(Digest::vacant()));
}

#[test]
fn honest_batch_validates_to_its_new_root() {
    let batch = small_batch();
    assert_eq!(batch.validate(), Ok(batch.new_root));
    assert_ne!(batch.prev_root, batch.new_root);
}

#[test]
fn batch_from_an_empty_tree_starts_at_the_vacant_root() {
    let mut tree = TreeState::new();
    let prev_root = tree.commitment();
    let proofs = vec![
        Proof::Insert(tree.insert(key(5, 5), b"five".to_vec()).unwrap()),
        Proof::Update(tree.update(key(5, 5), b"cinq".to_vec()).unwrap()),
    ];
    let batch = Batch { prev_root, new_root: tree.current_root().unwrap(), proofs };
    assert_eq!(batch.prev_root, Digest::vacant());
    assert_eq!(batch.validate(), Ok(batch.new_root));
}

#[test]
fn folding_verify_reproduces_each_intermediate_root() {
    let mut tree = TreeState::new();
    tree.insert(key(1, 1), b"seed".to_vec()).unwrap();
    let mut roots = vec![tree.current_root().unwrap()];
    let mut proofs = Vec::new();
    for i in 0..12u8 {
        if i % 3 == 0 {
            proofs.push(Proof::Update(tree.update(key(1, 1), vec![i]).unwrap()));
        } else {
            proofs.push(Proof::Insert(tree.insert(key(i + 10, i), vec![i]).unwrap()));
        }
        roots.push(tree.current_root().unwrap());
    }
    let mut running = roots[0];
    for (i, proof) in proofs.iter().enumerate() {
        running = proof.verify(&running).unwrap();
        assert_eq!(running, roots[i + 1]);
    }
    assert_eq!(running, tree.current_root().unwrap());
}

#[test]
fn wrong_new_root_is_a_root_mismatch() {
    let mut batch = small_batch();
    batch.new_root = batch.prev_root;
    assert_eq!(batch.validate(), Err(TreeError::RootMismatch));
}

#[test]
fn wrong_prev_root_is_an_invalid_proof() {
    let mut batch = small_batch();
    batch.prev_root = Digest::hash(b"not the root");
    assert_eq!(batch.validate(), Err(TreeError::InvalidProof));
}

#[test]
fn dropping_the_last_proof_is_a_root_mismatch() {
    let mut batch = small_batch();
    batch.proofs.pop();
    assert_eq!(batch.validate(), Err(TreeError::RootMismatch));
}

#[test]
fn dropping_a_proof_in_the_middle_is_an_invalid_proof() {
    let mut batch = small_batch();
    batch.proofs.remove(1);
    assert_eq!(batch.validate(), Err(TreeError::InvalidProof));
}

#[test]
fn reordering_proofs_fails() {
    let mut batch = small_batch();
    batch.proofs.swap(0, 2);
    assert_eq!(batch.validate(), Err(TreeError::InvalidProof));
}

#[test]
fn tampered_sibling_in_any_proof_fails_the_batch() {
    let batch = small_batch();
    for at in 0..batch.proofs.len() {
        let mut forged = batch.clone();
        let siblings = match &mut forged.proofs[at] {
            Proof::Insert(p) => &mut p.siblings,
            Proof::Update(p) => &mut p.siblings,
        };
        let mut bytes = siblings[200].to_bytes();
        bytes[7] ^= 0x80;
        siblings[200] = Digest::from_array(bytes);
        let outcome = forged.validate();
        assert!(matches!(
            outcome,
            Err(TreeError::InvalidProof) | Err(TreeError::RootMismatch)
        ));
        assert_eq!(outcome, Err(TreeError::InvalidProof));
    }
}

#[test]
fn tampered_leaf_fails_the_batch_with_a_mismatch() {
    let batch = small_batch();
    let mut forged = batch.clone();
    if let Proof::Update(p) = &mut forged.proofs[1] {
        p.leaf.value_digest = Digest::hash(b"forged");
    } else {
        panic!("the second proof is an update");
    }
    assert_eq!(forged.validate(), Err(TreeError::ProofValueMismatch));
    let mut forged = batch;
    if let Proof::Update(p) = &mut forged.proofs[3] {
        p.leaf.key = key(3, 3);
    } else {
        panic!("the fourth proof is an update");
    }
    assert_eq!(forged.validate(), Err(TreeError::ProofKeyMismatch));
}

#[test]
fn tampered_value_in_the_last_proof_is_a_root_mismatch() {
    let mut batch = small_batch();
    let last = batch.proofs.len() - 1;
    if let Proof::Update(p) = &mut batch.proofs[last] {
        p.new_value = b"forged".to_vec();
    } else {
        panic!("the last proof is an update");
    }
    assert_eq!(batch.validate(), Err(TreeError::RootMismatch));
}

#[test]
fn first_failure_wins() {
    let mut batch = small_batch();
    if let Proof::Update(p) = &mut batch.proofs[1] {
        p.leaf.key = key(3, 3);
    } else {
        panic!("the second proof is an update");
    }
    if let Proof::Update(p) = &mut batch.proofs[3] {
        p.leaf.value_digest = Digest::hash(b"forged");
    } else {
        panic!("the fourth proof is an update");
    }
    batch.new_root = batch.prev_root;
    assert_eq!(batch.validate(), Err(TreeError::ProofKeyMismatch));
}

#[test]
fn validate_leaves_the_batch_as_it_was() {
    let batch = small_batch();
    let copy = batch.clone();
    let _ = batch.validate();
    assert_eq!(batch, copy);
}
