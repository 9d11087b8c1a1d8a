use authtree::{Digest, InsertProof, Key, Proof, TreeError, TreeState, UpdateProof};

fn key(first: u8, last: u8) -> Key {
    let mut bytes = [0u8; 32];
    bytes[0] = first;
    bytes[31] = last;
    bytes
}

fn filled() -> TreeState {
    let mut tree = TreeState::new();
    for i in 0..16u8 {
        tree.insert(key(i.wrapping_mul(17), i), vec![i; 3]).unwrap();
    }
    tree
}

fn some_insert() -> (InsertProof, Digest, Digest) {
    let mut tree = filled();
    let before = tree.current_root().unwrap();
    let proof = tree.insert(key(0xaa, 0x55), b"fresh".to_vec()).unwrap();
    (proof, before, tree.current_root().unwrap())
}

fn some_update() -> (UpdateProof, Digest, Digest) {
    let mut tree = filled();
    let before = tree.current_root().unwrap();
    let proof = tree.update(key(17, 1), b"changed".to_vec()).unwrap();
    (proof, before, tree.current_root().unwrap())
}

#[test]
fn insert_proof_verifies_to_the_new_root() {
    let (proof, before, after) = some_insert();
    assert_eq!(proof.verify(&before), Ok(after));
}

#[test]
fn update_proof_verifies_to_the_new_root() {
    let (proof, before, after) = some_update();
    assert_eq!(proof.verify(&before), Ok(after));
}

#[test]
fn tagged_proof_verifies_by_its_kind() {
    let (insert, before, after) = some_insert();
    assert_eq!(Proof::Insert(insert.clone()).verify(&before), Ok(after));
    assert_eq!(Proof::Insert(insert).key(), key(0xaa, 0x55));
    let (update, before, after) = some_update();
    assert_eq!(Proof::Update(update.clone()).verify(&before), Ok(after));
    assert_eq!(Proof::Update(update).key(), key(17, 1));
}

#[test]
fn verify_does_not_hand_back_the_prior_root() {
    let (proof, before, _) = some_insert();
    assert_ne!(proof.verify(&before), Ok(before));
    let (proof, before, _) = some_update();
    assert_ne!(proof.verify(&before), Ok(before));
}

#[test]
fn insert_proof_against_another_root_is_invalid() {
    let (proof, _, after) = some_insert();
    assert_eq!(proof.verify(&after), Err(TreeError::InvalidProof));
    assert_eq!(proof.verify(&Digest::vacant()), Err(TreeError::InvalidProof));
}

#[test]
fn update_proof_against_another_root_is_invalid() {
    let (proof, _, after) = some_update();
    assert_eq!(proof.verify(&after), Err(TreeError::InvalidProof));
}

#[test]
fn insert_proof_with_too_few_or_too_many_digests_is_invalid() {
    let (proof, before, _) = some_insert();
    let mut short = proof.clone();
    short.siblings.pop();
    assert_eq!(short.verify(&before), Err(TreeError::InvalidProof));
    let mut long = proof.clone();
    long.siblings.push(Digest::vacant());
    assert_eq!(long.verify(&before), Err(TreeError::InvalidProof));
    let mut none = proof;
    none.siblings.clear();
    assert_eq!(none.verify(&before), Err(TreeError::InvalidProof));
}

#[test]
fn update_proof_with_too_few_digests_is_invalid() {
    let (mut proof, before, _) = some_update();
    proof.siblings.truncate(255);
    assert_eq!(proof.verify(&before), Err(TreeError::InvalidProof));
}

#[test]
fn insert_proof_for_a_present_key_is_invalid() {
    let mut tree = filled();
    let before = tree.current_root().unwrap();
    let update = tree.update(key(17, 1), b"changed".to_vec()).unwrap();
    let forged = InsertProof {
        key: update.key,
        value: b"changed".to_vec(),
        prior_root: before,
        new_root: update.new_root,
        siblings: update.siblings.clone(),
    };
    assert_eq!(forged.verify(&before), Err(TreeError::InvalidProof));
}

#[test]
fn update_proof_whose_leaf_names_another_key_is_a_key_mismatch() {
    let (mut proof, before, _) = some_update();
    proof.leaf.key = key(17, 2);
    assert_eq!(proof.verify(&before), Err(TreeError::ProofKeyMismatch));
}

#[test]
fn update_proof_that_states_another_key_is_a_key_mismatch() {
    let (mut proof, before, _) = some_update();
    proof.key = key(34, 2);
    assert_eq!(proof.verify(&before), Err(TreeError::ProofKeyMismatch));
}

#[test]
fn update_proof_whose_leaf_commits_to_another_value_is_a_value_mismatch() {
    let (mut proof, before, _) = some_update();
    proof.leaf.value_digest = Digest::hash(b"something else");
    assert_eq!(proof.verify(&before), Err(TreeError::ProofValueMismatch));
}

#[test]
fn update_proof_that_states_another_old_value_is_a_value_mismatch() {
    let (mut proof, before, _) = some_update();
    proof.old_value.push(0);
    assert_eq!(proof.verify(&before), Err(TreeError::ProofValueMismatch));
}

#[test]
fn key_mismatch_is_reported_before_value_mismatch() {
    let (mut proof, before, _) = some_update();
    proof.leaf.key = key(17, 2);
    proof.leaf.value_digest = Digest::hash(b"something else");
    assert_eq!(proof.verify(&before), Err(TreeError::ProofKeyMismatch));
}

#[test]
fn update_proof_for_both_key_and_leaf_moved_is_invalid() {
    let (mut proof, before, _) = some_update();
    proof.key = key(34, 2);
    proof.leaf.key = key(34, 2);
    assert_eq!(proof.verify(&before), Err(TreeError::InvalidProof));
}

#[test]
fn a_changed_new_value_changes_the_root_that_verify_gives() {
    let (mut proof, before, after) = some_insert();
    proof.value = b"other".to_vec();
    let implied = proof.verify(&before).unwrap();
    assert_ne!(implied, after);
    let (mut proof, before, after) = some_update();
    proof.new_value = b"other".to_vec();
    let implied = proof.verify(&before).unwrap();
    assert_ne!(implied, after);
}

#[test]
fn stated_roots_are_not_trusted_by_verify() {
    let (mut proof, before, after) = some_insert();
    proof.prior_root = Digest::from_array([1u8; 32]);
    proof.new_root = Digest::from_array([2u8; 32]);
    assert_eq!(proof.verify(&before), Ok(after));
}

#[test]
fn flipping_any_bit_of_any_sibling_of_an_insert_proof_is_detected() {
    let (proof, before, _) = some_insert();
    for level in (0..256).step_by(5) {
        for byte in [0usize, 13, 31] {
            let mut forged = proof.clone();
            let mut bytes = forged.siblings[level].to_bytes();
            bytes[byte] ^= 0x10;
            forged.siblings[level] = Digest::from_array(bytes);
            assert_eq!(forged.verify(&before), Err(TreeError::InvalidProof));
        }
    }
}

#[test]
fn flipping_any_bit_of_any_sibling_of_an_update_proof_is_detected() {
    let (proof, before, _) = some_update();
    for level in (0..256).step_by(7) {
        let mut forged = proof.clone();
        let mut bytes = forged.siblings[level].to_bytes();
        bytes[level % 32] ^= 0x01;
        forged.siblings[level] = Digest::from_array(bytes);
        assert_eq!(forged.verify(&before), Err(TreeError::InvalidProof));
    }
}

#[test]
fn swapping_two_siblings_is_detected() {
    let mut tree = filled();
    let before = tree.current_root().unwrap();
    let mut proof = tree.insert(key(0, 0xff), b"fresh".to_vec()).unwrap();
    let first_full = proof.siblings.iter().position(|d| !d.is_vacant()).unwrap();
    let first_vacant = proof.siblings.iter().position(|d| d.is_vacant()).unwrap();
    proof.siblings.swap(first_full, first_vacant);
    assert_eq!(proof.verify(&before), Err(TreeError::InvalidProof));
}
