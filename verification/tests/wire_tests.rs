use authtree::{
    Batch, Digest, InsertProof, Key, Proof, TreeError, TreeState, UpdateProof, WitnessLeaf,
};

fn key(first: u8, last: u8) -> Key {
    let mut bytes = [0u8; 32];
    bytes[0] = first;
    bytes[31] = last;
    bytes
}

fn small_batch() -> Batch {
    let mut tree = TreeState::new();
    tree.insert(key(1, 1), b"seed".to_vec()).unwrap();
    let prev_root = tree.current_root().unwrap();
    let proofs = vec![
        Proof::Insert(tree.insert(key(2, 2), b"two".to_vec()).unwrap()),
        Proof::Update(tree.update(key(1, 1), b"grown".to_vec()).unwrap()),
        Proof::Insert(tree.insert(key(0x82, 2), Vec::new()).unwrap()),
    ];
    Batch { prev_root, new_root: tree.current_root().unwrap(), proofs }
}

#[test]
fn empty_batch_is_two_roots_and_a_zero_count() {
    let batch = Batch {
        prev_root: Digest::from_array([0x11; 32]),
        new_root: Digest::from_array([0x22; 32]),
        proofs: Vec::new(),
    };
    let mut expected = vec![0x11u8; 32];
    expected.extend_from_slice(&[0x22u8; 32]);
    expected.extend_from_slice(&[0u8; 8]);
    assert_eq!(batch.to_bytes(), expected);
    assert_eq!(Batch::from_bytes(&expected), Some(batch));
}

#[test]
fn insert_proof_layout() {
    let proof = InsertProof {
        key: [0xa1; 32],
        value: vec![9, 8, 7],
        prior_root: Digest::from_array([0xb2; 32]),
        new_root: Digest::from_array([0xc3; 32]),
        siblings: vec![Digest::from_array([0xd4; 32]), Digest::from_array([0xe5; 32])],
    };
    let mut out = vec![0xffu8];
    proof.write_to(&mut out);
    let mut expected = vec![0xffu8, 0];
    expected.extend_from_slice(&[0xa1; 32]);
    expected.extend_from_slice(&[0xb2; 32]);
    expected.extend_from_slice(&[0xc3; 32]);
    expected.extend_from_slice(&[3, 0, 0, 0, 0, 0, 0, 0]);
    expected.extend_from_slice(&[9, 8, 7]);
    expected.extend_from_slice(&[2, 0, 0, 0, 0, 0, 0, 0]);
    expected.extend_from_slice(&[0xd4; 32]);
    expected.extend_from_slice(&[0xe5; 32]);
    assert_eq!(out, expected);
}

#[test]
fn update_proof_layout() {
    let proof = UpdateProof {
        key: [0xa1; 32],
        old_value: vec![1],
        new_value: vec![2, 3],
        prior_root: Digest::from_array([0xb2; 32]),
        new_root: Digest::from_array([0xc3; 32]),
        leaf: WitnessLeaf { key: [0xa6; 32], value_digest: Digest::from_array([0xf7; 32]) },
        siblings: vec![Digest::from_array([0xd4; 32])],
    };
    let mut out = Vec::new();
    Proof::Update(proof).write_to(&mut out);
    let mut expected = vec![1u8];
    expected.extend_from_slice(&[0xa1; 32]);
    expected.extend_from_slice(&[0xb2; 32]);
    expected.extend_from_slice(&[0xc3; 32]);
    expected.extend_from_slice(&[0xa6; 32]);
    expected.extend_from_slice(&[0xf7; 32]);
    expected.extend_from_slice(&[1, 0, 0, 0, 0, 0, 0, 0, 1]);
    expected.extend_from_slice(&[2, 0, 0, 0, 0, 0, 0, 0, 2, 3]);
    expected.extend_from_slice(&[1, 0, 0, 0, 0, 0, 0, 0]);
    expected.extend_from_slice(&[0xd4; 32]);
    assert_eq!(out, expected);
}

#[test]
fn length_is_written_least_significant_byte_first() {
    let proof = InsertProof {
        key: [0; 32],
        value: vec![5u8; 0x0102],
        prior_root: Digest::vacant(),
        new_root: Digest::vacant(),
        siblings: Vec::new(),
    };
    let mut out = Vec::new();
    proof.write_to(&mut out);
    assert_eq!(&out[97..105], &[0x02, 0x01, 0, 0, 0, 0, 0, 0]);
    assert_eq!(out.len(), 1 + 96 + 8 + 0x0102 + 8);
}

#[test]
fn batch_size_is_the_sum_of_its_parts() {
    let batch = small_batch();
    let bytes = batch.to_bytes();
    let insert = 1 + 96 + 8 + 8 + 256 * 32;
    let update = 1 + 160 + 8 + 8 + 8 + 256 * 32;
    assert_eq!(bytes.len(), 72 + (insert + 3) + (update + 4 + 5) + insert);
    assert_eq!(&bytes[..32], batch.prev_root.as_bytes());
    assert_eq!(&bytes[32..64], batch.new_root.as_bytes());
    assert_eq!(&bytes[64..72], &[3, 0, 0, 0, 0, 0, 0, 0]);
}

#[test]
fn written_batch_is_read_back() {
    let batch = small_batch();
    let bytes = batch.to_bytes();
    let back = Batch::from_bytes(&bytes).expect("what was written can be read");
    assert_eq!(back, batch);
    assert_eq!(back.to_bytes(), bytes);
}

#[test]
fn batch_read_back_validates_to_the_same_root() {
    let batch = small_batch();
    let back = Batch::from_bytes(&batch.to_bytes()).unwrap();
    assert_eq!(back.validate(), Ok(batch.new_root));
}

#[test]
fn malformed_proofs_are_written_and_read_back_as_they_are() {
    let mut batch = small_batch();
    if let Proof::Insert(p) = &mut batch.proofs[0] {
        p.siblings.truncate(3);
    } else {
        panic!("the first proof is an insertion");
    }
    let back = Batch::from_bytes(&batch.to_bytes()).unwrap();
    assert_eq!(back, batch);
    assert_eq!(back.validate(), Err(TreeError::InvalidProof));
}

#[test]
fn too_short_input_is_no_batch() {
    assert_eq!(Batch::from_bytes(&[]), None);
    assert_eq!(Batch::from_bytes(&[0u8; 63]), None);
    assert_eq!(Batch::from_bytes(&[0u8; 64]), None);
    assert_eq!(Batch::from_bytes(&[0u8; 71]), None);
    assert!(Batch::from_bytes(&[0u8; 72]).is_some());
}

#[test]
fn trailing_bytes_are_refused() {
    let mut bytes = small_batch().to_bytes();
    bytes.push(0);
    assert_eq!(Batch::from_bytes(&bytes), None);
}

#[test]
fn truncated_input_is_refused_at_every_cut() {
    let bytes = small_batch().to_bytes();
    for cut in (0..bytes.len()).step_by(97) {
        assert_eq!(Batch::from_bytes(&bytes[..cut]), None, "cut at {}", cut);
    }
    assert_eq!(Batch::from_bytes(&bytes[..bytes.len() - 1]), None);
}

#[test]
fn unknown_tag_is_refused() {
    let mut bytes = small_batch().to_bytes();
    assert_eq!(bytes[72], 0);
    bytes[72] = 2;
    assert_eq!(Batch::from_bytes(&bytes), None);
    bytes[72] = 0xff;
    assert_eq!(Batch::from_bytes(&bytes), None);
}

#[test]
fn a_count_beyond_the_input_is_refused() {
    let mut bytes = vec![0u8; 64];
    bytes.extend_from_slice(&[0xff; 8]);
    assert_eq!(Batch::from_bytes(&bytes), None);
    let mut bytes = vec![0u8; 64];
    bytes.extend_from_slice(&[1, 0, 0, 0, 0, 0, 0, 0]);
    assert_eq!(Batch::from_bytes(&bytes), None);
}

#[test]
fn a_length_beyond_the_input_is_refused() {
    let mut bytes = vec![0u8; 64];
    bytes.extend_from_slice(&[1, 0, 0, 0, 0, 0, 0, 0]);
    bytes.push(0);
    bytes.extend_from_slice(&[7u8; 96]);
    bytes.extend_from_slice(&[0xff, 0xff, 0xff, 0xff, 0xff, 0xff, 0xff, 0xff]);
    bytes.extend_from_slice(&[0u8; 8]);
    assert_eq!(Batch::from_bytes(&bytes), None);
    let at = bytes.len() - 16;
    bytes[at..at + 8].copy_from_slice(&[0u8; 8]);
    let read = Batch::from_bytes(&bytes).expect("an empty value and no digests");
    assert_eq!(read.proofs.len(), 1);
    let at = bytes.len() - 8;
    bytes[at..].copy_from_slice(&[0xff, 0xff, 0xff, 0xff, 0xff, 0xff, 0xff, 0x07]);
    assert_eq!(Batch::from_bytes(&bytes), None);
}

#[test]
fn hand_written_bytes_are_read_as_the_batch_they_spell() {
    let mut bytes = vec![0x11u8; 32];
    bytes.extend_from_slice(&[0x22u8; 32]);
    bytes.extend_from_slice(&[1, 0, 0, 0, 0, 0, 0, 0]);
    bytes.push(1);
    bytes.extend_from_slice(&[0xa1; 32]);
    bytes.extend_from_slice(&[0xb2; 32]);
    bytes.extend_from_slice(&[0xc3; 32]);
    bytes.extend_from_slice(&[0xa6; 32]);
    bytes.extend_from_slice(&[0xf7; 32]);
    bytes.extend_from_slice(&[2, 0, 0, 0, 0, 0, 0, 0, 4, 5]);
    bytes.extend_from_slice(&[0, 0, 0, 0, 0, 0, 0, 0]);
    bytes.extend_from_slice(&[1, 0, 0, 0, 0, 0, 0, 0]);
    bytes.extend_from_slice(&[0xd4; 32]);
    let expected = Batch {
        prev_root: Digest::from_array([0x11; 32]),
        new_root: Digest::from_array([0x22; 32]),
        proofs: vec![Proof::Update(UpdateProof {
            key: [0xa1; 32],
            old_value: vec![4, 5],
            new_value: Vec::new(),
            prior_root: Digest::from_array([0xb2; 32]),
            new_root: Digest::from_array([0xc3; 32]),
            leaf: WitnessLeaf { key: [0xa6; 32], value_digest: Digest::from_array([0xf7; 32]) },
            siblings: vec![Digest::from_array([0xd4; 32])],
        })],
    };
    assert_eq!(expected.to_bytes(), bytes);
    assert_eq!(Batch::from_bytes(&bytes), Some(expected));
}

#[test]
fn whatever_is_read_is_written_as_the_same_bytes() {
    let mut bytes = vec![0x5au8; 64];
    bytes.extend_from_slice(&[2, 0, 0, 0, 0, 0, 0, 0]);
    for tag in [0u8, 1u8] {
        bytes.push(tag);
        bytes.extend_from_slice(&[tag + 7; 96]);
        if tag == 1 {
            bytes.extend_from_slice(&[0xee; 64]);
            bytes.extend_from_slice(&[1, 0, 0, 0, 0, 0, 0, 0, 0x77]);
        }
        bytes.extend_from_slice(&[3, 0, 0, 0, 0, 0, 0, 0, 1, 2, 3]);
        bytes.extend_from_slice(&[2, 0, 0, 0, 0, 0, 0, 0]);
        bytes.extend_from_slice(&[0x10; 32]);
        bytes.extend_from_slice(&[0x20; 32]);
    }
    let read = Batch::from_bytes(&bytes).expect("two proofs with two digests each");
    assert_eq!(read.proofs.len(), 2);
    assert!(matches!(read.proofs[0], Proof::Insert(_)));
    assert!(matches!(read.proofs[1], Proof::Update(_)));
    assert_eq!(read.to_bytes(), bytes);
}
