use authtree::{check_commitment, select_mode, Batch, Digest, Mode, TreeError};

#[test]
fn exactly_one_flag_selects_a_mode() {
    assert_eq!(select_mode(true, false), Some(Mode::Execute));
    assert_eq!(select_mode(false, true), Some(Mode::Prove));
}

#[test]
fn both_flags_or_none_select_nothing() {
    assert_eq!(select_mode(true, true), None);
    assert_eq!(select_mode(false, false), None);
}

#[test]
fn matching_output_gives_its_hex() {
    let root = Digest::hash(b"the root");
    let output = root.to_bytes();
    assert_eq!(check_commitment(&output, &root), Ok(root.to_hex()));
    assert_eq!(
        check_commitment(&[0xabu8; 32], &Digest::from_array([0xab; 32])),
        Ok("ab".repeat(32))
    );
}

#[test]
fn other_output_is_a_root_mismatch() {
    let root = Digest::hash(b"the root");
    let mut output = root.to_bytes();
    output[31] ^= 1;
    assert_eq!(check_commitment(&output, &root), Err(TreeError::RootMismatch));
}

#[test]
fn output_of_another_width_is_a_root_mismatch() {
    let root = Digest::hash(b"the root");
    let output = root.to_bytes();
    assert_eq!(check_commitment(&output[..31], &root), Err(TreeError::RootMismatch));
    assert_eq!(check_commitment(&[], &root), Err(TreeError::RootMismatch));
    let mut longer = output.to_vec();
    longer.push(0);
    assert_eq!(check_commitment(&longer, &root), Err(TreeError::RootMismatch));
}

#[test]
fn output_of_a_replay_matches_the_batch() {
    let batch = authtree::create_automated_batch(1, 20).unwrap();
    let read = Batch::from_bytes(&batch.to_bytes()).unwrap();
    let output = read.validate().unwrap().to_bytes();
    assert_eq!(check_commitment(&output, &batch.new_root), Ok(batch.new_root.to_hex()));
}
