//! The decisions of the driver that hands a batch to a verifier: which of
//! its two modes was asked for, and whether what the verifier gave back is
//! the root that the batch claims.

use vstd::prelude::*;
use crate::digest::{encode_hex, lemma_hex_injective, lower_hex, Digest};
use crate::error::TreeError;

verus! {

/// What the driver is to do with a batch.
#[derive(Clone, Copy, Debug, PartialEq, Eq, Structural)]
pub enum Mode {
    /// Replay the batch and compare the root that comes out.
    Execute,
    /// Have a succinct proof of the replay made, and check it.
    Prove,
}

/// The mode that two flags ask for: exactly one of them must be set.
pub fn select_mode(execute: bool, prove: bool) -> (mode: Option<Mode>)
    ensures
        mode == if execute && !prove {
            Some(Mode::Execute)
        } else if prove && !execute {
            Some(Mode::Prove)
        } else {
            None::<Mode>
        },
{
    if execute == prove {
        None
    } else if execute {
        Some(Mode::Execute)
    } else {
        Some(Mode::Prove)
    }
}

/// Compares the bytes that a replay gave back with the root that the batch
/// claims, both in hex. Returns the hex text if they are the same, and fails
/// with `RootMismatch` if not.
pub fn check_commitment(output: &[u8], new_root: &Digest) -> (outcome: Result<String, TreeError>)
    ensures
        output@ == new_root@ ==> outcome is Ok && outcome->Ok_0@ == lower_hex(new_root@),
        output@ != new_root@ ==> outcome == Err::<String, TreeError>(TreeError::RootMismatch),
{
    let final_commitment = encode_hex(output);
    let expected = new_root.to_hex();
    if final_commitment == expected {
        proof {
            lemma_hex_injective(output@, new_root@);
        }
        Ok(final_commitment)
    } else {
        Err(TreeError::RootMismatch)
    }
}

} // verus!
