//! The errors of the tree, of proof verification and of batch replay.

use vstd::prelude::*;

verus! {

/// Everything that can go wrong in this library.
#[derive(Clone, Copy, Debug, PartialEq, Eq, Structural)]
pub enum TreeError {
    /// Bytes offered as a digest or as a key are not exactly 32 long.
    InvalidLength,
    /// An insertion names a key that the tree already holds.
    KeyAlreadyExists,
    /// An update names a key that the tree does not hold.
    KeyNotFound,
    /// The root of a tree that holds nothing was asked for.
    EmptyTree,
    /// A witness does not hash up to the root it is checked against.
    InvalidProof,
    /// The leaf in a membership witness belongs to another key than the proof states.
    ProofKeyMismatch,
    /// The leaf in a membership witness commits to another value than the proof states.
    ProofValueMismatch,
    /// Replaying a batch ended at another root than the batch claims.
    RootMismatch,
}

impl TreeError {
    /// A short description of the error, for messages to a user.
    pub fn message(&self) -> (text: &'static str)
        ensures
            text@ == self.message_spec(),
    {
        match self {
            TreeError::InvalidLength => "a digest must be exactly 32 bytes long",
            TreeError::KeyAlreadyExists => "the key is already in the tree",
            TreeError::KeyNotFound => "the key is not in the tree",
            TreeError::EmptyTree => "the tree is empty and has no root yet",
            TreeError::InvalidProof => "the witness does not lead to the prior root",
            TreeError::ProofKeyMismatch => "the witness leaf belongs to another key",
            TreeError::ProofValueMismatch => "the witness leaf commits to another value",
            TreeError::RootMismatch => "the batch does not end at its claimed root",
        }
    }

    /// The text that `message` returns.
    pub open spec fn message_spec(&self) -> Seq<char> {
        match self {
            TreeError::InvalidLength => "a digest must be exactly 32 bytes long"@,
            TreeError::KeyAlreadyExists => "the key is already in the tree"@,
            TreeError::KeyNotFound => "the key is not in the tree"@,
            TreeError::EmptyTree => "the tree is empty and has no root yet"@,
            TreeError::InvalidProof => "the witness does not lead to the prior root"@,
            TreeError::ProofKeyMismatch => "the witness leaf belongs to another key"@,
            TreeError::ProofValueMismatch => "the witness leaf commits to another value"@,
            TreeError::RootMismatch => "the batch does not end at its claimed root"@,
        }
    }
}

} // verus!
