//! An authenticated key-value tree with chained transition proofs.
//!
//! The tree commits to a mapping from 32-byte keys to byte-string values by a
//! single 32-byte root digest. Every insertion and every update returns a proof
//! from which anybody can recompute the root after the operation from the root
//! before it; a batch of such proofs is replayed in order and must lead from
//! its first root to its last.

pub mod error;
pub mod digest;
pub mod path;
pub mod commitment;
pub mod hashing;
pub mod transition;
pub mod tree;
pub mod batch;
pub mod history;
pub mod laws;
pub mod generator;
pub mod harness;
pub mod wire;

pub use batch::Batch;
pub use digest::Digest;
pub use error::TreeError;
pub use generator::{
    apply_drawn, create_automated_batch, create_batch_with, create_random_insert,
    create_random_update, update_odds, TestTreeState,
};
pub use harness::{check_commitment, select_mode, Mode};
pub use path::Key;
pub use transition::{InsertProof, Proof, UpdateProof, WitnessLeaf};
pub use tree::TreeState;
