//! A batch: proofs in the order in which their operations were applied,
//! bracketed by the root before the first and the root after the last.
//! Replaying a batch checks every proof against the root that the one before
//! it led to.

use vstd::prelude::*;
use crate::digest::Digest;
use crate::error::TreeError;
use crate::transition::{digest_result, Proof, ProofView};

verus! {

/// The unit of work that is handed to a verifier. It is a value: once made
/// it is only read.
#[derive(Clone, Debug, PartialEq, Eq)]
pub struct Batch {
    pub prev_root: Digest,
    pub new_root: Digest,
    pub proofs: Vec<Proof>,
}

/// A batch as plain values.
pub struct BatchView {
    pub prev_root: Seq<u8>,
    pub new_root: Seq<u8>,
    pub proofs: Seq<ProofView>,
}

/// The proofs of a sequence, each as plain values.
pub open spec fn proof_views(proofs: Seq<Proof>) -> Seq<ProofView> {
    Seq::new(proofs.len(), |i: int| proofs[i]@)
}

impl View for Batch {
    type V = BatchView;

    open spec fn view(&self) -> BatchView {
        BatchView {
            prev_root: self.prev_root@,
            new_root: self.new_root@,
            proofs: proof_views(self.proofs@),
        }
    }
}

/// Replays `proofs` in order from the root `start`: each proof is verified
/// against the root that the one before it gave, and the first failure ends
/// the replay with its error.
pub open spec fn replay(proofs: Seq<ProofView>, start: Seq<u8>) -> Result<Seq<u8>, TreeError>
    decreases proofs.len(),
{
    if proofs.len() == 0 {
        Ok(start)
    } else {
        match proofs[0].verify(start) {
            Ok(next) => replay(proofs.drop_first(), next),
            Err(error) => Err(error),
        }
    }
}

impl BatchView {
    /// Whether the values are those of a batch: roots 32 bytes wide, and
    /// every proof the values of a proof.
    pub open spec fn wf(self) -> bool {
        &&& self.prev_root.len() == 32
        &&& self.new_root.len() == 32
        &&& self.proofs.len() <= u64::MAX
        &&& forall|i: int| 0 <= i < self.proofs.len() ==> (#[trigger] self.proofs[i]).wf()
    }

    /// What validation gives: the error of the first proof that fails;
    /// `RootMismatch` if all pass and the replay ends elsewhere than at
    /// `new_root`; else the root reached, which is `new_root`.
    pub open spec fn validate(self) -> Result<Seq<u8>, TreeError> {
        match replay(self.proofs, self.prev_root) {
            Ok(reached) => if reached == self.new_root {
                Ok(reached)
            } else {
                Err(TreeError::RootMismatch)
            },
            Err(error) => Err(error),
        }
    }
}

/// Replaying with one more proof at the end is replaying without it and
/// then verifying it against the root reached.
pub proof fn lemma_replay_one_more(proofs: Seq<ProofView>, last: ProofView, start: Seq<u8>)
    ensures
        replay(proofs.push(last), start) == match replay(proofs, start) {
            Ok(reached) => last.verify(reached),
            Err(error) => Err(error),
        },
    decreases proofs.len(),
{
    let longer = proofs.push(last);
    if proofs.len() == 0 {
        match last.verify(start) {
            Ok(next) => {
                assert(replay(longer.drop_first(), next) == Ok::<Seq<u8>, TreeError>(next));
            },
            Err(error) => {},
        }
    } else {
        assert(longer.drop_first() =~= proofs.drop_first().push(last));
        match proofs[0].verify(start) {
            Ok(next) => {
                lemma_replay_one_more(proofs.drop_first(), last, next);
            },
            Err(error) => {},
        }
    }
}

impl Batch {
    /// Replays the batch. Fails with the error of the first proof that does
    /// not verify against the root reached so far; fails with `RootMismatch`
    /// if the replay ends at another root than `new_root`; else returns the
    /// root reached.
    pub fn validate(&self) -> (outcome: Result<Digest, TreeError>)
        ensures
            digest_result(outcome) == self@.validate(),
    {
        let mut running = self.prev_root;
        let mut i: usize = 0;
        let ghost all = proof_views(self.proofs@);
        assert(all.skip(0) =~= all);
        while i < self.proofs.len()
            invariant
                i <= self.proofs@.len(),
                all == proof_views(self.proofs@),
                replay(all, self.prev_root@) == replay(all.skip(i as int), running@),
            decreases self.proofs@.len() - i,
        {
            let ghost rest = all.skip(i as int);
            assert(rest.drop_first() =~= all.skip(i + 1));
            match self.proofs[i].verify(&running) {
                Ok(next) => {
                    running = next;
                },
                Err(error) => {
                    return Err(error);
                },
            }
            i += 1;
        }
        if running != self.new_root {
            return Err(TreeError::RootMismatch);
        }
        Ok(running)
    }
}

} // verus!
