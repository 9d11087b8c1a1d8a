//! The evidence that one operation leaves behind. An insertion proof carries
//! a non-membership witness, an update proof a membership witness; from either
//! a verifier recomputes the root after the operation from the root before it.

use vstd::prelude::*;
use crate::commitment::{leaf_digest, leaf_from_value_digest, path_digest};
use crate::digest::{sha256, vacant_bytes, Digest};
use crate::error::TreeError;
use crate::hashing::{digest_views, fold_path, hash_entry, hash_leaf, same_bytes};
use crate::path::Key;

verus! {

/// Evidence that a key that was absent under `prior_root` was added with
/// `value`. The witness is `siblings`: the digests beside the path to the key,
/// which fold up from a vacant place to the prior root.
#[derive(Clone, Debug, PartialEq, Eq)]
pub struct InsertProof {
    pub key: Key,
    pub value: Vec<u8>,
    /// The root that the tree had before the insertion, as the producer states it.
    pub prior_root: Digest,
    /// The root that the tree had after the insertion, as the producer states it.
    pub new_root: Digest,
    pub siblings: Vec<Digest>,
}

/// The leaf that a membership witness shows at the end of the path.
#[derive(Clone, Copy, Debug, PartialEq, Eq)]
pub struct WitnessLeaf {
    pub key: Key,
    pub value_digest: Digest,
}

/// Evidence that the value of a key that was present under `prior_root`
/// changed from `old_value` to `new_value`. The witness is the leaf found for
/// the key together with the digests beside its path.
#[derive(Clone, Debug, PartialEq, Eq)]
pub struct UpdateProof {
    pub key: Key,
    pub old_value: Vec<u8>,
    pub new_value: Vec<u8>,
    /// The root that the tree had before the update, as the producer states it.
    pub prior_root: Digest,
    /// The root that the tree had after the update, as the producer states it.
    pub new_root: Digest,
    pub leaf: WitnessLeaf,
    pub siblings: Vec<Digest>,
}

/// The proof of one operation, of one kind or the other.
#[derive(Clone, Debug, PartialEq, Eq)]
pub enum Proof {
    Insert(InsertProof),
    Update(UpdateProof),
}

/// An insertion proof as plain values.
pub struct InsertProofView {
    pub key: Seq<u8>,
    pub value: Seq<u8>,
    pub prior_root: Seq<u8>,
    pub new_root: Seq<u8>,
    pub siblings: Seq<Seq<u8>>,
}

/// An update proof as plain values.
pub struct UpdateProofView {
    pub key: Seq<u8>,
    pub old_value: Seq<u8>,
    pub new_value: Seq<u8>,
    pub prior_root: Seq<u8>,
    pub new_root: Seq<u8>,
    pub leaf_key: Seq<u8>,
    pub leaf_value_digest: Seq<u8>,
    pub siblings: Seq<Seq<u8>>,
}

/// A proof of either kind as plain values.
pub enum ProofView {
    Insert(InsertProofView),
    Update(UpdateProofView),
}

impl InsertProofView {
    /// Whether the values are those of a proof: key, roots and digests 32
    /// bytes wide, and no more of anything than a proof can hold.
    pub open spec fn wf(self) -> bool {
        &&& self.key.len() == 32
        &&& self.prior_root.len() == 32
        &&& self.new_root.len() == 32
        &&& self.value.len() <= u64::MAX
        &&& self.siblings.len() <= u64::MAX
        &&& all_digest_wide(self.siblings)
    }

    /// What verification against `prior` gives: the witness must have one
    /// digest for each level and fold up from a vacant place to `prior`; the
    /// result is what it folds up to from the new leaf.
    pub open spec fn verify(self, prior: Seq<u8>) -> Result<Seq<u8>, TreeError> {
        if self.siblings.len() != 256 {
            Err(TreeError::InvalidProof)
        } else if path_digest(vacant_bytes(), self.key, self.siblings, 0) != prior {
            Err(TreeError::InvalidProof)
        } else {
            Ok(path_digest(leaf_digest(self.key, self.value), self.key, self.siblings, 0))
        }
    }
}

impl UpdateProofView {
    /// Whether the values are those of a proof: keys, roots and digests 32
    /// bytes wide, and no more of anything than a proof can hold.
    pub open spec fn wf(self) -> bool {
        &&& self.key.len() == 32
        &&& self.prior_root.len() == 32
        &&& self.new_root.len() == 32
        &&& self.leaf_key.len() == 32
        &&& self.leaf_value_digest.len() == 32
        &&& self.old_value.len() <= u64::MAX
        &&& self.new_value.len() <= u64::MAX
        &&& self.siblings.len() <= u64::MAX
        &&& all_digest_wide(self.siblings)
    }

    /// What verification against `prior` gives. The witness must have one
    /// digest for each level; its leaf must be that of the stated key and
    /// commit to the stated old value; leaf and digests must fold up to
    /// `prior`. The result is what the digests fold up to from the new leaf.
    pub open spec fn verify(self, prior: Seq<u8>) -> Result<Seq<u8>, TreeError> {
        if self.siblings.len() != 256 {
            Err(TreeError::InvalidProof)
        } else if self.leaf_key != self.key {
            Err(TreeError::ProofKeyMismatch)
        } else if self.leaf_value_digest != sha256(self.old_value) {
            Err(TreeError::ProofValueMismatch)
        } else if path_digest(
            leaf_from_value_digest(self.leaf_key, self.leaf_value_digest),
            self.key,
            self.siblings,
            0,
        ) != prior {
            Err(TreeError::InvalidProof)
        } else {
            Ok(path_digest(leaf_digest(self.key, self.new_value), self.key, self.siblings, 0))
        }
    }
}

impl ProofView {
    /// Whether the values are those of a proof.
    pub open spec fn wf(self) -> bool {
        match self {
            ProofView::Insert(insertion) => insertion.wf(),
            ProofView::Update(update) => update.wf(),
        }
    }

    /// What verification against `prior` gives, by the kind of the proof.
    pub open spec fn verify(self, prior: Seq<u8>) -> Result<Seq<u8>, TreeError> {
        match self {
            ProofView::Insert(proof) => proof.verify(prior),
            ProofView::Update(proof) => proof.verify(prior),
        }
    }
}

impl View for InsertProof {
    type V = InsertProofView;

    open spec fn view(&self) -> InsertProofView {
        InsertProofView {
            key: self.key@,
            value: self.value@,
            prior_root: self.prior_root@,
            new_root: self.new_root@,
            siblings: digest_views(self.siblings@),
        }
    }
}

impl View for UpdateProof {
    type V = UpdateProofView;

    open spec fn view(&self) -> UpdateProofView {
        UpdateProofView {
            key: self.key@,
            old_value: self.old_value@,
            new_value: self.new_value@,
            prior_root: self.prior_root@,
            new_root: self.new_root@,
            leaf_key: self.leaf.key@,
            leaf_value_digest: self.leaf.value_digest@,
            siblings: digest_views(self.siblings@),
        }
    }
}

impl View for Proof {
    type V = ProofView;

    open spec fn view(&self) -> ProofView {
        match self {
            Proof::Insert(proof) => ProofView::Insert(proof@),
            Proof::Update(proof) => ProofView::Update(proof@),
        }
    }
}

/// The outcome of a verification as plain values.
pub open spec fn digest_result(outcome: Result<Digest, TreeError>) -> Result<Seq<u8>, TreeError> {
    match outcome {
        Ok(digest) => Ok(digest@),
        Err(error) => Err(error),
    }
}

/// The outcome of an insertion as plain values.
pub open spec fn insert_outcome(outcome: Result<InsertProof, TreeError>) -> Result<
    InsertProofView,
    TreeError,
> {
    match outcome {
        Ok(proof) => Ok(proof@),
        Err(error) => Err(error),
    }
}

/// The outcome of an update as plain values.
pub open spec fn update_outcome(outcome: Result<UpdateProof, TreeError>) -> Result<
    UpdateProofView,
    TreeError,
> {
    match outcome {
        Ok(proof) => Ok(proof@),
        Err(error) => Err(error),
    }
}

/// Whether every digest of a sequence is 32 bytes wide.
pub open spec fn all_digest_wide(digests: Seq<Seq<u8>>) -> bool {
    forall|i: int| 0 <= i < digests.len() ==> (#[trigger] digests[i]).len() == 32
}

/// The digests beside the path that a proof carries.
pub open spec fn siblings_of(evidence: ProofView) -> Seq<Seq<u8>> {
    match evidence {
        ProofView::Insert(insertion) => insertion.siblings,
        ProofView::Update(update) => update.siblings,
    }
}

/// The proof with other digests beside the path, and all else as it was.
pub open spec fn with_siblings(evidence: ProofView, siblings: Seq<Seq<u8>>) -> ProofView {
    match evidence {
        ProofView::Insert(insertion) => ProofView::Insert(
            InsertProofView { siblings, ..insertion },
        ),
        ProofView::Update(update) => ProofView::Update(UpdateProofView { siblings, ..update }),
    }
}

impl Proof {
    /// The digests that a proof carries are digests: 32 bytes wide each.
    pub proof fn lemma_siblings_wide(self)
        ensures
            all_digest_wide(siblings_of(self@)),
    {
        broadcast use Digest::lemma_width;
    }
}

impl InsertProof {
    /// Recomputes the root after the insertion from the witness alone, given
    /// the root before it. The caller compares the result to the root it
    /// expects.
    pub fn verify(&self, prior_root: &Digest) -> (outcome: Result<Digest, TreeError>)
        ensures
            digest_result(outcome) == self@.verify(prior_root@),
    {
        if self.siblings.len() != 256 {
            return Err(TreeError::InvalidProof);
        }
        let before = fold_path(Digest::vacant(), &self.key, &self.siblings);
        if before != *prior_root {
            return Err(TreeError::InvalidProof);
        }
        let leaf = hash_entry(&self.key, self.value.as_slice());
        Ok(fold_path(leaf, &self.key, &self.siblings))
    }
}

impl UpdateProof {
    /// Recomputes the root after the update from the witness alone, given the
    /// root before it. The caller compares the result to the root it expects.
    pub fn verify(&self, prior_root: &Digest) -> (outcome: Result<Digest, TreeError>)
        ensures
            digest_result(outcome) == self@.verify(prior_root@),
    {
        if self.siblings.len() != 256 {
            return Err(TreeError::InvalidProof);
        }
        if !same_bytes(self.leaf.key.as_slice(), self.key.as_slice()) {
            return Err(TreeError::ProofKeyMismatch);
        }
        let old_digest = Digest::hash(self.old_value.as_slice());
        if self.leaf.value_digest != old_digest {
            return Err(TreeError::ProofValueMismatch);
        }
        let old_leaf = hash_leaf(&self.leaf.key, &self.leaf.value_digest);
        let before = fold_path(old_leaf, &self.key, &self.siblings);
        if before != *prior_root {
            return Err(TreeError::InvalidProof);
        }
        let leaf = hash_entry(&self.key, self.new_value.as_slice());
        Ok(fold_path(leaf, &self.key, &self.siblings))
    }
}

impl Proof {
    /// Verifies the proof by the rule of its kind.
    pub fn verify(&self, prior_root: &Digest) -> (outcome: Result<Digest, TreeError>)
        ensures
            digest_result(outcome) == self@.verify(prior_root@),
    {
        match self {
            Proof::Insert(proof) => proof.verify(prior_root),
            Proof::Update(proof) => proof.verify(prior_root),
        }
    }

    /// The key that the operation was about.
    pub fn key(&self) -> (key: Key)
        ensures
            key@ == match self@ {
                ProofView::Insert(proof) => proof.key,
                ProofView::Update(proof) => proof.key,
            },
    {
        match self {
            Proof::Insert(proof) => proof.key,
            Proof::Update(proof) => proof.key,
        }
    }
}

} // verus!
