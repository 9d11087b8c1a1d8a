//! What holds of the tree, of its proofs and of batches, whatever the keys
//! and values: each statement here is proved from the contracts and the
//! definitions of the other modules.

use vstd::prelude::*;
use crate::batch::{lemma_replay_one_more, replay, BatchView};
use crate::commitment::{
    commitment, join, leaf_from_value_digest, node_preimage, path_digest, Contents,
};
use crate::digest::{sha256, vacant_bytes};
use crate::error::TreeError;
use crate::path::key_bit;
use crate::transition::{
    all_digest_wide, siblings_of, with_siblings, InsertProofView, ProofView, UpdateProofView,
};
use crate::history::{
    all_succeed, honest_batch, proofs_of, records_draws, state_after, Draw, Operation,
};
use crate::tree::{
    after_insert, after_update, insert_result, lemma_insert_proof_verifies,
    lemma_update_proof_verifies, update_result, TreeState,
};

verus! {

/// The chain of roots. Take a tree that holds `start`, whatever that is,
/// and any sequence of operations that each succeed in their turn. Replaying
/// the proofs they return, from the root before the first operation, reaches
/// after any number of proofs the root that the tree had after as many
/// operations, and so ends at the last root.
pub proof fn lemma_proofs_chain(start: Contents, operations: Seq<Operation>, n: int)
    requires
        all_succeed(start, operations),
        0 <= n <= operations.len(),
    ensures
        replay(proofs_of(start, operations).take(n), commitment(start)) == Ok::<
            Seq<u8>,
            TreeError,
        >(commitment(state_after(start, operations, n))),
    decreases n,
{
    let proofs = proofs_of(start, operations);
    if n > 0 {
        lemma_proofs_chain(start, operations, n - 1);
        let before = state_after(start, operations, n - 1);
        assert(proofs.take(n) =~= proofs.take(n - 1).push(proofs[n - 1]));
        lemma_replay_one_more(proofs.take(n - 1), proofs[n - 1], commitment(start));
        match operations[n - 1] {
            Operation::Insert { key, value } => {
                lemma_insert_proof_verifies(before, key, value);
            },
            Operation::Update { key, value } => {
                lemma_update_proof_verifies(before, key, value);
            },
        }
    }
}

/// A batch made of the proofs of operations that each succeeded, with the
/// root before the first and the root after the last, validates, and gives
/// the root after the last.
pub proof fn lemma_honest_batch_validates(start: Contents, operations: Seq<Operation>)
    requires
        all_succeed(start, operations),
    ensures
        honest_batch(start, operations).validate() == Ok::<Seq<u8>, TreeError>(
            honest_batch(start, operations).new_root,
        ),
{
    let proofs = proofs_of(start, operations);
    lemma_proofs_chain(start, operations, operations.len() as int);
    assert(proofs.take(operations.len() as int) =~= proofs);
}

/// A key that is absent can be inserted, and then not inserted again: the
/// second insertion fails with `KeyAlreadyExists` and changes nothing.
pub proof fn lemma_insert_only_once(
    contents: Contents,
    key: Seq<u8>,
    first: Seq<u8>,
    second: Seq<u8>,
)
    requires
        !contents.dom().contains(key),
    ensures
        insert_result(contents, key, first) is Ok,
        after_insert(contents, key, first) == contents.insert(key, first),
        insert_result(after_insert(contents, key, first), key, second) == Err::<
            InsertProofView,
            TreeError,
        >(TreeError::KeyAlreadyExists),
        after_insert(after_insert(contents, key, first), key, second) == after_insert(
            contents,
            key,
            first,
        ),
{
}

/// A key that is absent cannot be updated: the update fails with
/// `KeyNotFound` and changes nothing. Once it is inserted, an update of it
/// succeeds, the tree holds the new value for it, and the update's proof
/// verifies against the root after the insertion and gives the root of the
/// tree with the new value.
pub proof fn lemma_update_needs_member(
    contents: Contents,
    key: Seq<u8>,
    first: Seq<u8>,
    second: Seq<u8>,
)
    requires
        key.len() == 32,
        !contents.dom().contains(key),
    ensures
        update_result(contents, key, first) == Err::<UpdateProofView, TreeError>(
            TreeError::KeyNotFound,
        ),
        after_update(contents, key, first) == contents,
        update_result(after_insert(contents, key, first), key, second) is Ok,
        update_result(after_insert(contents, key, first), key, second)->Ok_0.new_value == second,
        after_update(after_insert(contents, key, first), key, second) == contents.insert(
            key,
            second,
        ),
        update_result(after_insert(contents, key, first), key, second)->Ok_0.verify(
            commitment(after_insert(contents, key, first)),
        ) == Ok::<Seq<u8>, TreeError>(commitment(contents.insert(key, second))),
{
    let inserted = after_insert(contents, key, first);
    assert(inserted.insert(key, second) =~= contents.insert(key, second));
    lemma_update_proof_verifies(inserted, key, second);
}

/// A batch without proofs validates exactly if its two roots are the same;
/// if they differ it fails with `RootMismatch`.
pub proof fn lemma_empty_batch(prev_root: Seq<u8>, new_root: Seq<u8>)
    ensures
        (BatchView { prev_root, new_root, proofs: Seq::<ProofView>::empty() }).validate() is Ok
            <==> prev_root == new_root,
        prev_root == new_root ==> (BatchView {
            prev_root,
            new_root,
            proofs: Seq::<ProofView>::empty(),
        }).validate() == Ok::<Seq<u8>, TreeError>(new_root),
        prev_root != new_root ==> (BatchView {
            prev_root,
            new_root,
            proofs: Seq::<ProofView>::empty(),
        }).validate() == Err::<Seq<u8>, TreeError>(TreeError::RootMismatch),
{
}

/// Running the same operations on two trees that hold the same gives the
/// same roots after every operation and the same proofs, byte for byte:
/// roots and proofs depend on nothing but what the tree holds and what the
/// operations are.
pub proof fn lemma_rerun_is_identical(
    first: TreeState,
    second: TreeState,
    operations: Seq<Operation>,
    n: int,
)
    requires
        first.wf(),
        second.wf(),
        first@ == second@,
        0 <= n <= operations.len(),
    ensures
        first.root() == second.root(),
        state_after(first@, operations, n) == state_after(second@, operations, n),
        commitment(state_after(first@, operations, n)) == commitment(
            state_after(second@, operations, n),
        ),
        proofs_of(first@, operations) == proofs_of(second@, operations),
{
}

/// A random run is decided by what is drawn: two batches that record the
/// runs of the same draws are the same batch, root for root and proof for
/// proof, with the same witnesses byte for byte.
pub proof fn lemma_same_draws_same_batch(
    first: BatchView,
    second: BatchView,
    fill: Seq<Draw>,
    run: Seq<Draw>,
)
    requires
        records_draws(first, fill, run),
        records_draws(second, fill, run),
    ensures
        first == second,
{
}

/// The bytes that are hashed at one step of a fold.
pub open spec fn step_preimage(turn: bool, below: Seq<u8>, beside: Seq<u8>) -> Seq<u8> {
    if turn {
        node_preimage(beside, below)
    } else {
        node_preimage(below, beside)
    }
}

/// Whether SHA-256 keeps two byte strings apart as a hash is meant to: it
/// gives neither of them the vacant digest, and gives them different digests
/// if they differ.
pub open spec fn hashed_apart(a: Seq<u8>, b: Seq<u8>) -> bool {
    &&& sha256(a) != vacant_bytes()
    &&& sha256(b) != vacant_bytes()
    &&& a != b ==> sha256(a) != sha256(b)
}

/// Whether SHA-256 keeps apart what the folds of two witnesses hash at `depth`.
pub open spec fn step_hashed_apart(
    leaf: Seq<u8>,
    key: Seq<u8>,
    honest: Seq<Seq<u8>>,
    forged: Seq<Seq<u8>>,
    depth: int,
) -> bool {
    hashed_apart(
        step_preimage(
            key_bit(key, depth),
            path_digest(leaf, key, honest, depth + 1),
            honest[depth],
        ),
        step_preimage(
            key_bit(key, depth),
            path_digest(leaf, key, forged, depth + 1),
            forged[depth],
        ),
    )
}

/// Whether SHA-256 keeps apart what the folds of two witnesses hash, at
/// every depth. It does unless the two folds hold a collision of SHA-256 or
/// a byte string whose digest is thirty-two zero bytes.
pub open spec fn folds_hashed_apart(
    leaf: Seq<u8>,
    key: Seq<u8>,
    honest: Seq<Seq<u8>>,
    forged: Seq<Seq<u8>>,
) -> bool {
    forall|depth: int|
        0 <= depth < 256 ==> #[trigger] step_hashed_apart(leaf, key, honest, forged, depth)
}

/// The digest from which a proof's witness is folded up to the prior root.
pub open spec fn witness_leaf(evidence: ProofView) -> Seq<u8> {
    match evidence {
        ProofView::Insert(insertion) => vacant_bytes(),
        ProofView::Update(update) => leaf_from_value_digest(
            update.leaf_key,
            update.leaf_value_digest,
        ),
    }
}

/// The key that a proof is about.
pub open spec fn key_of(evidence: ProofView) -> Seq<u8> {
    match evidence {
        ProofView::Insert(insertion) => insertion.key,
        ProofView::Update(update) => update.key,
    }
}

/// Two steps that differ in what they join give different digests, where
/// SHA-256 keeps their preimages apart.
proof fn lemma_join_apart(
    turn: bool,
    below_a: Seq<u8>,
    beside_a: Seq<u8>,
    below_b: Seq<u8>,
    beside_b: Seq<u8>,
)
    requires
        beside_a.len() == 32,
        beside_b.len() == 32,
        below_a != below_b || beside_a != beside_b,
        hashed_apart(
            step_preimage(turn, below_a, beside_a),
            step_preimage(turn, below_b, beside_b),
        ),
    ensures
        join(turn, below_a, beside_a) != join(turn, below_b, beside_b),
{
    let pre_a = step_preimage(turn, below_a, beside_a);
    let pre_b = step_preimage(turn, below_b, beside_b);
    if pre_a == pre_b {
        if turn {
            assert(beside_a =~= pre_a.subrange(1, 33));
            assert(beside_b =~= pre_b.subrange(1, 33));
            assert(below_a =~= pre_a.subrange(33, pre_a.len() as int));
            assert(below_b =~= pre_b.subrange(33, pre_b.len() as int));
        } else {
            assert(pre_a.len() == 1 + below_a.len() + 32);
            assert(pre_b.len() == 1 + below_b.len() + 32);
            let n = below_a.len() as int;
            assert(below_a =~= pre_a.subrange(1, 1 + n));
            assert(below_b =~= pre_b.subrange(1, 1 + n));
            assert(beside_a =~= pre_a.subrange(1 + n, 33 + n));
            assert(beside_b =~= pre_b.subrange(1 + n, 33 + n));
        }
    }
}

/// Two witnesses that differ at or below `depth` fold up to different
/// digests at `depth`, where SHA-256 keeps the folds apart.
proof fn lemma_forged_fold_differs(
    leaf: Seq<u8>,
    key: Seq<u8>,
    honest: Seq<Seq<u8>>,
    forged: Seq<Seq<u8>>,
    depth: int,
    differ_at: int,
)
    requires
        honest.len() == 256,
        forged.len() == 256,
        all_digest_wide(honest),
        all_digest_wide(forged),
        folds_hashed_apart(leaf, key, honest, forged),
        0 <= depth <= differ_at < 256,
        honest[differ_at] != forged[differ_at],
    ensures
        path_digest(leaf, key, honest, depth) != path_digest(leaf, key, forged, depth),
    decreases 256 - depth,
{
    assert(step_hashed_apart(leaf, key, honest, forged, depth));
    if depth < differ_at {
        lemma_forged_fold_differs(leaf, key, honest, forged, depth + 1, differ_at);
    }
    lemma_join_apart(
        key_bit(key, depth),
        path_digest(leaf, key, honest, depth + 1),
        honest[depth],
        path_digest(leaf, key, forged, depth + 1),
        forged[depth],
    );
}

/// A proof whose witness digests were changed after it was made no longer
/// verifies: it fails with `InvalidProof`. This holds where the changed
/// witness has the wrong number of digests, and else where SHA-256 keeps
/// the fold of the changed witness apart from the fold of the true one.
pub proof fn lemma_forged_witness_is_rejected(
    evidence: ProofView,
    forged: Seq<Seq<u8>>,
    prior: Seq<u8>,
)
    requires
        evidence.verify(prior) is Ok,
        forged != siblings_of(evidence),
        all_digest_wide(siblings_of(evidence)),
        all_digest_wide(forged),
        forged.len() == 256 ==> folds_hashed_apart(
            witness_leaf(evidence),
            key_of(evidence),
            siblings_of(evidence),
            forged,
        ),
    ensures
        with_siblings(evidence, forged).verify(prior) == Err::<Seq<u8>, TreeError>(
            TreeError::InvalidProof,
        ),
{
    let honest = siblings_of(evidence);
    if forged.len() == 256 {
        if forall|i: int| 0 <= i < 256 ==> honest[i] == forged[i] {
            assert(honest =~= forged);
        }
        let differ_at = choose|i: int| 0 <= i < 256 && honest[i] != forged[i];
        lemma_forged_fold_differs(
            witness_leaf(evidence),
            key_of(evidence),
            honest,
            forged,
            0,
            differ_at,
        );
    }
}

/// An update proof whose witness leaf was changed after it was made no
/// longer verifies: it fails with `ProofKeyMismatch` if the leaf now names
/// another key, and else with `ProofValueMismatch`.
pub proof fn lemma_forged_leaf_is_rejected(
    update: UpdateProofView,
    leaf_key: Seq<u8>,
    leaf_value_digest: Seq<u8>,
    prior: Seq<u8>,
)
    requires
        update.verify(prior) is Ok,
        leaf_key != update.leaf_key || leaf_value_digest != update.leaf_value_digest,
    ensures
        (UpdateProofView { leaf_key, leaf_value_digest, ..update }).verify(prior) == Err::<
            Seq<u8>,
            TreeError,
        >(
            if leaf_key != update.key {
                TreeError::ProofKeyMismatch
            } else {
                TreeError::ProofValueMismatch
            },
        ),
{
}

/// Replaying a sequence is replaying its first `at` proofs and then the
/// rest from the root reached.
pub proof fn lemma_replay_in_two(proofs: Seq<ProofView>, start: Seq<u8>, at: int)
    requires
        0 <= at <= proofs.len(),
    ensures
        replay(proofs, start) == match replay(proofs.take(at), start) {
            Ok(reached) => replay(proofs.skip(at), reached),
            Err(error) => Err(error),
        },
    decreases at,
{
    if at == 0 {
        assert(proofs.skip(0) =~= proofs);
    } else {
        lemma_replay_in_two(proofs, start, at - 1);
        assert(proofs.take(at) =~= proofs.take(at - 1).push(proofs[at - 1]));
        lemma_replay_one_more(proofs.take(at - 1), proofs[at - 1], start);
        assert(proofs.skip(at - 1).drop_first() =~= proofs.skip(at));
    }
}

/// A batch in which one proof was replaced by one that does not verify
/// against the root reached before it fails with that proof's error.
pub proof fn lemma_bad_proof_fails_batch(
    batch: BatchView,
    at: int,
    bad: ProofView,
    reached: Seq<u8>,
    error: TreeError,
)
    requires
        0 <= at < batch.proofs.len(),
        replay(batch.proofs.take(at), batch.prev_root) == Ok::<Seq<u8>, TreeError>(reached),
        bad.verify(reached) == Err::<Seq<u8>, TreeError>(error),
    ensures
        (BatchView { proofs: batch.proofs.update(at, bad), ..batch }).validate() == Err::<
            Seq<u8>,
            TreeError,
        >(error),
{
    let changed = batch.proofs.update(at, bad);
    lemma_replay_in_two(changed, batch.prev_root, at);
    assert(changed.take(at) =~= batch.proofs.take(at));
}

/// Tampering is detected. Take a batch that validates and change the
/// witness digests of one of its proofs. The batch then fails with
/// `InvalidProof`; it never validates. This holds where the changed witness
/// has the wrong number of digests, and else where SHA-256 keeps the fold of
/// the changed witness apart from the fold of the true one.
pub proof fn lemma_tampered_batch_fails(batch: BatchView, at: int, forged: Seq<Seq<u8>>)
    requires
        batch.validate() is Ok,
        0 <= at < batch.proofs.len(),
        forged != siblings_of(batch.proofs[at]),
        all_digest_wide(siblings_of(batch.proofs[at])),
        all_digest_wide(forged),
        forged.len() == 256 ==> folds_hashed_apart(
            witness_leaf(batch.proofs[at]),
            key_of(batch.proofs[at]),
            siblings_of(batch.proofs[at]),
            forged,
        ),
    ensures
        (BatchView {
            proofs: batch.proofs.update(at, with_siblings(batch.proofs[at], forged)),
            ..batch
        }).validate() == Err::<Seq<u8>, TreeError>(TreeError::InvalidProof),
{
    lemma_replay_in_two(batch.proofs, batch.prev_root, at);
    let reached = replay(batch.proofs.take(at), batch.prev_root)->Ok_0;
    lemma_forged_witness_is_rejected(batch.proofs[at], forged, reached);
    lemma_bad_proof_fails_batch(
        batch,
        at,
        with_siblings(batch.proofs[at], forged),
        reached,
        TreeError::InvalidProof,
    );
}

/// Tampering with the leaf of a membership witness is detected. Take a
/// batch that validates and change the witness leaf of one of its update
/// proofs. The batch then fails: with `ProofKeyMismatch` if the leaf now
/// names another key than the proof, else with `ProofValueMismatch`.
pub proof fn lemma_tampered_leaf_fails_batch(
    batch: BatchView,
    at: int,
    leaf_key: Seq<u8>,
    leaf_value_digest: Seq<u8>,
)
    requires
        batch.validate() is Ok,
        0 <= at < batch.proofs.len(),
        batch.proofs[at] is Update,
        leaf_key != batch.proofs[at]->Update_0.leaf_key || leaf_value_digest
            != batch.proofs[at]->Update_0.leaf_value_digest,
    ensures
        (BatchView {
            proofs: batch.proofs.update(
                at,
                ProofView::Update(
                    UpdateProofView { leaf_key, leaf_value_digest, ..batch.proofs[at]->Update_0 },
                ),
            ),
            ..batch
        }).validate() == Err::<Seq<u8>, TreeError>(
            if leaf_key != batch.proofs[at]->Update_0.key {
                TreeError::ProofKeyMismatch
            } else {
                TreeError::ProofValueMismatch
            },
        ),
{
    lemma_replay_in_two(batch.proofs, batch.prev_root, at);
    let reached = replay(batch.proofs.take(at), batch.prev_root)->Ok_0;
    let update = batch.proofs[at]->Update_0;
    lemma_forged_leaf_is_rejected(update, leaf_key, leaf_value_digest, reached);
    lemma_bad_proof_fails_batch(
        batch,
        at,
        ProofView::Update(UpdateProofView { leaf_key, leaf_value_digest, ..update }),
        reached,
        if leaf_key != update.key {
            TreeError::ProofKeyMismatch
        } else {
            TreeError::ProofValueMismatch
        },
    );
}

} // verus!
