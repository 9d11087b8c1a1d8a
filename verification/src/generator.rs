//! Random batches for exercising a verifier: a tree is filled with random
//! keys, a run of random insertions and updates is applied to it, and the
//! proofs of the run are gathered into a batch. The random numbers come from
//! the `rand` crate; whatever it draws, the batch that comes out validates.

use vstd::prelude::*;
use vstd::slice::slice_to_vec;
use rand::rngs::StdRng;
use crate::batch::{proof_views, Batch};
use crate::commitment::{commitment, Contents};
use crate::error::TreeError;
use crate::history::{
    all_in_range, all_insert_draws, all_insertions, all_succeed, drawn_operation, keys_after,
    lemma_draw_one_more, lemma_run_one_more, operation_of, operations_drawn, proofs_of,
    records_draws, records_run, state_after, Draw, Operation,
};
use crate::laws::lemma_honest_batch_validates;
use crate::path::Key;
use crate::transition::{
    insert_outcome, update_outcome, InsertProof, InsertProofView, Proof, UpdateProof,
    UpdateProofView,
};
use crate::tree::{after_insert, after_update, insert_result, update_result, TreeState};

verus! {

/// Of every ten operations of a random run, this many are updates.
pub const UPDATES_IN_TEN: u32 = 7;

/// The odds by which the next operation of a random run is an update, as a
/// numerator and a denominator: seven in ten.
pub fn update_odds() -> (odds: (u32, u32))
    ensures
        odds == (UPDATES_IN_TEN, 10u32),
{
    (UPDATES_IN_TEN, 10)
}

/// The random number generator of the `rand` crate. Nothing is known of its
/// state.
#[verifier::external_type_specification]
#[verifier::external_body]
pub struct ExStdRng(StdRng);

/// Calls `StdRng::from_entropy` (of `rand::SeedableRng`), which seeds a new
/// generator from the operating system. It panics if the operating system
/// gives no entropy; no argument decides that, so nothing here can rule it
/// out. Nothing is claimed of the result.
#[verifier::external_body]
fn rng_from_entropy() -> (rng: StdRng) {
    <StdRng as rand::SeedableRng>::from_entropy()
}

/// Calls `rand::Rng::gen_ratio`, which returns `true` with a chance of
/// `numerator` in `denominator`. It panics on a zero denominator and on a
/// numerator above the denominator, so both are excluded. Its documentation
/// promises `true` where the two are equal and `false` where the numerator is
/// zero; nothing else is claimed of the result.
#[verifier::external_body]
fn random_ratio(rng: &mut StdRng, numerator: u32, denominator: u32) -> (hit: bool)
    requires
        denominator > 0,
        numerator <= denominator,
    ensures
        numerator == denominator ==> hit,
        numerator == 0 ==> !hit,
{
    rand::Rng::gen_ratio(rng, numerator, denominator)
}

/// Calls `rand::Rng::gen_range` on the range from zero up to, not
/// including, `bound`. It panics on an empty range, so a zero bound is
/// excluded. The result lies in the range; nothing else is claimed of it.
#[verifier::external_body]
fn random_below(rng: &mut StdRng, bound: usize) -> (index: usize)
    requires
        bound > 0,
    ensures
        index < bound,
{
    rand::Rng::gen_range(rng, 0..bound)
}

/// Calls `rand::Rng::gen` for an array of 32 bytes. Nothing is claimed of
/// the bytes.
#[verifier::external_body]
fn random_bytes(rng: &mut StdRng) -> (bytes: [u8; 32]) {
    rand::Rng::gen(rng)
}

/// A tree together with the keys that were put into it, in the order in
/// which they were put, so that a random update can pick one of them.
pub struct TestTreeState {
    tree: TreeState,
    keys: Vec<Key>,
}

impl TestTreeState {
    /// Whether the state is sound: the tree is, and it holds every key that
    /// is remembered.
    pub closed spec fn wf(&self) -> bool {
        &&& self.tree.wf()
        &&& forall|i: int|
            0 <= i < self.keys@.len() ==> self.tree@.dom().contains((#[trigger] self.keys@[i])@)
    }

    /// What the tree holds.
    pub closed spec fn contents(&self) -> Contents {
        self.tree@
    }

    /// The keys that were put into the tree, oldest first.
    pub closed spec fn known_keys(&self) -> Seq<Seq<u8>> {
        Seq::new(self.keys@.len(), |i: int| self.keys@[i]@)
    }

    /// The root of the tree: the commitment to what it holds.
    pub open spec fn root(&self) -> Seq<u8> {
        commitment(self.contents())
    }

    /// An empty tree with no keys remembered.
    pub fn new() -> (state: TestTreeState)
        ensures
            state.wf(),
            state.contents() == Map::<Seq<u8>, Seq<u8>>::empty(),
            state.known_keys() == Seq::<Seq<u8>>::empty(),
    {
        let state = TestTreeState { tree: TreeState::new(), keys: Vec::new() };
        state
    }

    /// The tree.
    pub fn tree(&self) -> (tree: &TreeState)
        requires
            self.wf(),
        ensures
            tree.wf(),
            tree@ == self.contents(),
    {
        &self.tree
    }

    /// The number of keys that were put into the tree.
    pub fn key_count(&self) -> (count: usize)
        ensures
            count == self.known_keys().len(),
    {
        self.keys.len()
    }

    /// Inserts a key and value that were drawn somewhere, and remembers the
    /// key if the tree took it.
    pub fn insert_drawn(&mut self, key: Key, value: Vec<u8>) -> (outcome: Result<
        InsertProof,
        TreeError,
    >)
        requires
            old(self).wf(),
        ensures
            final(self).wf(),
            insert_outcome(outcome) == insert_result(old(self).contents(), key@, value@),
            final(self).contents() == after_insert(old(self).contents(), key@, value@),
            final(self).known_keys() == if outcome is Ok {
                old(self).known_keys().push(key@)
            } else {
                old(self).known_keys()
            },
            outcome is Ok ==> outcome->Ok_0@.verify(old(self).root()) == Ok::<Seq<u8>, TreeError>(
                final(self).root(),
            ),
    {
        let outcome = self.tree.insert(key, value);
        if outcome.is_ok() {
            self.keys.push(key);
        }
        outcome
    }

    /// Updates the key that was put into the tree as number `index`, counted
    /// from zero, to a value that was drawn somewhere. Fails with
    /// `KeyNotFound`, and changes nothing, if fewer keys were put in.
    pub fn update_drawn(&mut self, index: usize, value: Vec<u8>) -> (outcome: Result<
        UpdateProof,
        TreeError,
    >)
        requires
            old(self).wf(),
        ensures
            final(self).wf(),
            final(self).known_keys() == old(self).known_keys(),
            index >= old(self).known_keys().len() ==> {
                &&& update_outcome(outcome) == Err::<UpdateProofView, TreeError>(
                    TreeError::KeyNotFound,
                )
                &&& final(self).contents() == old(self).contents()
            },
            index < old(self).known_keys().len() ==> {
                &&& outcome is Ok
                &&& update_outcome(outcome) == update_result(
                    old(self).contents(),
                    old(self).known_keys()[index as int],
                    value@,
                )
                &&& final(self).contents() == after_update(
                    old(self).contents(),
                    old(self).known_keys()[index as int],
                    value@,
                )
                &&& outcome->Ok_0@.verify(old(self).root()) == Ok::<Seq<u8>, TreeError>(
                    final(self).root(),
                )
            },
    {
        if index >= self.keys.len() {
            return Err(TreeError::KeyNotFound);
        }
        let key = self.keys[index];
        self.tree.update(key, value)
    }
}

/// Inserts a random key with a random value. The one way to fail is that
/// the key drawn is already in the tree, which then stays as it was.
pub fn create_random_insert(state: &mut TestTreeState, rng: &mut StdRng) -> (outcome: Result<
    InsertProof,
    TreeError,
>)
    requires
        old(state).wf(),
    ensures
        final(state).wf(),
        old(state).contents() == Map::<Seq<u8>, Seq<u8>>::empty() ==> outcome is Ok,
        match outcome {
            Ok(made) => {
                &&& !old(state).contents().dom().contains(made@.key)
                &&& Ok::<InsertProofView, TreeError>(made@) == insert_result(
                    old(state).contents(),
                    made@.key,
                    made@.value,
                )
                &&& final(state).contents() == old(state).contents().insert(
                    made@.key,
                    made@.value,
                )
                &&& final(state).known_keys() == old(state).known_keys().push(made@.key)
                &&& made@.verify(old(state).root()) == Ok::<Seq<u8>, TreeError>(
                    final(state).root(),
                )
            },
            Err(error) => {
                &&& error == TreeError::KeyAlreadyExists
                &&& final(state).contents() == old(state).contents()
                &&& final(state).known_keys() == old(state).known_keys()
            },
        },
{
    let key = random_bytes(rng);
    let value = random_bytes(rng);
    state.insert_drawn(key, slice_to_vec(value.as_slice()))
}

/// Updates a key chosen at random among those put into the tree to a
/// random value. The one way to fail is that no key was put in yet.
pub fn create_random_update(state: &mut TestTreeState, rng: &mut StdRng) -> (outcome: Result<
    UpdateProof,
    TreeError,
>)
    requires
        old(state).wf(),
    ensures
        final(state).wf(),
        final(state).known_keys() == old(state).known_keys(),
        outcome is Ok <==> old(state).known_keys().len() > 0,
        match outcome {
            Ok(made) => {
                &&& old(state).known_keys().contains(made@.key)
                &&& old(state).contents().dom().contains(made@.key)
                &&& Ok::<UpdateProofView, TreeError>(made@) == update_result(
                    old(state).contents(),
                    made@.key,
                    made@.new_value,
                )
                &&& final(state).contents() == old(state).contents().insert(
                    made@.key,
                    made@.new_value,
                )
                &&& made@.verify(old(state).root()) == Ok::<Seq<u8>, TreeError>(
                    final(state).root(),
                )
            },
            Err(error) => {
                &&& error == TreeError::KeyNotFound
                &&& final(state).contents() == old(state).contents()
            },
        },
{
    let count = state.key_count();
    if count == 0 {
        return Err(TreeError::KeyNotFound);
    }
    let index = random_below(rng, count);
    let value = random_bytes(rng);
    assert(state.known_keys().contains(state.known_keys()[index as int]));
    state.update_drawn(index, slice_to_vec(value.as_slice()))
}

/// Applies one random operation of the kind that was drawn: an update of a
/// key chosen at random if `update` is set, else an insertion of a random
/// key. An update fails, with `KeyNotFound`, exactly if no key was put into
/// the tree yet; an insertion fails, with `KeyAlreadyExists`, only if the
/// key drawn is already there, which cannot be in a tree that holds nothing.
/// A failure leaves the state as it was.
pub fn apply_drawn(state: &mut TestTreeState, rng: &mut StdRng, update: bool) -> (outcome: Result<
    Proof,
    TreeError,
>)
    requires
        old(state).wf(),
    ensures
        final(state).wf(),
        update ==> (outcome is Ok <==> old(state).known_keys().len() > 0),
        !update && old(state).contents() == Map::<Seq<u8>, Seq<u8>>::empty() ==> outcome is Ok,
        match outcome {
            Ok(made) => {
                &&& (made is Update) == update
                &&& update ==> old(state).known_keys().contains(operation_of(made@).key())
                &&& operation_of(made@).succeeds_on(old(state).contents())
                &&& made@ == operation_of(made@).proof_on(old(state).contents())
                &&& final(state).contents() == operation_of(made@).apply(old(state).contents())
                &&& final(state).known_keys() == if update {
                    old(state).known_keys()
                } else {
                    old(state).known_keys().push(operation_of(made@).key())
                }
                &&& made@.verify(old(state).root()) == Ok::<Seq<u8>, TreeError>(
                    final(state).root(),
                )
            },
            Err(error) => {
                &&& error == if update {
                    TreeError::KeyNotFound
                } else {
                    TreeError::KeyAlreadyExists
                }
                &&& final(state).contents() == old(state).contents()
                &&& final(state).known_keys() == old(state).known_keys()
            },
        },
{
    if update {
        match create_random_update(state, rng) {
            Ok(made) => Ok(Proof::Update(made)),
            Err(error) => Err(error),
        }
    } else {
        match create_random_insert(state, rng) {
            Ok(made) => Ok(Proof::Insert(made)),
            Err(error) => Err(error),
        }
    }
}

/// Builds a random batch with the generator given. A fresh tree is filled
/// with `initial_leaf_count` random keys; then `num_operations` random
/// operations are applied, about seven updates to three insertions, and
/// their proofs gathered between the root before and the root after them.
///
/// Fails with `EmptyTree` exactly if `initial_leaf_count` is zero, and else
/// only with `KeyAlreadyExists`, when a random key is drawn twice; one leaf
/// and no operations cannot fail. A batch that is returned records the run
/// that `num_operations` draws stand for, every operation succeeding, on a
/// tree filled by `initial_leaf_count` insertions; so it validates.
pub fn create_batch_with(
    rng: &mut StdRng,
    initial_leaf_count: usize,
    num_operations: usize,
) -> (outcome: Result<Batch, TreeError>)
    ensures
        initial_leaf_count == 0 ==> outcome is Err,
        initial_leaf_count == 1 && num_operations == 0 ==> outcome is Ok,
        match outcome {
            Ok(batch) => {
                &&& batch@.proofs.len() == num_operations
                &&& batch@.validate() == Ok::<Seq<u8>, TreeError>(batch@.new_root)
                &&& exists|fill: Seq<Draw>, run: Seq<Draw>|
                    fill.len() == initial_leaf_count && run.len() == num_operations
                        && #[trigger] records_draws(batch@, fill, run)
            },
            Err(error) => if initial_leaf_count == 0 {
                error == TreeError::EmptyTree
            } else {
                error == TreeError::KeyAlreadyExists
            },
        },
{
    if initial_leaf_count == 0 {
        return Err(TreeError::EmptyTree);
    }
    let ghost nothing = Map::<Seq<u8>, Seq<u8>>::empty();
    let ghost no_keys = Seq::<Seq<u8>>::empty();
    let mut state = TestTreeState::new();
    let ghost mut fill = Seq::<Operation>::empty();
    let ghost mut fill_draws = Seq::<Draw>::empty();
    let mut filled: usize = 0;
    while filled < initial_leaf_count
        invariant
            state.wf(),
            nothing == Map::<Seq<u8>, Seq<u8>>::empty(),
            no_keys == Seq::<Seq<u8>>::empty(),
            filled <= initial_leaf_count,
            state.known_keys().len() == filled,
            fill.len() == filled,
            fill_draws.len() == filled,
            all_insertions(fill),
            all_succeed(nothing, fill),
            state.contents() == state_after(nothing, fill, fill.len() as int),
            all_insert_draws(fill_draws),
            fill == operations_drawn(no_keys, fill_draws),
            state.known_keys() == keys_after(no_keys, fill_draws, fill_draws.len() as int),
        decreases initial_leaf_count - filled,
    {
        match create_random_insert(&mut state, rng) {
            Ok(made) => {
                proof {
                    let insertion = Operation::Insert { key: made@.key, value: made@.value };
                    let draw = Draw::Insert { key: made@.key, value: made@.value };
                    lemma_run_one_more(nothing, fill, insertion);
                    lemma_draw_one_more(no_keys, fill_draws, draw);
                    fill = fill.push(insertion);
                    fill_draws = fill_draws.push(draw);
                }
            },
            Err(error) => {
                return Err(error);
            },
        }
        filled += 1;
    }
    let ghost start = state.contents();
    let ghost start_keys = state.known_keys();
    let prev_root = state.tree().commitment();
    let mut proofs: Vec<Proof> = Vec::with_capacity(num_operations);
    let ghost mut run = Seq::<Operation>::empty();
    let ghost mut run_draws = Seq::<Draw>::empty();
    let mut done: usize = 0;
    while done < num_operations
        invariant
            state.wf(),
            initial_leaf_count > 0,
            done <= num_operations,
            proofs@.len() == done,
            run.len() == done,
            run_draws.len() == done,
            state.known_keys().len() > 0,
            all_succeed(start, run),
            state.contents() == state_after(start, run, run.len() as int),
            proof_views(proofs@) == proofs_of(start, run),
            all_in_range(start_keys, run_draws),
            run == operations_drawn(start_keys, run_draws),
            state.known_keys() == keys_after(start_keys, run_draws, run_draws.len() as int),
        decreases num_operations - done,
    {
        let ghost so_far = proof_views(proofs@);
        let ghost known = state.known_keys();
        let (numerator, denominator) = update_odds();
        let update = random_ratio(rng, numerator, denominator);
        let made = match apply_drawn(&mut state, rng, update) {
            Ok(made) => made,
            Err(error) => {
                return Err(error);
            },
        };
        proof {
            let operation = operation_of(made@);
            let draw = match operation {
                Operation::Insert { key, value } => Draw::Insert { key, value },
                Operation::Update { key, value } => Draw::Update {
                    index: choose|index: int| 0 <= index < known.len() && known[index] == key,
                    value,
                },
            };
            assert(drawn_operation(known, draw) == operation);
            lemma_run_one_more(start, run, operation);
            lemma_draw_one_more(start_keys, run_draws, draw);
            run = run.push(operation);
            run_draws = run_draws.push(draw);
        }
        proofs.push(made);
        assert(proof_views(proofs@) =~= so_far.push(made@));
        done += 1;
    }
    let new_root = state.tree().commitment();
    let batch = Batch { prev_root, new_root, proofs };
    proof {
        lemma_honest_batch_validates(start, run);
        assert(records_run(batch@, fill, run));
        assert(records_draws(batch@, fill_draws, run_draws));
    }
    Ok(batch)
}

/// Builds a random batch as `create_batch_with` does, with a generator
/// seeded from the operating system.
pub fn create_automated_batch(initial_leaf_count: usize, num_operations: usize) -> (outcome: Result<
    Batch,
    TreeError,
>)
    ensures
        initial_leaf_count == 0 ==> outcome is Err,
        initial_leaf_count == 1 && num_operations == 0 ==> outcome is Ok,
        match outcome {
            Ok(batch) => {
                &&& batch@.proofs.len() == num_operations
                &&& batch@.validate() == Ok::<Seq<u8>, TreeError>(batch@.new_root)
                &&& exists|fill: Seq<Draw>, run: Seq<Draw>|
                    fill.len() == initial_leaf_count && run.len() == num_operations
                        && #[trigger] records_draws(batch@, fill, run)
            },
            Err(error) => if initial_leaf_count == 0 {
                error == TreeError::EmptyTree
            } else {
                error == TreeError::KeyAlreadyExists
            },
        },
{
    let mut rng = rng_from_entropy();
    create_batch_with(&mut rng, initial_leaf_count, num_operations)
}

} // verus!
