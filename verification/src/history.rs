//! Runs of operations as mathematics: what a tree holds after each, which
//! proofs they return, and the batch that records a run.

use vstd::prelude::*;
use crate::batch::BatchView;
use crate::commitment::{commitment, Contents};
use crate::transition::ProofView;
use crate::tree::{
    after_insert, after_update, insert_proof_of, insert_result, update_proof_of, update_result,
};

verus! {

/// One operation on a tree, as plain values.
pub enum Operation {
    Insert { key: Seq<u8>, value: Seq<u8> },
    Update { key: Seq<u8>, value: Seq<u8> },
}

impl Operation {
    /// Whether the operation succeeds on a tree that holds `contents`.
    pub open spec fn succeeds_on(self, contents: Contents) -> bool {
        match self {
            Operation::Insert { key, value } => key.len() == 32 && insert_result(
                contents,
                key,
                value,
            ) is Ok,
            Operation::Update { key, value } => key.len() == 32 && update_result(
                contents,
                key,
                value,
            ) is Ok,
        }
    }

    /// What the tree holds after the operation.
    pub open spec fn apply(self, contents: Contents) -> Contents {
        match self {
            Operation::Insert { key, value } => after_insert(contents, key, value),
            Operation::Update { key, value } => after_update(contents, key, value),
        }
    }

    /// The key that the operation is about.
    pub open spec fn key(self) -> Seq<u8> {
        match self {
            Operation::Insert { key, value } => key,
            Operation::Update { key, value } => key,
        }
    }

    /// The proof that the operation returns where it succeeds.
    pub open spec fn proof_on(self, contents: Contents) -> ProofView {
        match self {
            Operation::Insert { key, value } => ProofView::Insert(
                insert_proof_of(contents, key, value),
            ),
            Operation::Update { key, value } => ProofView::Update(
                update_proof_of(contents, key, value),
            ),
        }
    }
}

/// The operation that a proof states: an insertion of its key and value, or
/// an update of its key to its new value.
pub open spec fn operation_of(evidence: ProofView) -> Operation {
    match evidence {
        ProofView::Insert(insertion) => Operation::Insert {
            key: insertion.key,
            value: insertion.value,
        },
        ProofView::Update(update) => Operation::Update {
            key: update.key,
            value: update.new_value,
        },
    }
}

/// What a tree that held `start` holds after the first `n` of `operations`.
pub open spec fn state_after(start: Contents, operations: Seq<Operation>, n: int) -> Contents
    decreases n,
{
    if n <= 0 {
        start
    } else {
        operations[n - 1].apply(state_after(start, operations, n - 1))
    }
}

/// Whether each of `operations` succeeds in its turn, from `start` on.
pub open spec fn all_succeed(start: Contents, operations: Seq<Operation>) -> bool {
    forall|n: int|
        0 <= n < operations.len() ==> (#[trigger] operations[n]).succeeds_on(
            state_after(start, operations, n),
        )
}

/// The proofs that `operations` return, one after the other, from `start` on.
pub open spec fn proofs_of(start: Contents, operations: Seq<Operation>) -> Seq<ProofView> {
    Seq::new(
        operations.len(),
        |n: int| operations[n].proof_on(state_after(start, operations, n)),
    )
}

/// The batch that records the run of `operations` from `start`: the root
/// before, the root after, and the proofs between them.
pub open spec fn honest_batch(start: Contents, operations: Seq<Operation>) -> BatchView {
    BatchView {
        prev_root: commitment(start),
        new_root: commitment(state_after(start, operations, operations.len() as int)),
        proofs: proofs_of(start, operations),
    }
}

/// Whether every one of `operations` is an insertion.
pub open spec fn all_insertions(operations: Seq<Operation>) -> bool {
    forall|n: int| 0 <= n < operations.len() ==> #[trigger] operations[n] is Insert
}

/// Whether `batch` records the run `run` on a tree that was filled, from
/// empty, by the insertions `fill`, every operation succeeding in its turn.
pub open spec fn records_run(batch: BatchView, fill: Seq<Operation>, run: Seq<Operation>) -> bool {
    let start = state_after(Map::<Seq<u8>, Seq<u8>>::empty(), fill, fill.len() as int);
    &&& all_insertions(fill)
    &&& all_succeed(Map::<Seq<u8>, Seq<u8>>::empty(), fill)
    &&& all_succeed(start, run)
    &&& batch == honest_batch(start, run)
}

/// What a tree holds after some operations does not depend on those that
/// come later.
pub proof fn lemma_state_ignores_later(
    start: Contents,
    operations: Seq<Operation>,
    later: Operation,
    n: int,
)
    requires
        n <= operations.len(),
    ensures
        state_after(start, operations.push(later), n) == state_after(start, operations, n),
    decreases n,
{
    if n > 0 {
        lemma_state_ignores_later(start, operations, later, n - 1);
    }
}

/// A run that succeeded, and one operation more that succeeds on what the
/// tree then holds, are a run that succeeds; its proofs are those of the
/// shorter run and the proof of the last operation.
pub proof fn lemma_run_one_more(start: Contents, operations: Seq<Operation>, last: Operation)
    requires
        all_succeed(start, operations),
        last.succeeds_on(state_after(start, operations, operations.len() as int)),
    ensures
        all_succeed(start, operations.push(last)),
        state_after(start, operations.push(last), operations.len() as int + 1) == last.apply(
            state_after(start, operations, operations.len() as int),
        ),
        proofs_of(start, operations.push(last)) == proofs_of(start, operations).push(
            last.proof_on(state_after(start, operations, operations.len() as int)),
        ),
{
    let longer = operations.push(last);
    assert forall|n: int| 0 <= n <= operations.len() implies state_after(start, longer, n)
        == state_after(start, operations, n) by {
        lemma_state_ignores_later(start, operations, last, n);
    }
    assert forall|n: int| 0 <= n < longer.len() implies (#[trigger] longer[n]).succeeds_on(
        state_after(start, longer, n),
    ) by {
        if n < operations.len() {
            assert(operations[n].succeeds_on(state_after(start, operations, n)));
        }
    }
    assert(proofs_of(start, longer) =~= proofs_of(start, operations).push(
        last.proof_on(state_after(start, operations, operations.len() as int)),
    ));
}

/// What is drawn at random for one operation, as plain values: for an
/// insertion a key and a value; for an update a value and the number of the
/// key, counted from zero among the keys put into the tree so far.
pub enum Draw {
    Insert { key: Seq<u8>, value: Seq<u8> },
    Update { index: int, value: Seq<u8> },
}

/// The operation that a draw stands for, where `known_keys` were put into
/// the tree so far.
pub open spec fn drawn_operation(known_keys: Seq<Seq<u8>>, draw: Draw) -> Operation {
    match draw {
        Draw::Insert { key, value } => Operation::Insert { key, value },
        Draw::Update { index, value } => Operation::Update { key: known_keys[index], value },
    }
}

/// The keys put into the tree after the first `n` of `draws`, each of which
/// led to an operation that succeeded: those known before, and the keys of
/// the insertions among them, in order.
pub open spec fn keys_after(known_keys: Seq<Seq<u8>>, draws: Seq<Draw>, n: int) -> Seq<Seq<u8>>
    decreases n,
{
    if n <= 0 {
        known_keys
    } else {
        let before = keys_after(known_keys, draws, n - 1);
        match draws[n - 1] {
            Draw::Insert { key, value } => before.push(key),
            Draw::Update { index, value } => before,
        }
    }
}

/// The operations that `draws` stand for, one after the other.
pub open spec fn operations_drawn(known_keys: Seq<Seq<u8>>, draws: Seq<Draw>) -> Seq<Operation> {
    Seq::new(
        draws.len(),
        |n: int| drawn_operation(keys_after(known_keys, draws, n), draws[n]),
    )
}

/// Whether a draw for an update names one of `known_keys`.
pub open spec fn in_range(known_keys: Seq<Seq<u8>>, draw: Draw) -> bool {
    match draw {
        Draw::Insert { key, value } => true,
        Draw::Update { index, value } => 0 <= index < known_keys.len(),
    }
}

/// Whether every draw for an update names a key that was put in before it.
pub open spec fn all_in_range(known_keys: Seq<Seq<u8>>, draws: Seq<Draw>) -> bool {
    forall|n: int|
        0 <= n < draws.len() ==> in_range(keys_after(known_keys, draws, n), #[trigger] draws[n])
}

/// Whether every one of `draws` is for an insertion.
pub open spec fn all_insert_draws(draws: Seq<Draw>) -> bool {
    forall|n: int| 0 <= n < draws.len() ==> #[trigger] draws[n] is Insert
}

/// Whether `batch` records the run that the draws `run` stand for, on a tree
/// that was filled, from empty, by the insertions that the draws `fill`
/// stand for, every operation succeeding in its turn.
pub open spec fn records_draws(batch: BatchView, fill: Seq<Draw>, run: Seq<Draw>) -> bool {
    let none = Seq::<Seq<u8>>::empty();
    let filled = keys_after(none, fill, fill.len() as int);
    &&& all_insert_draws(fill)
    &&& all_in_range(filled, run)
    &&& records_run(batch, operations_drawn(none, fill), operations_drawn(filled, run))
}

/// The keys put in after some draws do not depend on the draws that come
/// later.
pub proof fn lemma_keys_ignore_later(
    known_keys: Seq<Seq<u8>>,
    draws: Seq<Draw>,
    later: Draw,
    n: int,
)
    requires
        n <= draws.len(),
    ensures
        keys_after(known_keys, draws.push(later), n) == keys_after(known_keys, draws, n),
    decreases n,
{
    if n > 0 {
        lemma_keys_ignore_later(known_keys, draws, later, n - 1);
    }
}

/// One draw more stands for one operation more, and adds its key if it is
/// for an insertion.
pub proof fn lemma_draw_one_more(known_keys: Seq<Seq<u8>>, draws: Seq<Draw>, last: Draw)
    ensures
        keys_after(known_keys, draws.push(last), draws.len() as int + 1) == match last {
            Draw::Insert { key, value } => keys_after(
                known_keys,
                draws,
                draws.len() as int,
            ).push(key),
            Draw::Update { index, value } => keys_after(known_keys, draws, draws.len() as int),
        },
        operations_drawn(known_keys, draws.push(last)) == operations_drawn(
            known_keys,
            draws,
        ).push(drawn_operation(keys_after(known_keys, draws, draws.len() as int), last)),
        all_in_range(known_keys, draws) && in_range(
            keys_after(known_keys, draws, draws.len() as int),
            last,
        ) ==> all_in_range(known_keys, draws.push(last)),
        all_insert_draws(draws) && last is Insert ==> all_insert_draws(draws.push(last)),
{
    let longer = draws.push(last);
    assert forall|n: int| 0 <= n <= draws.len() implies keys_after(known_keys, longer, n)
        == keys_after(known_keys, draws, n) by {
        lemma_keys_ignore_later(known_keys, draws, last, n);
    }
    assert(operations_drawn(known_keys, longer) =~= operations_drawn(known_keys, draws).push(
        drawn_operation(keys_after(known_keys, draws, draws.len() as int), last),
    ));
    if all_in_range(known_keys, draws) && in_range(
        keys_after(known_keys, draws, draws.len() as int),
        last,
    ) {
        assert forall|n: int| 0 <= n < longer.len() implies in_range(
            keys_after(known_keys, longer, n),
            #[trigger] longer[n],
        ) by {
            if n < draws.len() {
                assert(in_range(keys_after(known_keys, draws, n), draws[n]));
            }
        }
    }
}

} // verus!
