//! The bytes in which a batch crosses to a verifier, and back.
//!
//! A batch is its two roots, the number of its proofs and the proofs in
//! order. A proof is a tag byte (zero for an insertion, one for an update),
//! then its fields. Digests and keys are written as their 32 bytes; a number
//! as eight bytes, least significant first; a byte string as its length and
//! its bytes; a list of digests as its length and the digests.

use vstd::prelude::*;
use vstd::bytes::{
    lemma_auto_spec_u64_to_from_le_bytes, spec_u64_from_le_bytes, spec_u64_to_le_bytes,
    u64_from_le_bytes, u64_to_le_bytes,
};
use vstd::slice::{slice_subrange, slice_to_vec};
use crate::batch::{proof_views, Batch, BatchView};
use crate::digest::Digest;
use crate::hashing::digest_views;
use crate::transition::{
    all_digest_wide, InsertProof, InsertProofView, Proof, ProofView, UpdateProof, UpdateProofView,
    WitnessLeaf,
};

verus! {

/// A number as eight bytes, least significant first.
pub open spec fn encode_len(n: nat) -> Seq<u8> {
    spec_u64_to_le_bytes(n as u64)
}

/// A byte string as its length and its bytes.
pub open spec fn encode_bytes(bytes: Seq<u8>) -> Seq<u8> {
    encode_len(bytes.len()) + bytes
}

/// Digests of 32 bytes each, one after the other.
pub open spec fn flatten(digests: Seq<Seq<u8>>) -> Seq<u8> {
    Seq::new(32 * digests.len(), |i: int| digests[i / 32][i % 32])
}

/// A list of digests as its length and the digests.
pub open spec fn encode_digests(digests: Seq<Seq<u8>>) -> Seq<u8> {
    encode_len(digests.len()) + flatten(digests)
}

/// The fields of an insertion proof as bytes.
pub open spec fn insert_fields(insertion: InsertProofView) -> Seq<u8> {
    insertion.key + (insertion.prior_root + (insertion.new_root + (encode_bytes(insertion.value)
        + encode_digests(insertion.siblings))))
}

/// An insertion proof as bytes: the tag zero, then the fields.
pub open spec fn encode_insert(insertion: InsertProofView) -> Seq<u8> {
    seq![0u8] + insert_fields(insertion)
}

/// The fields of an update proof as bytes.
pub open spec fn update_fields(update: UpdateProofView) -> Seq<u8> {
    update.key + (update.prior_root + (update.new_root + (update.leaf_key + (
    update.leaf_value_digest + (encode_bytes(update.old_value) + (encode_bytes(update.new_value)
        + encode_digests(update.siblings)))))))
}

/// An update proof as bytes: the tag one, then the fields.
pub open spec fn encode_update(update: UpdateProofView) -> Seq<u8> {
    seq![1u8] + update_fields(update)
}

/// A proof of either kind as bytes.
pub open spec fn encode_proof(evidence: ProofView) -> Seq<u8> {
    match evidence {
        ProofView::Insert(insertion) => encode_insert(insertion),
        ProofView::Update(update) => encode_update(update),
    }
}

/// Proofs as bytes, one after the other.
pub open spec fn encode_proofs(proofs: Seq<ProofView>) -> Seq<u8>
    decreases proofs.len(),
{
    if proofs.len() == 0 {
        Seq::<u8>::empty()
    } else {
        encode_proofs(proofs.drop_last()) + encode_proof(proofs.last())
    }
}

/// A batch as bytes.
pub open spec fn encode_batch(batch: BatchView) -> Seq<u8> {
    batch.prev_root + (batch.new_root + (encode_len(batch.proofs.len()) + encode_proofs(
        batch.proofs,
    )))
}

/// Appends a number.
fn put_len(out: &mut Vec<u8>, n: usize)
    ensures
        final(out)@ == old(out)@ + encode_len(n as nat),
{
    let bytes = u64_to_le_bytes(n as u64);
    out.extend_from_slice(bytes.as_slice());
}

/// Appends bytes as they are.
fn put_raw(out: &mut Vec<u8>, bytes: &[u8])
    ensures
        final(out)@ == old(out)@ + bytes@,
{
    out.extend_from_slice(bytes);
}

/// Appends a byte string with its length.
fn put_bytes(out: &mut Vec<u8>, bytes: &[u8])
    ensures
        final(out)@ == old(out)@ + encode_bytes(bytes@),
{
    put_len(out, bytes.len());
    put_raw(out, bytes);
}

/// Flattening one digest more appends its bytes.
proof fn lemma_flatten_push(digests: Seq<Seq<u8>>, last: Seq<u8>)
    requires
        last.len() == 32,
    ensures
        flatten(digests.push(last)) == flatten(digests) + last,
{
    let whole = flatten(digests.push(last));
    let parts = flatten(digests) + last;
    assert forall|j: int| 0 <= j < whole.len() implies whole[j] == parts[j] by {
        if j >= 32 * digests.len() {
            assert(j / 32 == digests.len() && j % 32 == j - 32 * digests.len());
        }
    }
    assert(whole =~= parts);
}

/// Appends a list of digests with its length.
fn put_digests(out: &mut Vec<u8>, digests: &Vec<Digest>)
    ensures
        final(out)@ == old(out)@ + encode_digests(digest_views(digests@)),
{
    let ghost views = digest_views(digests@);
    put_len(out, digests.len());
    let ghost head = out@;
    let mut i: usize = 0;
    while i < digests.len()
        invariant
            i <= digests@.len(),
            views == digest_views(digests@),
            out@ == head + flatten(views.take(i as int)),
        decreases digests@.len() - i,
    {
        put_raw(out, digests[i].as_bytes());
        proof {
            digests@[i as int].lemma_width();
            lemma_flatten_push(views.take(i as int), views[i as int]);
        }
        i += 1;
    }
}

impl InsertProof {
    /// Appends the proof to `out`.
    pub fn write_to(&self, out: &mut Vec<u8>)
        ensures
            final(out)@ == old(out)@ + encode_insert(self@),
    {
        out.push(0u8);
        put_raw(out, self.key.as_slice());
        put_raw(out, self.prior_root.as_bytes());
        put_raw(out, self.new_root.as_bytes());
        put_bytes(out, self.value.as_slice());
        put_digests(out, &self.siblings);
    }
}

impl UpdateProof {
    /// Appends the proof to `out`.
    pub fn write_to(&self, out: &mut Vec<u8>)
        ensures
            final(out)@ == old(out)@ + encode_update(self@),
    {
        out.push(1u8);
        put_raw(out, self.key.as_slice());
        put_raw(out, self.prior_root.as_bytes());
        put_raw(out, self.new_root.as_bytes());
        put_raw(out, self.leaf.key.as_slice());
        put_raw(out, self.leaf.value_digest.as_bytes());
        put_bytes(out, self.old_value.as_slice());
        put_bytes(out, self.new_value.as_slice());
        put_digests(out, &self.siblings);
    }
}

impl Proof {
    /// Appends the proof to `out`.
    pub fn write_to(&self, out: &mut Vec<u8>)
        ensures
            final(out)@ == old(out)@ + encode_proof(self@),
    {
        match self {
            Proof::Insert(insertion) => insertion.write_to(out),
            Proof::Update(update) => update.write_to(out),
        }
    }
}

impl Batch {
    /// The batch as bytes, to be handed to a verifier as its one input.
    pub fn to_bytes(&self) -> (bytes: Vec<u8>)
        ensures
            bytes@ == encode_batch(self@),
            parse_batch(bytes@) == Some(self@),
    {
        proof {
            self.lemma_view_wf();
            lemma_batch_round_trip(self@);
        }
        let mut out: Vec<u8> = Vec::new();
        put_raw(&mut out, self.prev_root.as_bytes());
        put_raw(&mut out, self.new_root.as_bytes());
        put_len(&mut out, self.proofs.len());
        let ghost head = out@;
        let ghost all = proof_views(self.proofs@);
        let mut i: usize = 0;
        while i < self.proofs.len()
            invariant
                i <= self.proofs@.len(),
                all == proof_views(self.proofs@),
                out@ == head + encode_proofs(all.take(i as int)),
            decreases self.proofs@.len() - i,
        {
            self.proofs[i].write_to(&mut out);
            proof {
                let longer = all.take(i + 1);
                assert(longer.drop_last() =~= all.take(i as int));
            }
            i += 1;
        }
        assert(all.take(self.proofs@.len() as int) =~= all);
        out
    }
}

/// What reading a number at `at` gives: the number, and where reading goes on.
pub open spec fn parse_len(bytes: Seq<u8>, at: int) -> Option<(nat, int)> {
    if 0 <= at && at + 8 <= bytes.len() {
        Some((spec_u64_from_le_bytes(bytes.subrange(at, at + 8)) as nat, at + 8))
    } else {
        None
    }
}

/// What reading a byte string with its length at `at` gives.
pub open spec fn parse_bytes(bytes: Seq<u8>, at: int) -> Option<(Seq<u8>, int)> {
    match parse_len(bytes, at) {
        Some((n, next)) => if next + n <= bytes.len() {
            Some((bytes.subrange(next, next + n), next + n))
        } else {
            None
        },
        None => None,
    }
}

/// What reading a list of digests with its length at `at` gives.
pub open spec fn parse_digests(bytes: Seq<u8>, at: int) -> Option<(Seq<Seq<u8>>, int)> {
    match parse_len(bytes, at) {
        Some((n, next)) => if next + 32 * n <= bytes.len() {
            Some(
                (
                    Seq::new(n, |i: int| bytes.subrange(next + 32 * i, next + 32 * i + 32)),
                    next + 32 * n,
                ),
            )
        } else {
            None
        },
        None => None,
    }
}

/// What reading the fields of an insertion proof at `at` gives.
pub open spec fn parse_insert(bytes: Seq<u8>, at: int) -> Option<(InsertProofView, int)> {
    if 0 <= at && at + 96 <= bytes.len() {
        match parse_bytes(bytes, at + 96) {
            Some((value, next)) => match parse_digests(bytes, next) {
                Some((siblings, end)) => Some(
                    (
                        InsertProofView {
                            key: bytes.subrange(at, at + 32),
                            value,
                            prior_root: bytes.subrange(at + 32, at + 64),
                            new_root: bytes.subrange(at + 64, at + 96),
                            siblings,
                        },
                        end,
                    ),
                ),
                None => None,
            },
            None => None,
        }
    } else {
        None
    }
}

/// What reading the fields of an update proof at `at` gives.
pub open spec fn parse_update(bytes: Seq<u8>, at: int) -> Option<(UpdateProofView, int)> {
    if 0 <= at && at + 160 <= bytes.len() {
        match parse_bytes(bytes, at + 160) {
            Some((old_value, next)) => match parse_bytes(bytes, next) {
                Some((new_value, after)) => match parse_digests(bytes, after) {
                    Some((siblings, end)) => Some(
                        (
                            UpdateProofView {
                                key: bytes.subrange(at, at + 32),
                                old_value,
                                new_value,
                                prior_root: bytes.subrange(at + 32, at + 64),
                                new_root: bytes.subrange(at + 64, at + 96),
                                leaf_key: bytes.subrange(at + 96, at + 128),
                                leaf_value_digest: bytes.subrange(at + 128, at + 160),
                                siblings,
                            },
                            end,
                        ),
                    ),
                    None => None,
                },
                None => None,
            },
            None => None,
        }
    } else {
        None
    }
}

/// What reading a proof at `at` gives: the tag decides the kind, and any
/// other tag than zero and one is refused.
pub open spec fn parse_proof(bytes: Seq<u8>, at: int) -> Option<(ProofView, int)> {
    if 0 <= at < bytes.len() {
        if bytes[at] == 0u8 {
            match parse_insert(bytes, at + 1) {
                Some((insertion, end)) => Some((ProofView::Insert(insertion), end)),
                None => None,
            }
        } else if bytes[at] == 1u8 {
            match parse_update(bytes, at + 1) {
                Some((update, end)) => Some((ProofView::Update(update), end)),
                None => None,
            }
        } else {
            None
        }
    } else {
        None
    }
}

/// What reading `count` proofs from `at` on gives.
pub open spec fn parse_proofs(bytes: Seq<u8>, at: int, count: nat) -> Option<
    (Seq<ProofView>, int),
>
    decreases count,
{
    if count == 0 {
        Some((Seq::<ProofView>::empty(), at))
    } else {
        match parse_proofs(bytes, at, (count - 1) as nat) {
            Some((proofs, next)) => match parse_proof(bytes, next) {
                Some((last, end)) => Some((proofs.push(last), end)),
                None => None,
            },
            None => None,
        }
    }
}

/// What reading a batch from `bytes` gives. Nothing may follow the batch.
pub open spec fn parse_batch(bytes: Seq<u8>) -> Option<BatchView> {
    if 64 <= bytes.len() {
        match parse_len(bytes, 64) {
            Some((count, next)) => match parse_proofs(bytes, next, count) {
                Some((proofs, end)) => if end == bytes.len() {
                    Some(
                        BatchView {
                            prev_root: bytes.subrange(0, 32),
                            new_root: bytes.subrange(32, 64),
                            proofs,
                        },
                    )
                } else {
                    None
                },
                None => None,
            },
            None => None,
        }
    } else {
        None
    }
}

/// Reading proofs only moves forward, by a byte for each proof at least.
pub proof fn lemma_parse_proofs_advances(bytes: Seq<u8>, at: int, count: nat)
    requires
        0 <= at,
        parse_proofs(bytes, at, count) is Some,
    ensures
        parse_proofs(bytes, at, count)->Some_0.0.len() == count,
        at + count <= parse_proofs(bytes, at, count)->Some_0.1 <= bytes.len() || count == 0,
        at <= parse_proofs(bytes, at, count)->Some_0.1,
    decreases count,
{
    if count > 0 {
        lemma_parse_proofs_advances(bytes, at, (count - 1) as nat);
    }
}

/// Where more proofs can be read, fewer can.
pub proof fn lemma_parse_proofs_prefix(bytes: Seq<u8>, at: int, fewer: nat, count: nat)
    requires
        fewer <= count,
        parse_proofs(bytes, at, count) is Some,
    ensures
        parse_proofs(bytes, at, fewer) is Some,
    decreases count,
{
    if fewer < count {
        lemma_parse_proofs_prefix(bytes, at, fewer, (count - 1) as nat);
    }
}

/// The 32 bytes at `at`.
fn array_at(bytes: &[u8], at: usize) -> (held: [u8; 32])
    requires
        at + 32 <= bytes@.len(),
    ensures
        held@ == bytes@.subrange(at as int, at + 32),
{
    let mut held: [u8; 32] = [0u8; 32];
    let len = bytes.len();
    let mut i: usize = 0;
    while i < 32
        invariant
            i <= 32,
            at + 32 <= len == bytes@.len(),
            forall|j: int| 0 <= j < i ==> held@[j] == bytes@[at + j],
        decreases 32 - i,
    {
        held[i] = bytes[at + i];
        i += 1;
    }
    held
}

/// Reads a number at `at`.
fn take_len(bytes: &[u8], at: usize) -> (got: Option<(u64, usize)>)
    requires
        at <= bytes@.len(),
    ensures
        match got {
            Some((n, next)) => parse_len(bytes@, at as int) == Some((n as nat, next as int)),
            None => parse_len(bytes@, at as int) is None,
        },
{
    if bytes.len() - at < 8 {
        return None;
    }
    let n = u64_from_le_bytes(slice_subrange(bytes, at, at + 8));
    Some((n, at + 8))
}

/// Reads a byte string with its length at `at`.
fn take_bytes(bytes: &[u8], at: usize) -> (got: Option<(Vec<u8>, usize)>)
    requires
        at <= bytes@.len(),
    ensures
        match got {
            Some((held, next)) => parse_bytes(bytes@, at as int) == Some((held@, next as int)),
            None => parse_bytes(bytes@, at as int) is None,
        },
{
    let (n, next) = match take_len(bytes, at) {
        Some(pair) => pair,
        None => {
            return None;
        },
    };
    if n > (bytes.len() - next) as u64 {
        return None;
    }
    let end = next + n as usize;
    let held = slice_to_vec(slice_subrange(bytes, next, end));
    Some((held, end))
}

/// Reads a list of digests with its length at `at`.
fn take_digests(bytes: &[u8], at: usize) -> (got: Option<(Vec<Digest>, usize)>)
    requires
        at <= bytes@.len(),
    ensures
        match got {
            Some((held, next)) => parse_digests(bytes@, at as int) == Some(
                (digest_views(held@), next as int),
            ),
            None => parse_digests(bytes@, at as int) is None,
        },
{
    let (n, next) = match take_len(bytes, at) {
        Some(pair) => pair,
        None => {
            return None;
        },
    };
    if n > ((bytes.len() - next) / 32) as u64 {
        return None;
    }
    let count = n as usize;
    let len = bytes.len();
    let mut held: Vec<Digest> = Vec::new();
    let mut i: usize = 0;
    while i < count
        invariant
            i <= count,
            next + 32 * count <= len == bytes@.len(),
            held@.len() == i,
            forall|j: int|
                0 <= j < i ==> (#[trigger] held@[j])@ == bytes@.subrange(
                    next + 32 * j,
                    next + 32 * j + 32,
                ),
        decreases count - i,
    {
        held.push(Digest::from_array(array_at(bytes, next + 32 * i)));
        i += 1;
    }
    assert(digest_views(held@) =~= Seq::new(
        n as nat,
        |i: int| bytes@.subrange(next + 32 * i, next + 32 * i + 32),
    ));
    Some((held, next + 32 * count))
}

impl InsertProof {
    /// Reads the fields of an insertion proof at `at`.
    fn read_at(bytes: &[u8], at: usize) -> (got: Option<(InsertProof, usize)>)
        requires
            at <= bytes@.len(),
        ensures
            match got {
                Some((made, next)) => parse_insert(bytes@, at as int) == Some(
                    (made@, next as int),
                ),
                None => parse_insert(bytes@, at as int) is None,
            },
    {
        if bytes.len() - at < 96 {
            return None;
        }
        let key = array_at(bytes, at);
        let prior_root = Digest::from_array(array_at(bytes, at + 32));
        let new_root = Digest::from_array(array_at(bytes, at + 64));
        let (value, next) = match take_bytes(bytes, at + 96) {
            Some(pair) => pair,
            None => {
                return None;
            },
        };
        let (siblings, end) = match take_digests(bytes, next) {
            Some(pair) => pair,
            None => {
                return None;
            },
        };
        Some((InsertProof { key, value, prior_root, new_root, siblings }, end))
    }
}

impl UpdateProof {
    /// Reads the fields of an update proof at `at`.
    fn read_at(bytes: &[u8], at: usize) -> (got: Option<(UpdateProof, usize)>)
        requires
            at <= bytes@.len(),
        ensures
            match got {
                Some((made, next)) => parse_update(bytes@, at as int) == Some(
                    (made@, next as int),
                ),
                None => parse_update(bytes@, at as int) is None,
            },
    {
        if bytes.len() - at < 160 {
            return None;
        }
        let key = array_at(bytes, at);
        let prior_root = Digest::from_array(array_at(bytes, at + 32));
        let new_root = Digest::from_array(array_at(bytes, at + 64));
        let leaf = WitnessLeaf {
            key: array_at(bytes, at + 96),
            value_digest: Digest::from_array(array_at(bytes, at + 128)),
        };
        let (old_value, next) = match take_bytes(bytes, at + 160) {
            Some(pair) => pair,
            None => {
                return None;
            },
        };
        let (new_value, after) = match take_bytes(bytes, next) {
            Some(pair) => pair,
            None => {
                return None;
            },
        };
        let (siblings, end) = match take_digests(bytes, after) {
            Some(pair) => pair,
            None => {
                return None;
            },
        };
        Some(
            (
                UpdateProof { key, old_value, new_value, prior_root, new_root, leaf, siblings },
                end,
            ),
        )
    }
}

impl Proof {
    /// Reads a proof at `at`.
    fn read_at(bytes: &[u8], at: usize) -> (got: Option<(Proof, usize)>)
        requires
            at <= bytes@.len(),
        ensures
            match got {
                Some((made, next)) => parse_proof(bytes@, at as int) == Some(
                    (made@, next as int),
                ),
                None => parse_proof(bytes@, at as int) is None,
            },
    {
        if at >= bytes.len() {
            return None;
        }
        let tag = bytes[at];
        if tag == 0 {
            match InsertProof::read_at(bytes, at + 1) {
                Some((insertion, end)) => Some((Proof::Insert(insertion), end)),
                None => None,
            }
        } else if tag == 1 {
            match UpdateProof::read_at(bytes, at + 1) {
                Some((update, end)) => Some((Proof::Update(update), end)),
                None => None,
            }
        } else {
            None
        }
    }
}

impl Batch {
    /// Reads a batch, step by step as `parse_batch` says.
    fn read(bytes: &[u8]) -> (got: Option<Batch>)
        ensures
            match got {
                Some(batch) => parse_batch(bytes@) == Some(batch@),
                None => parse_batch(bytes@) is None,
            },
    {
        if bytes.len() < 64 {
            return None;
        }
        let prev_root = Digest::from_array(array_at(bytes, 0));
        let new_root = Digest::from_array(array_at(bytes, 32));
        let (n, start) = match take_len(bytes, 64) {
            Some(pair) => pair,
            None => {
                return None;
            },
        };
        if n > (bytes.len() - start) as u64 {
            proof {
                if parse_proofs(bytes@, start as int, n as nat) is Some {
                    lemma_parse_proofs_advances(bytes@, start as int, n as nat);
                }
            }
            return None;
        }
        let count = n as usize;
        let mut proofs: Vec<Proof> = Vec::new();
        let mut at: usize = start;
        let mut i: usize = 0;
        while i < count
            invariant
                i <= count,
                at <= bytes@.len(),
                64 <= bytes@.len(),
                parse_len(bytes@, 64) == Some((count as nat, start as int)),
                parse_proofs(bytes@, start as int, i as nat) == Some(
                    (proof_views(proofs@), at as int),
                ),
            decreases count - i,
        {
            match Proof::read_at(bytes, at) {
                Some((made, next)) => {
                    proof {
                        lemma_parse_proofs_advances(bytes@, start as int, (i + 1) as nat);
                    }
                    proofs.push(made);
                    at = next;
                },
                None => {
                    proof {
                        if parse_proofs(bytes@, start as int, count as nat) is Some {
                            lemma_parse_proofs_prefix(
                                bytes@,
                                start as int,
                                (i + 1) as nat,
                                count as nat,
                            );
                        }
                    }
                    return None;
                },
            }
            i += 1;
        }
        if at != bytes.len() {
            return None;
        }
        Some(Batch { prev_root, new_root, proofs })
    }
}

/// Whether `bytes` holds `part` at `at`.
pub open spec fn holds_at(bytes: Seq<u8>, at: int, part: Seq<u8>) -> bool {
    &&& 0 <= at
    &&& at + part.len() <= bytes.len()
    &&& bytes.subrange(at, at + part.len()) == part
}

/// Bytes that hold two parts in a row hold the first, and the second behind it.
proof fn lemma_holds_both(bytes: Seq<u8>, at: int, first: Seq<u8>, second: Seq<u8>)
    requires
        holds_at(bytes, at, first + second),
    ensures
        holds_at(bytes, at, first),
        holds_at(bytes, at + first.len(), second),
{
    let whole = first + second;
    let held = bytes.subrange(at, at + whole.len());
    assert forall|j: int| 0 <= j < first.len() implies bytes[at + j] == first[j] by {
        assert(held[j] == whole[j]);
    }
    assert forall|j: int| 0 <= j < second.len() implies bytes[at + first.len() + j]
        == second[j] by {
        assert(held[first.len() + j] == whole[first.len() + j]);
    }
    assert(bytes.subrange(at, at + first.len()) =~= first);
    assert(bytes.subrange(at + first.len(), at + first.len() + second.len()) =~= second);
}

/// A number that was written is read back.
proof fn lemma_read_len(bytes: Seq<u8>, at: int, n: nat)
    requires
        n <= u64::MAX,
        holds_at(bytes, at, encode_len(n)),
    ensures
        encode_len(n).len() == 8,
        parse_len(bytes, at) == Some((n, at + 8)),
{
    lemma_auto_spec_u64_to_from_le_bytes();
}

/// A byte string that was written is read back.
proof fn lemma_read_bytes(bytes: Seq<u8>, at: int, held: Seq<u8>)
    requires
        held.len() <= u64::MAX,
        holds_at(bytes, at, encode_bytes(held)),
    ensures
        encode_bytes(held).len() == 8 + held.len(),
        parse_bytes(bytes, at) == Some((held, at + 8 + held.len())),
{
    lemma_auto_spec_u64_to_from_le_bytes();
    lemma_holds_both(bytes, at, encode_len(held.len()), held);
    lemma_read_len(bytes, at, held.len());
}

/// A list of digests that was written is read back.
proof fn lemma_read_digests(bytes: Seq<u8>, at: int, digests: Seq<Seq<u8>>)
    requires
        digests.len() <= u64::MAX,
        all_digest_wide(digests),
        holds_at(bytes, at, encode_digests(digests)),
    ensures
        encode_digests(digests).len() == 8 + 32 * digests.len(),
        parse_digests(bytes, at) == Some((digests, at + 8 + 32 * digests.len())),
{
    lemma_auto_spec_u64_to_from_le_bytes();
    lemma_holds_both(bytes, at, encode_len(digests.len()), flatten(digests));
    lemma_read_len(bytes, at, digests.len());
    let next = at + 8;
    let flat = flatten(digests);
    let held = bytes.subrange(next, next + flat.len());
    let read = Seq::new(digests.len(), |i: int| bytes.subrange(next + 32 * i, next + 32 * i + 32));
    assert forall|i: int| 0 <= i < digests.len() implies read[i] == digests[i] by {
        assert forall|k: int| 0 <= k < 32 implies bytes[next + 32 * i + k] == digests[i][k] by {
            let j = 32 * i + k;
            assert(j / 32 == i && j % 32 == k);
            assert(held[j] == flat[j]);
        }
        assert(read[i] =~= digests[i]);
    }
    assert(read =~= digests);
}

/// The fields of an insertion proof that were written are read back.
proof fn lemma_read_insert(bytes: Seq<u8>, at: int, insertion: InsertProofView)
    requires
        insertion.wf(),
        holds_at(bytes, at, insert_fields(insertion)),
    ensures
        parse_insert(bytes, at) == Some((insertion, at + insert_fields(insertion).len())),
{
    let tail3 = encode_bytes(insertion.value) + encode_digests(insertion.siblings);
    let tail2 = insertion.new_root + tail3;
    let tail1 = insertion.prior_root + tail2;
    lemma_holds_both(bytes, at, insertion.key, tail1);
    lemma_holds_both(bytes, at + 32, insertion.prior_root, tail2);
    lemma_holds_both(bytes, at + 64, insertion.new_root, tail3);
    lemma_holds_both(
        bytes,
        at + 96,
        encode_bytes(insertion.value),
        encode_digests(insertion.siblings),
    );
    lemma_read_bytes(bytes, at + 96, insertion.value);
    lemma_read_digests(bytes, at + 104 + insertion.value.len(), insertion.siblings);
}

/// The fields of an update proof that were written are read back.
proof fn lemma_read_update(bytes: Seq<u8>, at: int, update: UpdateProofView)
    requires
        update.wf(),
        holds_at(bytes, at, update_fields(update)),
    ensures
        parse_update(bytes, at) == Some((update, at + update_fields(update).len())),
{
    let tail6 = encode_bytes(update.new_value) + encode_digests(update.siblings);
    let tail5 = encode_bytes(update.old_value) + tail6;
    let tail4 = update.leaf_value_digest + tail5;
    let tail3 = update.leaf_key + tail4;
    let tail2 = update.new_root + tail3;
    let tail1 = update.prior_root + tail2;
    lemma_holds_both(bytes, at, update.key, tail1);
    lemma_holds_both(bytes, at + 32, update.prior_root, tail2);
    lemma_holds_both(bytes, at + 64, update.new_root, tail3);
    lemma_holds_both(bytes, at + 96, update.leaf_key, tail4);
    lemma_holds_both(bytes, at + 128, update.leaf_value_digest, tail5);
    lemma_holds_both(bytes, at + 160, encode_bytes(update.old_value), tail6);
    lemma_read_bytes(bytes, at + 160, update.old_value);
    let next = at + 168 + update.old_value.len();
    lemma_holds_both(
        bytes,
        next,
        encode_bytes(update.new_value),
        encode_digests(update.siblings),
    );
    lemma_read_bytes(bytes, next, update.new_value);
    lemma_read_digests(bytes, next + 8 + update.new_value.len(), update.siblings);
}

/// A proof that was written is read back.
proof fn lemma_read_proof(bytes: Seq<u8>, at: int, evidence: ProofView)
    requires
        evidence.wf(),
        holds_at(bytes, at, encode_proof(evidence)),
    ensures
        parse_proof(bytes, at) == Some((evidence, at + encode_proof(evidence).len())),
{
    match evidence {
        ProofView::Insert(insertion) => {
            lemma_holds_both(bytes, at, seq![0u8], insert_fields(insertion));
            assert(bytes.subrange(at, at + 1)[0] == 0u8);
            lemma_read_insert(bytes, at + 1, insertion);
        },
        ProofView::Update(update) => {
            lemma_holds_both(bytes, at, seq![1u8], update_fields(update));
            assert(bytes.subrange(at, at + 1)[0] == 1u8);
            lemma_read_update(bytes, at + 1, update);
        },
    }
}

/// Proofs that were written are read back.
proof fn lemma_read_proofs(bytes: Seq<u8>, at: int, proofs: Seq<ProofView>)
    requires
        forall|i: int| 0 <= i < proofs.len() ==> (#[trigger] proofs[i]).wf(),
        holds_at(bytes, at, encode_proofs(proofs)),
    ensures
        parse_proofs(bytes, at, proofs.len()) == Some(
            (proofs, at + encode_proofs(proofs).len()),
        ),
    decreases proofs.len(),
{
    if proofs.len() > 0 {
        let front = proofs.drop_last();
        lemma_holds_both(bytes, at, encode_proofs(front), encode_proof(proofs.last()));
        lemma_read_proofs(bytes, at, front);
        lemma_read_proof(bytes, at + encode_proofs(front).len(), proofs.last());
    }
}

/// A batch that was written is read back: reading is the inverse of writing.
pub proof fn lemma_batch_round_trip(batch: BatchView)
    requires
        batch.wf(),
    ensures
        parse_batch(encode_batch(batch)) == Some(batch),
{
    let bytes = encode_batch(batch);
    let tail2 = encode_len(batch.proofs.len()) + encode_proofs(batch.proofs);
    let tail1 = batch.new_root + tail2;
    assert(bytes.subrange(0, bytes.len() as int) =~= bytes);
    lemma_holds_both(bytes, 0, batch.prev_root, tail1);
    lemma_holds_both(bytes, 32, batch.new_root, tail2);
    lemma_holds_both(bytes, 64, encode_len(batch.proofs.len()), encode_proofs(batch.proofs));
    lemma_read_len(bytes, 64, batch.proofs.len());
    lemma_read_proofs(bytes, 72, batch.proofs);
}

/// A stretch of bytes is its first part followed by its second.
proof fn lemma_stretch_in_two(bytes: Seq<u8>, from: int, mid: int, to: int)
    requires
        0 <= from <= mid <= to <= bytes.len(),
    ensures
        bytes.subrange(from, to) == bytes.subrange(from, mid) + bytes.subrange(mid, to),
{
    assert(bytes.subrange(from, to) =~= bytes.subrange(from, mid) + bytes.subrange(mid, to));
}

/// A number that is read stands written where it was read.
proof fn lemma_len_as_written(bytes: Seq<u8>, at: int)
    requires
        parse_len(bytes, at) is Some,
    ensures
        parse_len(bytes, at)->Some_0.0 <= u64::MAX,
        bytes.subrange(at, at + 8) == encode_len(parse_len(bytes, at)->Some_0.0),
{
    lemma_auto_spec_u64_to_from_le_bytes();
}

/// A byte string that is read stands written where it was read.
proof fn lemma_bytes_as_written(bytes: Seq<u8>, at: int)
    requires
        parse_bytes(bytes, at) is Some,
    ensures
        parse_bytes(bytes, at)->Some_0.0.len() <= u64::MAX,
        at + 8 <= parse_bytes(bytes, at)->Some_0.1 <= bytes.len(),
        bytes.subrange(at, parse_bytes(bytes, at)->Some_0.1) == encode_bytes(
            parse_bytes(bytes, at)->Some_0.0,
        ),
{
    lemma_len_as_written(bytes, at);
    lemma_stretch_in_two(bytes, at, at + 8, parse_bytes(bytes, at)->Some_0.1);
}

/// A list of digests that is read stands written where it was read.
proof fn lemma_digests_as_written(bytes: Seq<u8>, at: int)
    requires
        parse_digests(bytes, at) is Some,
    ensures
        parse_digests(bytes, at)->Some_0.0.len() <= u64::MAX,
        all_digest_wide(parse_digests(bytes, at)->Some_0.0),
        at + 8 <= parse_digests(bytes, at)->Some_0.1 <= bytes.len(),
        bytes.subrange(at, parse_digests(bytes, at)->Some_0.1) == encode_digests(
            parse_digests(bytes, at)->Some_0.0,
        ),
{
    lemma_len_as_written(bytes, at);
    let (digests, end) = parse_digests(bytes, at)->Some_0;
    let next = at + 8;
    let flat = flatten(digests);
    let held = bytes.subrange(next, end);
    assert forall|j: int| 0 <= j < flat.len() implies flat[j] == held[j] by {
        let i = j / 32;
        let k = j % 32;
        assert(digests[i] == bytes.subrange(next + 32 * i, next + 32 * i + 32));
        assert(digests[i][k] == bytes[next + 32 * i + k]);
    }
    assert(flat =~= held);
    lemma_stretch_in_two(bytes, at, next, end);
}

/// The fields of an insertion proof that are read stand written there.
proof fn lemma_insert_as_written(bytes: Seq<u8>, at: int)
    requires
        parse_insert(bytes, at) is Some,
    ensures
        parse_insert(bytes, at)->Some_0.0.wf(),
        at <= parse_insert(bytes, at)->Some_0.1 <= bytes.len(),
        bytes.subrange(at, parse_insert(bytes, at)->Some_0.1) == insert_fields(
            parse_insert(bytes, at)->Some_0.0,
        ),
{
    let (insertion, end) = parse_insert(bytes, at)->Some_0;
    let next = parse_bytes(bytes, at + 96)->Some_0.1;
    lemma_bytes_as_written(bytes, at + 96);
    lemma_digests_as_written(bytes, next);
    lemma_stretch_in_two(bytes, at + 96, next, end);
    lemma_stretch_in_two(bytes, at + 64, at + 96, end);
    lemma_stretch_in_two(bytes, at + 32, at + 64, end);
    lemma_stretch_in_two(bytes, at, at + 32, end);
}

/// The fields of an update proof that are read stand written there.
proof fn lemma_update_as_written(bytes: Seq<u8>, at: int)
    requires
        parse_update(bytes, at) is Some,
    ensures
        parse_update(bytes, at)->Some_0.0.wf(),
        at <= parse_update(bytes, at)->Some_0.1 <= bytes.len(),
        bytes.subrange(at, parse_update(bytes, at)->Some_0.1) == update_fields(
            parse_update(bytes, at)->Some_0.0,
        ),
{
    let (update, end) = parse_update(bytes, at)->Some_0;
    let next = parse_bytes(bytes, at + 160)->Some_0.1;
    let after = parse_bytes(bytes, next)->Some_0.1;
    lemma_bytes_as_written(bytes, at + 160);
    lemma_bytes_as_written(bytes, next);
    lemma_digests_as_written(bytes, after);
    lemma_stretch_in_two(bytes, next, after, end);
    lemma_stretch_in_two(bytes, at + 160, next, end);
    lemma_stretch_in_two(bytes, at + 128, at + 160, end);
    lemma_stretch_in_two(bytes, at + 96, at + 128, end);
    lemma_stretch_in_two(bytes, at + 64, at + 96, end);
    lemma_stretch_in_two(bytes, at + 32, at + 64, end);
    lemma_stretch_in_two(bytes, at, at + 32, end);
}

/// A proof that is read stands written where it was read.
proof fn lemma_proof_as_written(bytes: Seq<u8>, at: int)
    requires
        parse_proof(bytes, at) is Some,
    ensures
        parse_proof(bytes, at)->Some_0.0.wf(),
        at < parse_proof(bytes, at)->Some_0.1 <= bytes.len(),
        bytes.subrange(at, parse_proof(bytes, at)->Some_0.1) == encode_proof(
            parse_proof(bytes, at)->Some_0.0,
        ),
{
    let end = parse_proof(bytes, at)->Some_0.1;
    if bytes[at] == 0u8 {
        lemma_insert_as_written(bytes, at + 1);
        assert(bytes.subrange(at, at + 1) =~= seq![0u8]);
    } else {
        lemma_update_as_written(bytes, at + 1);
        assert(bytes.subrange(at, at + 1) =~= seq![1u8]);
    }
    lemma_stretch_in_two(bytes, at, at + 1, end);
}

/// Proofs that are read stand written where they were read.
proof fn lemma_proofs_as_written(bytes: Seq<u8>, at: int, count: nat)
    requires
        0 <= at <= bytes.len(),
        parse_proofs(bytes, at, count) is Some,
    ensures
        forall|i: int|
            0 <= i < count ==> (#[trigger] parse_proofs(bytes, at, count)->Some_0.0[i]).wf(),
        parse_proofs(bytes, at, count)->Some_0.0.len() == count,
        at <= parse_proofs(bytes, at, count)->Some_0.1 <= bytes.len(),
        bytes.subrange(at, parse_proofs(bytes, at, count)->Some_0.1) == encode_proofs(
            parse_proofs(bytes, at, count)->Some_0.0,
        ),
    decreases count,
{
    let (proofs, end) = parse_proofs(bytes, at, count)->Some_0;
    if count == 0 {
        assert(bytes.subrange(at, at) =~= Seq::<u8>::empty());
    } else {
        let (front, mid) = parse_proofs(bytes, at, (count - 1) as nat)->Some_0;
        lemma_proofs_as_written(bytes, at, (count - 1) as nat);
        lemma_proof_as_written(bytes, mid);
        lemma_stretch_in_two(bytes, at, mid, end);
        assert(proofs.drop_last() =~= front);
    }
}

/// A batch that is read stands written in the bytes it was read from:
/// writing is the inverse of reading.
pub proof fn lemma_batch_as_written(bytes: Seq<u8>)
    requires
        parse_batch(bytes) is Some,
    ensures
        parse_batch(bytes)->Some_0.wf(),
        encode_batch(parse_batch(bytes)->Some_0) == bytes,
{
    let count = parse_len(bytes, 64)->Some_0.0;
    lemma_len_as_written(bytes, 64);
    lemma_proofs_as_written(bytes, 72, count);
    lemma_stretch_in_two(bytes, 64, 72, bytes.len() as int);
    lemma_stretch_in_two(bytes, 32, 64, bytes.len() as int);
    lemma_stretch_in_two(bytes, 0, 32, bytes.len() as int);
    assert(bytes.subrange(0, bytes.len() as int) =~= bytes);
}

impl Batch {
    /// Reads a batch from the bytes that `to_bytes` writes: the one batch
    /// that is written as these bytes. Returns `None` for bytes that no
    /// batch is written as: too short, with an unknown tag, with a length
    /// that runs past the end, or with anything after the last proof.
    pub fn from_bytes(bytes: &[u8]) -> (got: Option<Batch>)
        ensures
            match got {
                Some(batch) => parse_batch(bytes@) == Some(batch@) && encode_batch(batch@)
                    == bytes@,
                None => parse_batch(bytes@) is None && forall|batch: BatchView|
                    batch.wf() ==> #[trigger] encode_batch(batch) != bytes@,
            },
    {
        proof {
            if parse_batch(bytes@) is Some {
                lemma_batch_as_written(bytes@);
            } else {
                assert forall|batch: BatchView| batch.wf() implies #[trigger] encode_batch(batch)
                    != bytes@ by {
                    lemma_batch_round_trip(batch);
                }
            }
        }
        Batch::read(bytes)
    }

    /// Every batch, as plain values, is one that can be written.
    pub proof fn lemma_view_wf(self)
        ensures
            self@.wf(),
    {
        broadcast use Digest::lemma_width;

        assert forall|i: int| 0 <= i < self@.proofs.len() implies (#[trigger] self@.proofs[
            i
        ]).wf() by {
            let held = self.proofs@[i];
            match held {
                Proof::Insert(insertion) => {
                    assert(insertion.value.len() == insertion.value@.len());
                    assert(insertion.siblings.len() == insertion.siblings@.len());
                },
                Proof::Update(update) => {
                    assert(update.old_value.len() == update.old_value@.len());
                    assert(update.new_value.len() == update.new_value@.len());
                    assert(update.siblings.len() == update.siblings@.len());
                },
            }
        }
        assert(self.proofs.len() == self.proofs@.len());
    }
}

} // verus!
