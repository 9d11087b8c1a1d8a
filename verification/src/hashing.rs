//! The executable side of the commitment: hashing leaves, joining halves and
//! folding a witness up along the path to a key.

use vstd::prelude::*;
use crate::commitment::{
    combine, join, leaf_digest, leaf_from_value_digest, leaf_preimage, node_preimage, path_digest,
};
use crate::digest::Digest;
use crate::path::{key_bit, Key};

verus! {

/// The digests of a sequence, each as its bytes.
pub open spec fn digest_views(digests: Seq<Digest>) -> Seq<Seq<u8>> {
    Seq::new(digests.len(), |i: int| digests[i]@)
}

/// Whether two byte strings are the same.
pub fn same_bytes(a: &[u8], b: &[u8]) -> (same: bool)
    ensures
        same == (a@ == b@),
{
    if a.len() != b.len() {
        return false;
    }
    let mut i: usize = 0;
    while i < a.len()
        invariant
            i <= a@.len(),
            a@.len() == b@.len(),
            forall|j: int| 0 <= j < i ==> a@[j] == b@[j],
        decreases a@.len() - i,
    {
        if a[i] != b[i] {
            return false;
        }
        i += 1;
    }
    assert(a@ =~= b@);
    true
}

/// Bit `i` of `key`, the turn that its path takes at depth `i`.
pub fn bit_at(key: &Key, i: usize) -> (turn: bool)
    requires
        i < 256,
    ensures
        turn == key_bit(key@, i as int),
{
    let byte: u8 = key[i / 8];
    let j: u8 = (i % 8) as u8;
    (byte >> (7u8 - j)) & 1u8 == 1u8
}

/// The digest of the leaf for `key` from the digest of its value.
pub fn hash_leaf(key: &Key, value_digest: &Digest) -> (made: Digest)
    ensures
        made@ == leaf_from_value_digest(key@, value_digest@),
{
    let mut preimage: Vec<u8> = Vec::with_capacity(65);
    preimage.push(0u8);
    preimage.extend_from_slice(key.as_slice());
    preimage.extend_from_slice(value_digest.as_bytes());
    assert(preimage@ =~= leaf_preimage(key@, value_digest@));
    Digest::hash(preimage.as_slice())
}

/// The digest of the leaf that holds `value` for `key`.
pub fn hash_entry(key: &Key, value: &[u8]) -> (made: Digest)
    ensures
        made@ == leaf_digest(key@, value@),
{
    let value_digest = Digest::hash(value);
    hash_leaf(key, &value_digest)
}

/// The digest of a subtree from the digests of its halves.
pub fn combine_digests(left: &Digest, right: &Digest) -> (made: Digest)
    ensures
        made@ == combine(left@, right@),
{
    if left.is_vacant() && right.is_vacant() {
        return Digest::vacant();
    }
    let mut preimage: Vec<u8> = Vec::with_capacity(65);
    preimage.push(1u8);
    preimage.extend_from_slice(left.as_bytes());
    preimage.extend_from_slice(right.as_bytes());
    assert(preimage@ =~= node_preimage(left@, right@));
    Digest::hash(preimage.as_slice())
}

/// Folds a witness up from `leaf` along the path to `key`: the root that the
/// witness implies for a tree with `leaf` at the end of that path.
pub fn fold_path(leaf: Digest, key: &Key, siblings: &Vec<Digest>) -> (root: Digest)
    requires
        siblings@.len() == 256,
    ensures
        root@ == path_digest(leaf@, key@, digest_views(siblings@), 0),
{
    let mut below = leaf;
    let mut depth: usize = 256;
    while depth > 0
        invariant
            depth <= 256,
            siblings@.len() == 256,
            below@ == path_digest(leaf@, key@, digest_views(siblings@), depth as int),
        decreases depth,
    {
        depth -= 1;
        let turn = bit_at(key, depth);
        let beside = &siblings[depth];
        below =
        if turn {
            combine_digests(beside, &below)
        } else {
            combine_digests(&below, beside)
        };
        assert(below@ == join(
            key_bit(key@, depth as int),
            path_digest(leaf@, key@, digest_views(siblings@), depth + 1),
            digest_views(siblings@)[depth as int],
        ));
    }
    below
}

} // verus!
