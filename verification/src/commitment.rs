//! What the root digest of a mapping is, as mathematics: the commitment of a
//! map, the witness for a key, and the digest that a witness folds up to.

use vstd::prelude::*;
use crate::digest::{sha256, vacant_bytes};
use crate::path::{
    key_bit, lemma_full_prefix_names_one_key, lemma_own_path, lemma_under_child, lies_under,
    path_prefix, sibling_prefix,
};

verus! {

/// The mapping that a tree commits to: keys and values as byte strings.
pub type Contents = Map<Seq<u8>, Seq<u8>>;

/// The bytes hashed for a leaf: a zero byte, the key, the digest of the value.
pub open spec fn leaf_preimage(key: Seq<u8>, value_digest: Seq<u8>) -> Seq<u8> {
    seq![0u8] + key + value_digest
}

/// The digest of the leaf that holds `value_digest` for `key`.
pub open spec fn leaf_from_value_digest(key: Seq<u8>, value_digest: Seq<u8>) -> Seq<u8> {
    sha256(leaf_preimage(key, value_digest))
}

/// The digest of the leaf that holds `value` for `key`.
pub open spec fn leaf_digest(key: Seq<u8>, value: Seq<u8>) -> Seq<u8> {
    leaf_from_value_digest(key, sha256(value))
}

/// The bytes hashed for an inner node: a one byte, the left child, the right.
pub open spec fn node_preimage(left: Seq<u8>, right: Seq<u8>) -> Seq<u8> {
    seq![1u8] + left + right
}

/// The digest of a subtree from the digests of its two halves. A subtree
/// with two vacant halves is itself vacant.
pub open spec fn combine(left: Seq<u8>, right: Seq<u8>) -> Seq<u8> {
    if left == vacant_bytes() && right == vacant_bytes() {
        vacant_bytes()
    } else {
        sha256(node_preimage(left, right))
    }
}

/// The digest of a step on a path: what lies below joined with what hangs
/// beside it, on the side that the turn gives.
pub open spec fn join(turn: bool, below: Seq<u8>, beside: Seq<u8>) -> Seq<u8> {
    if turn {
        combine(beside, below)
    } else {
        combine(below, beside)
    }
}

/// Whether `contents` holds a key under `prefix`.
pub open spec fn occupied(contents: Contents, prefix: Seq<bool>) -> bool {
    exists|key: Seq<u8>| #[trigger] contents.dom().contains(key) && lies_under(key, prefix)
}

/// The key of `contents` under `prefix`, where there is one.
pub open spec fn occupant(contents: Contents, prefix: Seq<bool>) -> Seq<u8> {
    choose|key: Seq<u8>| #[trigger] contents.dom().contains(key) && lies_under(key, prefix)
}

/// The digest of the subtree at `prefix`: of all that `contents` holds under it.
pub open spec fn subtree_commitment(contents: Contents, prefix: Seq<bool>) -> Seq<u8>
    decreases 256 - prefix.len(),
{
    if prefix.len() >= 256 {
        if occupied(contents, prefix) {
            let key = occupant(contents, prefix);
            leaf_digest(key, contents[key])
        } else {
            vacant_bytes()
        }
    } else {
        combine(
            subtree_commitment(contents, prefix.push(false)),
            subtree_commitment(contents, prefix.push(true)),
        )
    }
}

/// The root digest: the commitment to the whole mapping.
pub open spec fn commitment(contents: Contents) -> Seq<u8> {
    subtree_commitment(contents, Seq::<bool>::empty())
}

/// The digest at the end of the path to `key`: its leaf, or vacant.
pub open spec fn entry_digest(contents: Contents, key: Seq<u8>) -> Seq<u8> {
    if contents.dom().contains(key) {
        leaf_digest(key, contents[key])
    } else {
        vacant_bytes()
    }
}

/// The witness for `key`: the digests of the 256 subtrees that hang beside
/// its path, the one next to the root first.
pub open spec fn witness_of(contents: Contents, key: Seq<u8>) -> Seq<Seq<u8>> {
    Seq::new(256, |i: int| subtree_commitment(contents, sibling_prefix(key, i)))
}

/// The digest of the subtree at `depth` on the path to `key`, folded up from
/// the digest `leaf` at the end of the path and the digests beside it.
pub open spec fn path_digest(
    leaf: Seq<u8>,
    key: Seq<u8>,
    siblings: Seq<Seq<u8>>,
    depth: int,
) -> Seq<u8>
    decreases 256 - depth,
{
    if depth < 0 || depth >= 256 {
        leaf
    } else {
        join(key_bit(key, depth), path_digest(leaf, key, siblings, depth + 1), siblings[depth])
    }
}

/// Whether two mappings hold the same under `prefix`.
pub open spec fn agree_under(a: Contents, b: Contents, prefix: Seq<bool>) -> bool {
    forall|key: Seq<u8>| #[trigger]
        lies_under(key, prefix) ==> {
            &&& a.dom().contains(key) == b.dom().contains(key)
            &&& a.dom().contains(key) ==> a[key] == b[key]
        }
}

/// A subtree's digest depends only on what the mapping holds under its prefix.
pub proof fn lemma_commitment_is_local(a: Contents, b: Contents, prefix: Seq<bool>)
    requires
        agree_under(a, b, prefix),
    ensures
        subtree_commitment(a, prefix) == subtree_commitment(b, prefix),
    decreases 256 - prefix.len(),
{
    if prefix.len() >= 256 {
        if occupied(a, prefix) {
            lemma_full_prefix_names_one_key(occupant(a, prefix), occupant(b, prefix), prefix);
        } else if occupied(b, prefix) {
            assert(a.dom().contains(occupant(b, prefix)));
        }
    } else {
        assert forall|turn: bool| agree_under(a, b, #[trigger] prefix.push(turn)) by {
            assert forall|key: Seq<u8>| #[trigger]
                lies_under(key, prefix.push(turn)) implies {
                &&& a.dom().contains(key) == b.dom().contains(key)
                &&& a.dom().contains(key) ==> a[key] == b[key]
            } by {
                lemma_under_child(key, prefix, turn);
            }
        }
        lemma_commitment_is_local(a, b, prefix.push(false));
        lemma_commitment_is_local(a, b, prefix.push(true));
    }
}

/// A subtree under which the mapping holds nothing is vacant.
pub proof fn lemma_unoccupied_is_vacant(contents: Contents, prefix: Seq<bool>)
    requires
        !occupied(contents, prefix),
    ensures
        subtree_commitment(contents, prefix) == vacant_bytes(),
    decreases 256 - prefix.len(),
{
    if prefix.len() < 256 {
        assert forall|turn: bool| !occupied(contents, #[trigger] prefix.push(turn)) by {
            if occupied(contents, prefix.push(turn)) {
                let key = occupant(contents, prefix.push(turn));
                lemma_under_child(key, prefix, turn);
            }
        }
        lemma_unoccupied_is_vacant(contents, prefix.push(false));
        lemma_unoccupied_is_vacant(contents, prefix.push(true));
    }
}

/// At the end of a key's path stands its leaf, or nothing.
pub proof fn lemma_commitment_at_leaf(contents: Contents, key: Seq<u8>)
    requires
        key.len() == 32,
    ensures
        subtree_commitment(contents, path_prefix(key, 256)) == entry_digest(contents, key),
{
    let prefix = path_prefix(key, 256);
    lemma_own_path(key, 256);
    if contents.dom().contains(key) || occupied(contents, prefix) {
        lemma_full_prefix_names_one_key(occupant(contents, prefix), key, prefix);
    }
}

/// Folding the witness of a key up from its entry gives, at every depth, the
/// digest of the subtree on its path.
pub proof fn lemma_witness_folds_to_subtree(contents: Contents, key: Seq<u8>, depth: int)
    requires
        key.len() == 32,
        0 <= depth <= 256,
    ensures
        path_digest(entry_digest(contents, key), key, witness_of(contents, key), depth)
            == subtree_commitment(contents, path_prefix(key, depth)),
    decreases 256 - depth,
{
    if depth == 256 {
        lemma_commitment_at_leaf(contents, key);
    } else {
        lemma_witness_folds_to_subtree(contents, key, depth + 1);
        lemma_own_path(key, depth);
        assert(witness_of(contents, key)[depth] == subtree_commitment(
            contents,
            sibling_prefix(key, depth),
        ));
    }
}

/// Folding the witness of a key up from its entry gives the commitment.
pub proof fn lemma_witness_folds_to_commitment(contents: Contents, key: Seq<u8>)
    requires
        key.len() == 32,
    ensures
        path_digest(entry_digest(contents, key), key, witness_of(contents, key), 0) == commitment(
            contents,
        ),
{
    lemma_witness_folds_to_subtree(contents, key, 0);
    assert(path_prefix(key, 0) =~= Seq::<bool>::empty());
}

/// Writing a value for a key leaves the witness of that key as it was.
pub proof fn lemma_witness_outlasts_write(contents: Contents, key: Seq<u8>, value: Seq<u8>)
    requires
        key.len() == 32,
    ensures
        witness_of(contents.insert(key, value), key) == witness_of(contents, key),
{
    let after = contents.insert(key, value);
    assert forall|i: int| 0 <= i < 256 implies witness_of(after, key)[i] == witness_of(
        contents,
        key,
    )[i] by {
        lemma_own_path(key, i);
        lemma_commitment_is_local(after, contents, sibling_prefix(key, i));
    }
}

/// The heart of every transition proof: the witness taken before a write
/// folds up from the old entry to the old commitment and from the new leaf to
/// the new commitment.
pub proof fn lemma_write_moves_commitment(contents: Contents, key: Seq<u8>, value: Seq<u8>)
    requires
        key.len() == 32,
    ensures
        path_digest(entry_digest(contents, key), key, witness_of(contents, key), 0) == commitment(
            contents,
        ),
        path_digest(leaf_digest(key, value), key, witness_of(contents, key), 0) == commitment(
            contents.insert(key, value),
        ),
{
    lemma_witness_folds_to_commitment(contents, key);
    lemma_witness_folds_to_commitment(contents.insert(key, value), key);
    lemma_witness_outlasts_write(contents, key, value);
}

/// The commitment to the mapping that holds nothing is the vacant digest.
pub proof fn lemma_empty_commitment()
    ensures
        commitment(Map::<Seq<u8>, Seq<u8>>::empty()) == vacant_bytes(),
{
    lemma_unoccupied_is_vacant(Map::<Seq<u8>, Seq<u8>>::empty(), Seq::<bool>::empty());
}

} // verus!
