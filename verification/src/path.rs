//! How a key selects its place in the tree: bit by bit, from the first bit of
//! its first byte to the last bit of its last.

use vstd::prelude::*;

verus! {

/// A key of the dictionary: a fixed-size identifier of 32 bytes.
pub type Key = [u8; 32];

/// Bit `j` of a byte, counted from the most significant.
pub open spec fn byte_bit(byte: u8, j: u8) -> bool {
    (byte >> (7u8 - j) as u8) & 1u8 == 1u8
}

/// Bit `i` of a key: `false` sends the path left, `true` right.
pub open spec fn key_bit(key: Seq<u8>, i: int) -> bool {
    byte_bit(key[i / 8], (i % 8) as u8)
}

/// The first `depth` turns of the path to `key`.
pub open spec fn path_prefix(key: Seq<u8>, depth: int) -> Seq<bool> {
    Seq::new(depth as nat, |i: int| key_bit(key, i))
}

/// The subtree that hangs beside the path to `key` at `depth`: it shares the
/// first `depth` turns and takes the other one next.
pub open spec fn sibling_prefix(key: Seq<u8>, depth: int) -> Seq<bool> {
    path_prefix(key, depth).push(!key_bit(key, depth))
}

/// Whether `key` is a well-formed key whose path starts with `prefix`.
pub open spec fn lies_under(key: Seq<u8>, prefix: Seq<bool>) -> bool {
    &&& key.len() == 32
    &&& prefix.len() <= 256
    &&& forall|i: int| 0 <= i < prefix.len() ==> key_bit(key, i) == #[trigger] prefix[i]
}

/// A byte is determined by its eight bits.
pub proof fn lemma_byte_by_bits(a: u8, b: u8)
    requires
        forall|j: u8| j < 8 ==> byte_bit(a, j) == byte_bit(b, j),
    ensures
        a == b,
{
    assert(byte_bit(a, 0) == byte_bit(b, 0));
    assert(byte_bit(a, 1) == byte_bit(b, 1));
    assert(byte_bit(a, 2) == byte_bit(b, 2));
    assert(byte_bit(a, 3) == byte_bit(b, 3));
    assert(byte_bit(a, 4) == byte_bit(b, 4));
    assert(byte_bit(a, 5) == byte_bit(b, 5));
    assert(byte_bit(a, 6) == byte_bit(b, 6));
    assert(byte_bit(a, 7) == byte_bit(b, 7));
    assert(a == b) by (bit_vector)
        requires
            ((a >> (7u8 - 0u8) as u8) & 1u8 == 1u8) == ((b >> (7u8 - 0u8) as u8) & 1u8 == 1u8),
            ((a >> (7u8 - 1u8) as u8) & 1u8 == 1u8) == ((b >> (7u8 - 1u8) as u8) & 1u8 == 1u8),
            ((a >> (7u8 - 2u8) as u8) & 1u8 == 1u8) == ((b >> (7u8 - 2u8) as u8) & 1u8 == 1u8),
            ((a >> (7u8 - 3u8) as u8) & 1u8 == 1u8) == ((b >> (7u8 - 3u8) as u8) & 1u8 == 1u8),
            ((a >> (7u8 - 4u8) as u8) & 1u8 == 1u8) == ((b >> (7u8 - 4u8) as u8) & 1u8 == 1u8),
            ((a >> (7u8 - 5u8) as u8) & 1u8 == 1u8) == ((b >> (7u8 - 5u8) as u8) & 1u8 == 1u8),
            ((a >> (7u8 - 6u8) as u8) & 1u8 == 1u8) == ((b >> (7u8 - 6u8) as u8) & 1u8 == 1u8),
            ((a >> (7u8 - 7u8) as u8) & 1u8 == 1u8) == ((b >> (7u8 - 7u8) as u8) & 1u8 == 1u8),
    ;
}

/// Two keys with the same 256 bits are the same key.
pub proof fn lemma_key_by_bits(a: Seq<u8>, b: Seq<u8>)
    requires
        a.len() == 32,
        b.len() == 32,
        forall|i: int| 0 <= i < 256 ==> key_bit(a, i) == key_bit(b, i),
    ensures
        a == b,
{
    assert forall|n: int| 0 <= n < 32 implies a[n] == b[n] by {
        assert forall|j: u8| j < 8 implies byte_bit(a[n], j) == byte_bit(b[n], j) by {
            let i = 8 * n + j as int;
            assert(key_bit(a, i) == key_bit(b, i));
        }
        lemma_byte_by_bits(a[n], b[n]);
    }
}

/// Two keys under the same full-length prefix are the same key.
pub proof fn lemma_full_prefix_names_one_key(a: Seq<u8>, b: Seq<u8>, prefix: Seq<bool>)
    requires
        prefix.len() == 256,
        lies_under(a, prefix),
        lies_under(b, prefix),
    ensures
        a == b,
{
    assert forall|i: int| 0 <= i < 256 implies key_bit(a, i) == key_bit(b, i) by {
        assert(key_bit(b, i) == prefix[i]);
    }
    lemma_key_by_bits(a, b);
}

/// A key lies under every prefix of its own path, and under none of the
/// subtrees beside it.
pub proof fn lemma_own_path(key: Seq<u8>, depth: int)
    requires
        key.len() == 32,
        0 <= depth <= 256,
    ensures
        lies_under(key, path_prefix(key, depth)),
        depth < 256 ==> !lies_under(key, sibling_prefix(key, depth)),
        depth < 256 ==> path_prefix(key, depth + 1) == path_prefix(key, depth).push(
            key_bit(key, depth),
        ),
{
    if depth < 256 {
        assert(sibling_prefix(key, depth)[depth] == !key_bit(key, depth));
    }
}

/// What lies under a longer prefix lies under the shorter one.
pub proof fn lemma_under_child(key: Seq<u8>, prefix: Seq<bool>, turn: bool)
    requires
        lies_under(key, prefix.push(turn)),
    ensures
        lies_under(key, prefix),
        key_bit(key, prefix.len() as int) == turn,
{
    let longer = prefix.push(turn);
    assert forall|i: int| 0 <= i < prefix.len() implies key_bit(key, i) == #[trigger] prefix[i] by {
        assert(longer[i] == prefix[i]);
    }
    assert(longer[prefix.len() as int] == turn);
}

} // verus!
