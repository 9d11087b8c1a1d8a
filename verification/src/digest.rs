//! The fixed-width hash value that commits to tree contents, and the two
//! outside functions it rests on: SHA-256 and lowercase hex encoding.

use vstd::prelude::*;
use crate::error::TreeError;

verus! {

/// SHA-256 of a byte string, as the `sha2` crate computes it.
pub uninterp spec fn sha256(data: Seq<u8>) -> Seq<u8>;

/// Calls `sha2::Sha256::digest` (the `Digest` trait's one-shot function) and
/// copies the 32 bytes it returns into an array. The contract only gives the
/// result its name: it is the SHA-256 hash of exactly the bytes passed in.
#[verifier::external_body]
fn sha256_bytes(data: &[u8]) -> (out: [u8; 32])
    ensures
        out@ == sha256(data@),
{
    <sha2::Sha256 as sha2::Digest>::digest(data).into()
}

/// The character for one hex digit, lowercase.
pub open spec fn hex_digit(nibble: u8) -> char {
    seq![
        '0', '1', '2', '3', '4', '5', '6', '7', '8', '9', 'a', 'b', 'c', 'd', 'e', 'f',
    ][nibble as int]
}

/// Lowercase hex of a byte string: two digits for each byte, high nibble first.
pub open spec fn lower_hex(bytes: Seq<u8>) -> Seq<char> {
    Seq::new(
        2 * bytes.len(),
        |i: int|
            if i % 2 == 0 {
                hex_digit(bytes[i / 2] >> 4)
            } else {
                hex_digit(bytes[i / 2] & 0x0f)
            },
    )
}

/// Calls `hex::encode`, which writes each byte as two characters taken from
/// the table `0123456789abcdef`, the high four bits first.
#[verifier::external_body]
fn hex_encode(bytes: &[u8]) -> (text: String)
    ensures
        text@ == lower_hex(bytes@),
{
    hex::encode(bytes)
}

/// Lowercase hex of any bytes, two digits for each.
pub fn encode_hex(bytes: &[u8]) -> (text: String)
    ensures
        text@ == lower_hex(bytes@),
{
    hex_encode(bytes)
}

/// A hex digit tells which nibble it stands for.
pub proof fn lemma_hex_digit_injective(a: u8, b: u8)
    requires
        a < 16,
        b < 16,
        hex_digit(a) == hex_digit(b),
    ensures
        a == b,
{
}

/// Hex text tells which bytes it stands for.
pub proof fn lemma_hex_injective(a: Seq<u8>, b: Seq<u8>)
    requires
        lower_hex(a) == lower_hex(b),
    ensures
        a == b,
{
    assert(lower_hex(a).len() == 2 * a.len());
    assert(lower_hex(b).len() == 2 * b.len());
    assert forall|i: int| 0 <= i < a.len() implies a[i] == b[i] by {
        let x = a[i];
        let y = b[i];
        assert(lower_hex(a)[2 * i] == hex_digit(x >> 4));
        assert(lower_hex(b)[2 * i] == hex_digit(y >> 4));
        assert(lower_hex(a)[2 * i + 1] == hex_digit(x & 0x0f));
        assert(lower_hex(b)[2 * i + 1] == hex_digit(y & 0x0f));
        assert(x >> 4 < 16 && y >> 4 < 16 && x & 0x0f < 16 && y & 0x0f < 16) by (bit_vector);
        lemma_hex_digit_injective(x >> 4, y >> 4);
        lemma_hex_digit_injective(x & 0x0f, y & 0x0f);
        assert(x == y) by (bit_vector)
            requires
                x >> 4 == y >> 4,
                x & 0x0f == y & 0x0f,
        ;
    }
}

/// A 32-byte hash value. It never changes once made and is freely copied.
#[derive(Clone, Copy, Debug, Eq)]
pub struct Digest {
    bytes: [u8; 32],
}

impl View for Digest {
    type V = Seq<u8>;

    closed spec fn view(&self) -> Seq<u8> {
        self.bytes@
    }
}

/// The digest that stands for "nothing here": thirty-two zero bytes.
pub open spec fn vacant_bytes() -> Seq<u8> {
    Seq::new(32, |i: int| 0u8)
}

impl Digest {
    /// Every digest is 32 bytes wide.
    pub broadcast proof fn lemma_width(self)
        ensures
            #[trigger] self@.len() == 32,
    {
    }

    /// Two digests with the same bytes are the same digest.
    pub proof fn lemma_view_injective(self, other: Digest)
        requires
            self@ == other@,
        ensures
            self == other,
    {
        assert(self.bytes =~= other.bytes);
    }

    /// Makes a digest from raw bytes, which must be exactly 32.
    pub fn new(bytes: &[u8]) -> (made: Result<Digest, TreeError>)
        ensures
            bytes@.len() == 32 ==> made is Ok && made->Ok_0@ == bytes@,
            bytes@.len() != 32 ==> made == Err::<Digest, TreeError>(TreeError::InvalidLength),
    {
        if bytes.len() != 32 {
            return Err(TreeError::InvalidLength);
        }
        let mut held: [u8; 32] = [0u8; 32];
        let mut i: usize = 0;
        while i < 32
            invariant
                i <= 32,
                bytes@.len() == 32,
                forall|j: int| 0 <= j < i ==> held@[j] == bytes@[j],
            decreases 32 - i,
        {
            held[i] = bytes[i];
            i += 1;
        }
        Ok(Digest { bytes: held })
    }

    /// Makes a digest from an array, which cannot have the wrong length.
    pub fn from_array(bytes: [u8; 32]) -> (made: Digest)
        ensures
            made@ == bytes@,
    {
        Digest { bytes }
    }

    /// The digest of thirty-two zero bytes, which stands for an empty subtree.
    pub fn vacant() -> (made: Digest)
        ensures
            made@ == vacant_bytes(),
    {
        Digest { bytes: [0u8; 32] }
    }

    /// The SHA-256 hash of `data`.
    pub fn hash(data: &[u8]) -> (made: Digest)
        ensures
            made@ == sha256(data@),
    {
        Digest { bytes: sha256_bytes(data) }
    }

    /// The 32 bytes.
    pub fn to_bytes(&self) -> (bytes: [u8; 32])
        ensures
            bytes@ == self@,
    {
        self.bytes
    }

    /// The 32 bytes, borrowed.
    pub fn as_bytes(&self) -> (bytes: &[u8])
        ensures
            bytes@ == self@,
    {
        self.bytes.as_slice()
    }

    /// Lowercase hex, 64 characters.
    pub fn to_hex(&self) -> (text: String)
        ensures
            text@ == lower_hex(self@),
    {
        hex_encode(self.bytes.as_slice())
    }

    /// Whether this is the digest of an empty subtree.
    pub fn is_vacant(&self) -> (yes: bool)
        ensures
            yes == (self@ == vacant_bytes()),
    {
        let mut i: usize = 0;
        while i < 32
            invariant
                i <= 32,
                forall|j: int| 0 <= j < i ==> self.bytes@[j] == 0u8,
            decreases 32 - i,
        {
            if self.bytes[i] != 0 {
                return false;
            }
            i += 1;
        }
        assert(self@ =~= vacant_bytes());
        true
    }
}

impl PartialEq for Digest {
    fn eq(&self, other: &Digest) -> (same: bool) {
        let mut i: usize = 0;
        while i < 32
            invariant
                i <= 32,
                forall|j: int| 0 <= j < i ==> self.bytes@[j] == other.bytes@[j],
            decreases 32 - i,
        {
            if self.bytes[i] != other.bytes[i] {
                return false;
            }
            i += 1;
        }
        assert(self@ =~= other@);
        true
    }
}

impl vstd::std_specs::cmp::PartialEqSpecImpl for Digest {
    open spec fn obeys_eq_spec() -> bool {
        true
    }

    open spec fn eq_spec(&self, other: &Digest) -> bool {
        self@ == other@
    }
}

} // verus!
