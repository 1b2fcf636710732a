//! Leaf hashing and two-child node hashing primitives.

use vstd::prelude::*;

verus! {

/// A 32-byte hash value. Equality is byte-wise; the all-zero value is the
/// sentinel for "not yet written".
pub type HashValue = [u8; 32];

/// The all-zero hash, as a byte sequence.
pub open spec fn zero_hash() -> Seq<u8> {
    Seq::new(32, |i: int| 0u8)
}

/// What SHA-256 returns on a byte string; a pure function of the bytes alone.
pub uninterp spec fn sha256_of(data: Seq<u8>) -> Seq<u8>;

/// Joining two child hashes: the compression of their concatenation, which
/// makes the join order-sensitive.
pub open spec fn join_of(left: Seq<u8>, right: Seq<u8>) -> Seq<u8> {
    sha256_of(left + right)
}

/// Relies on `solana_program::hash::hashv` (SHA-256, with its off-chain
/// `sha2` code path enabled), and on `to_bytes` of the digest it returns:
/// 32 bytes, a pure function of the input bytes alone.
#[verifier::external_body]
fn sha256_bytes(data: &[u8]) -> (r: HashValue)
    ensures
        r@ == sha256_of(data@),
{
    solana_program::hash::hashv(&[data]).to_bytes()
}

/// One-way compression of a caller-supplied leaf payload.
pub fn hash_leaf(leaf: Vec<u8>) -> (r: HashValue)
    ensures
        r@ == sha256_of(leaf@),
{
    sha256_bytes(leaf.as_slice())
}

/// One-way compression of the concatenation of two hash values; used for
/// every internal node.
pub fn join_hashes(left: &HashValue, right: &HashValue) -> (r: HashValue)
    ensures
        r@ == join_of(left@, right@),
{
    let mut buf: Vec<u8> = Vec::new();
    let mut i: usize = 0;
    while i < 32
        invariant
            i <= 32,
            buf@ =~= left@.subrange(0, i as int),
        decreases 32 - i,
    {
        buf.push(left[i]);
        i = i + 1;
    }
    let mut j: usize = 0;
    while j < 32
        invariant
            j <= 32,
            buf@ =~= left@ + right@.subrange(0, j as int),
        decreases 32 - j,
    {
        buf.push(right[j]);
        j = j + 1;
    }
    proof {
        assert(buf@ =~= left@ + right@);
    }
    sha256_bytes(buf.as_slice())
}

/// The all-zero hash value.
pub fn make_zero_hash() -> (r: HashValue)
    ensures
        r@ == zero_hash(),
{
    let r: HashValue = [0u8; 32];
    proof {
        assert(r@ =~= zero_hash());
    }
    r
}

/// Whether a hash is the all-zero sentinel.
pub fn is_zero_hash(h: &HashValue) -> (r: bool)
    ensures
        r == (h@ == zero_hash()),
{
    let mut i: usize = 0;
    while i < 32
        invariant
            i <= 32,
            forall|k: int| 0 <= k < i ==> h@[k] == 0u8,
        decreases 32 - i,
    {
        if h[i] != 0u8 {
            proof {
                assert(h@[i as int] != zero_hash()[i as int]);
            }
            return false;
        }
        i = i + 1;
    }
    proof {
        assert(h@ =~= zero_hash());
    }
    true
}

} // verus!
