//! 32-byte digests and the rule that combines two of them into their parent.

use vstd::prelude::*;
use ckb_merkle_mountain_range::Merge;

verus! {

/// BLAKE3, with its default 32-byte output, of a byte string.
pub uninterp spec fn blake3_hash(input: Seq<u8>) -> Seq<u8>;

/// Calls `blake3::hash` and copies the 32 output bytes out of the returned `Hash`.
/// Trusted: the result is the BLAKE3 digest of exactly the bytes of `input`.
#[verifier::external_body]
pub(crate) fn blake3_of(input: &[u8]) -> (out: [u8; 32])
    ensures
        out@ == blake3_hash(input@),
{
    *blake3::hash(input).as_bytes()
}

/// The parent digest of a left and a right child: the hash of the two laid end to end.
pub open spec fn merge_spec(left: Seq<u8>, right: Seq<u8>) -> Seq<u8> {
    blake3_hash(left + right)
}

/// The digest of a leaf, given the canonical bytes it stands for.
pub fn leaf_digest(bytes: &[u8]) -> (out: [u8; 32])
    ensures
        out@ == blake3_hash(bytes@),
{
    blake3_of(bytes)
}

/// Combines two child digests into their parent: `H(left || right)` under BLAKE3. The
/// order of the arguments is part of the result: the left child's bytes are hashed
/// first.
pub fn merge(left: &[u8; 32], right: &[u8; 32]) -> (out: [u8; 32])
    ensures
        out@ == merge_spec(left@, right@),
{
    let mut buf: Vec<u8> = Vec::with_capacity(64);
    let mut i: usize = 0;
    while i < 32
        invariant
            i <= 32,
            buf@ == left@.take(i as int),
        decreases 32 - i,
    {
        buf.push(left[i]);
        i = i + 1;
        assert(buf@ =~= left@.take(i as int));
    }
    assert(left@.take(32) =~= left@);
    let mut j: usize = 0;
    while j < 32
        invariant
            j <= 32,
            buf@ == left@ + right@.take(j as int),
        decreases 32 - j,
    {
        buf.push(right[j]);
        j = j + 1;
        assert(buf@ =~= left@ + right@.take(j as int));
    }
    assert(right@.take(32) =~= right@);
    blake3_of(buf.as_slice())
}

/// The merge strategy of the ledger, for ranges of `ckb_merkle_mountain_range`: such a
/// range then holds the same nodes and folds its peaks to the same root as this ledger.
pub struct MergeBlake3;

impl Merge for MergeBlake3 {
    type Item = [u8; 32];

    /// The parent of two children; never fails.
    fn merge(lhs: &[u8; 32], rhs: &[u8; 32]) -> (r: Result<
        [u8; 32],
        ckb_merkle_mountain_range::Error,
    >)
        ensures
            match r {
                Ok(parent) => parent@ == merge_spec(lhs@, rhs@),
                Err(_) => false,
            },
    {
        Ok(merge(lhs, rhs))
    }

    /// The fold of two peaks, called with the right peak first: the left peak is
    /// still hashed first.
    fn merge_peaks(right: &[u8; 32], left: &[u8; 32]) -> (r: Result<
        [u8; 32],
        ckb_merkle_mountain_range::Error,
    >)
        ensures
            match r {
                Ok(folded) => folded@ == merge_spec(left@, right@),
                Err(_) => false,
            },
    {
        Ok(merge(left, right))
    }
}

/// Whether two digests hold the same 32 bytes.
pub fn digest_eq(a: &[u8; 32], b: &[u8; 32]) -> (same: bool)
    ensures
        same == (a@ == b@),
{
    let mut i: usize = 0;
    while i < 32
        invariant
            i <= 32,
            a@.take(i as int) == b@.take(i as int),
        decreases 32 - i,
    {
        if a[i] != b[i] {
            return false;
        }
        i = i + 1;
        assert(a@.take(i as int) =~= a@.take(i - 1).push(a@[i - 1]));
        assert(b@.take(i as int) =~= b@.take(i - 1).push(b@[i - 1]));
    }
    assert(a@.take(32) =~= a@);
    assert(b@.take(32) =~= b@);
    true
}

} // verus!
