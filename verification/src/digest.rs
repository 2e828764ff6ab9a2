//! blake3 digests.

use vstd::prelude::*;

verus! {

/// The 32-byte blake3 digest of a byte string.
pub uninterp spec fn blake3_digest(bytes: Seq<u8>) -> Seq<u8>;

/// `blake3::hash`: the digest of `bytes`, returned as its 32 bytes.
#[verifier::external_body]
pub fn blake3_hash(bytes: &[u8]) -> (d: [u8; 32])
    ensures
        d@ == blake3_digest(bytes@),
{
    *blake3::hash(bytes).as_bytes()
}

} // verus!
