//! SHA-256 commitments.
use sha2::{Digest, Sha256};
use vstd::prelude::*;

verus! {

/// The SHA-256 digest of a byte string.
pub uninterp spec fn sha256_of(data: Seq<u8>) -> Seq<u8>;

/// Calls `sha2::Sha256::digest` on `data` and returns the 32-byte digest.
/// Claimed: the digest is the SHA-256 function of the input bytes and of nothing else.
#[verifier::external_body]
pub fn simple_hash(data: &[u8]) -> (r: [u8; 32])
    ensures
        r@ == sha256_of(data@),
{
    Sha256::digest(data).into()
}

/// Hash of the 64-byte concatenation of two digests.
pub fn hash_pair(left: [u8; 32], right: [u8; 32]) -> (r: [u8; 32])
    ensures
        r@ == sha256_of(left@ + right@),
{
    let mut b: Vec<u8> = Vec::new();
    crate::codec::push_bytes(&mut b, &left);
    crate::codec::push_bytes(&mut b, &right);
    simple_hash(b.as_slice())
}

} // verus!
