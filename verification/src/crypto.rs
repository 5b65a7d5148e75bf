//! Cryptographic boundary: Ed25519 checks and the signing payload of transactions.
use crate::codec::{be64, push_bytes, push_u64};
use crate::mempool::{utf8, Transaction};
use ed25519_dalek::{Signer, Verifier};
use vstd::prelude::*;

verus! {

/// Names whether 32 bytes are the compressed encoding of a curve point, which is what
/// `ed25519_dalek::VerifyingKey::from_bytes` accepts as a public key.
pub uninterp spec fn ed25519_key_valid(key: Seq<u8>) -> bool;

/// Names whether Ed25519 verification, as `ed25519_dalek` performs it, accepts the
/// signature `sig` on `msg` under the public key `key`.
pub uninterp spec fn ed25519_accepts(key: Seq<u8>, msg: Seq<u8>, sig: Seq<u8>) -> bool;

/// Calls `ed25519_dalek::VerifyingKey::from_bytes`. Claimed: the key is accepted
/// exactly when `ed25519_key_valid` holds of its bytes, which depends on them alone.
#[verifier::external_body]
pub(crate) fn ed25519_key_is_valid(key: &[u8; 32]) -> (r: bool)
    ensures
        r == ed25519_key_valid(key@),
{
    ed25519_dalek::VerifyingKey::from_bytes(key).is_ok()
}

/// Builds the key with `ed25519_dalek::VerifyingKey::from_bytes` and the signature with
/// `ed25519_dalek::Signature::from_bytes`, then calls `Verifier::verify`. Claimed: the
/// answer is `ed25519_accepts` of the key, message and signature bytes, and it is only
/// positive for a key of 32 bytes that `from_bytes` accepts.
#[verifier::external_body]
pub(crate) fn ed25519_verify(key: &[u8], msg: &[u8], sig: &[u8; 64]) -> (r: bool)
    ensures
        r == (key@.len() == 32 && ed25519_accepts(key@, msg@, sig@)),
        r ==> ed25519_key_valid(key@),
{
    let bytes: [u8; 32] = match key.try_into() {
        Ok(k) => k,
        Err(_) => return false,
    };
    match ed25519_dalek::VerifyingKey::from_bytes(&bytes) {
        Ok(k) => k.verify(msg, &ed25519_dalek::Signature::from_bytes(sig)).is_ok(),
        Err(_) => false,
    }
}

/// Names the public key that `ed25519_dalek::SigningKey::from_bytes` derives from a
/// 32-byte secret seed; it depends on the seed alone.
pub uninterp spec fn ed25519_public_of(seed: Seq<u8>) -> Seq<u8>;

/// Names the signature that an `ed25519_dalek::SigningKey` made from a seed puts on a
/// message; Ed25519 signing is deterministic, so it depends on the seed and message alone.
pub uninterp spec fn ed25519_signature_of(seed: Seq<u8>, msg: Seq<u8>) -> Seq<u8>;

/// Calls `ed25519_dalek::SigningKey::from_bytes` and then `verifying_key().to_bytes()`.
/// Claimed: the result is `ed25519_public_of` of the seed bytes.
#[verifier::external_body]
pub(crate) fn ed25519_public_key(seed: &[u8; 32]) -> (k: [u8; 32])
    ensures
        k@ == ed25519_public_of(seed@),
{
    ed25519_dalek::SigningKey::from_bytes(seed).verifying_key().to_bytes()
}

/// Calls `ed25519_dalek::SigningKey::from_bytes` and then `Signer::sign` on the message.
/// Claimed: the result is `ed25519_signature_of` of the seed and message bytes, and
/// `verify` under the seed's public key accepts it on the message.
#[verifier::external_body]
pub(crate) fn ed25519_sign(seed: &[u8; 32], msg: &[u8]) -> (s: [u8; 64])
    ensures
        s@ == ed25519_signature_of(seed@, msg@),
        ed25519_accepts(ed25519_public_of(seed@), msg@, s@),
{
    ed25519_dalek::SigningKey::from_bytes(seed).sign(msg).to_bytes()
}

/// Checks a signature on a message under a public key.
pub trait SignatureVerifier {
    fn verify(&self, message: &[u8], signature: &[u8; 64], public_key: &[u8]) -> bool;
}

/// A verifier that accepts nothing.
pub struct RejectAllVerifier;

impl SignatureVerifier for RejectAllVerifier {
    fn verify(&self, message: &[u8], signature: &[u8; 64], public_key: &[u8]) -> (r: bool)
        ensures
            !r,
    {
        false
    }
}

/// A verifier that checks Ed25519 signatures.
pub struct Ed25519Verifier;

impl SignatureVerifier for Ed25519Verifier {
    fn verify(&self, message: &[u8], signature: &[u8; 64], public_key: &[u8]) -> (r: bool)
        ensures
            r == (public_key@.len() == 32 && ed25519_accepts(public_key@, message@, signature@)),
    {
        ed25519_verify(public_key, message, signature)
    }
}

/// The bytes a transaction's signature covers: its identifier, sender, nonce, amount,
/// gas limit and gas price.
pub open spec fn tx_signing_bytes(tx: crate::mempool::TxModel) -> Seq<u8> {
    tx.id + utf8(tx.sender) + be64(tx.nonce) + be64(tx.amount) + be64(tx.gas_limit) + be64(
        tx.gas_price,
    )
}

pub fn signing_bytes(tx: &Transaction) -> (b: Vec<u8>)
    ensures
        b@ == tx_signing_bytes(tx@),
{
    let mut b: Vec<u8> = Vec::new();
    push_bytes(&mut b, tx.id.as_slice());
    push_bytes(&mut b, tx.sender_did.as_str().as_bytes());
    push_u64(&mut b, tx.nonce);
    push_u64(&mut b, tx.amount);
    push_u64(&mut b, tx.gas_limit);
    push_u64(&mut b, tx.gas_price);
    assert(b@ =~= tx_signing_bytes(tx@));
    b
}

} // verus!
