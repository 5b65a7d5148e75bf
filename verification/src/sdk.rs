//! SDK protocol primitives.
use vstd::prelude::*;

verus! {

#[derive(Debug, Clone, PartialEq, Eq)]
pub struct Account {
    pub address: String,
    pub nonce: u64,
}

#[derive(Debug, Clone, PartialEq, Eq)]
pub struct Transaction {
    pub from: String,
    pub to: String,
    pub nonce: u64,
    pub amount: u64,
    pub payload: Vec<u8>,
}

#[derive(Debug, Clone, PartialEq, Eq)]
pub struct BlockRef {
    pub height: u64,
    pub hash: String,
}

/// A nonce is valid when it is the one expected next.
pub fn validate_nonce(actual: u64, expected: u64) -> (b: bool)
    ensures
        b == (actual == expected),
{
    actual == expected
}

/// An amount is valid when it is positive.
pub fn validate_amount(amount: u64) -> (b: bool)
    ensures
        b == (amount > 0),
{
    amount > 0
}

} // verus!
