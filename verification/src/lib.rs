use vstd::prelude::*;

pub mod atc_vm;
pub mod blockchain;
pub mod codec;
pub mod config;
pub mod consensus;
pub mod crypto;
pub mod dao_state;
pub mod dex;
pub mod economics;
pub mod execution;
pub mod fork_choice;
pub mod genesis;
pub mod governance;
pub mod hashing;
pub mod identity;
pub mod indexer;
pub mod l2;
pub mod mempool;
pub mod network;
pub mod node;
pub mod monetary;
pub mod ordmap;
pub mod receipts;
pub mod sdk;
pub mod state;
pub mod storage;
pub mod validator_state;
pub mod wallet;

verus! {

/// Canonical numeric chain identifier of the network.
pub const NUMERIC_CHAIN_ID: u64 = 658_467;

} // verus!
