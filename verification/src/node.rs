//! The node: mempool, state, consensus, chain and storage driven as one, with the
//! block pipeline that produces, imports and finalizes blocks.
use crate::blockchain::{
    append_check, block_id, block_sig_bytes, block_signing_bytes, BlockChain, BlockModel,
    ChainModel, IndexerSink, Block,
};
use crate::consensus::{
    capped128, complete_bindings, distinct_approvals, finalize_outcome, snapshot_at, vote_outcome, vote_bytes, vote_signing_bytes, ConsensusEngine, EngineModel,
    slash_outcome, SlashingEvidence, Vote,
};
use crate::hashing::sha256_of;
use crate::crypto::{
    ed25519_key_is_valid,
    ed25519_accepts, ed25519_public_key, ed25519_public_of, ed25519_sign, ed25519_signature_of,
    ed25519_verify, signing_bytes, tx_signing_bytes,
};
use crate::execution::{AtcVmExecutor, ExecutionReceipt, VmExecutor};
use crate::storage::hex_encode;
use crate::mempool::{pool_verdict, priority_of, MemoryPool, MempoolError, PoolEntry, Transaction, TxModel, TxStatus};
use crate::network::{NetworkMessage, PeerTransport};
use crate::codec::{be32, be64};
use crate::network::snapshot_entries_wire;
use crate::ordmap::{bytes_equal, map_sum, str_equal, OrdMap};
use crate::state::{
    accounts_bytes, batch_effect, capped, dao_payload_outcome, reward_outcome, state_root_preimage, tx_models,
    Account, StateDb, StateModel,
};
use crate::dao_state::dao_parse;
use crate::economics::MAX_SUPPLY;
use crate::storage::{block_replay, line_texts, BlockReplay, commit_check, with_block_state, zero_id, validator_magic, finality_commit_check, finality_record, hex_text, ChainStorage, StorageModel};
use std::sync::Arc;
use vstd::prelude::*;

verus! {

/// Whether a transaction's gas cost fits in 64 bits.
pub open spec fn gas_fits(t: TxModel) -> bool {
    t.gas_cost() <= u64::MAX
}

/// Whether arithmetic on a transaction stays in range: its nonce can still grow by
/// one and its gas cost fits in 64 bits.
pub open spec fn tx_in_limits(t: TxModel) -> bool {
    t.nonce < u64::MAX && gas_fits(t)
}

/// Whether the gas cost of every transaction of a block fits in 64 bits.
pub open spec fn block_in_limits(b: BlockModel) -> bool {
    forall|i: int| 0 <= i < b.transactions.len() ==> gas_fits(#[trigger] b.transactions[i])
}

/// Whether importing `b` into `n` stays in range: its gas costs fit, and its
/// transactions, applied in order to the node's accounts, each leave room for the
/// next nonce of a sender whose nonce they match.
pub open spec fn block_fits(n: &Node, b: BlockModel) -> bool {
    block_in_limits(b) && crate::state::batch_fits(n.spec_state()@.accounts, b.transactions)
}

/// What one receipt adds to the bytes a receipt root commits to: the transaction
/// identifier, the success flag, the gas used and the hash of the returned data.
pub open spec fn receipt_entry(tx: TxModel, data: Seq<u8>) -> Seq<u8> {
    tx.id + seq![1u8] + be64(tx.gas_cost() as u64) + sha256_of(data)
}

/// One step of executing transactions in order: what `tx` does to the outcome of
/// those before it.
#[verifier::opaque]
pub open spec fn receipt_step(
    chain_id: u64,
    checked: bool,
    prev: Result<Seq<u8>, Seq<char>>,
    tx: TxModel,
) -> Result<Seq<u8>, Seq<char>> {
    match prev {
        Ok(bytes) => {
            if checked && !(tx.chain_id == chain_id && ed25519_accepts(
                tx.public_key,
                tx_signing_bytes(tx),
                tx.signature,
            )) {
                Err("invalid transaction signature or chain"@)
            } else {
                match crate::execution::execution_outcome(tx) {
                    Ok(d) => Ok(bytes + receipt_entry(tx, d)),
                    Err(m) => Err(m),
                }
            }
        },
        Err(m) => Err(m),
    }
}

/// What executing transactions in order yields: the receipt bytes, or the first
/// failure. With `checked`, each transaction must first be for chain `chain_id` and
/// carry a valid signature.
pub open spec fn receipts_outcome(chain_id: u64, checked: bool, txs: Seq<TxModel>) -> Result<
    Seq<u8>,
    Seq<char>,
>
    decreases txs.len(),
{
    if txs.len() == 0 {
        Ok(Seq::empty())
    } else {
        receipt_step(chain_id, checked, receipts_outcome(chain_id, checked, txs.drop_last()), txs.last())
    }
}

/// The outcome over one more transaction is one more step.
proof fn lemma_outcome_unfold(chain_id: u64, checked: bool, txs: Seq<TxModel>, i: int)
    requires
        0 <= i < txs.len(),
    ensures
        receipts_outcome(chain_id, checked, txs.take(i + 1)) == receipt_step(
            chain_id,
            checked,
            receipts_outcome(chain_id, checked, txs.take(i)),
            txs[i],
        ),
{
    assert(txs.take(i + 1).drop_last() =~= txs.take(i));
}

/// Once a prefix of the transactions fails, the whole sequence fails the same way.
proof fn lemma_outcome_stops(chain_id: u64, checked: bool, txs: Seq<TxModel>, i: int)
    requires
        0 <= i <= txs.len(),
        receipts_outcome(chain_id, checked, txs.take(i)) is Err,
    ensures
        receipts_outcome(chain_id, checked, txs) == receipts_outcome(chain_id, checked, txs.take(i)),
    decreases txs.len() - i,
{
    if i < txs.len() {
        lemma_outcome_unfold(chain_id, checked, txs, i);
        reveal(receipt_step);
        lemma_outcome_stops(chain_id, checked, txs, i + 1);
    } else {
        assert(txs.take(i) =~= txs);
    }
}

/// The nonce check over a batch, in order: each sender's first transaction must
/// carry the sender's nonce among `accounts`, each later one the nonce after the
/// previous one. Gives the next nonce expected of each sender seen, or the message
/// of the first mismatch.
pub open spec fn nonce_run(accounts: Map<Seq<char>, Account>, txs: Seq<TxModel>) -> Result<
    Map<Seq<char>, u64>,
    Seq<char>,
>
    decreases txs.len(),
{
    if txs.len() == 0 {
        Ok(Map::empty())
    } else {
        match nonce_run(accounts, txs.drop_last()) {
            Err(m) => Err(m),
            Ok(seen) => {
                let tx = txs.last();
                let expected = if seen.contains_key(tx.sender) {
                    seen[tx.sender]
                } else {
                    crate::state::account_of(accounts, tx.sender).nonce
                };
                if tx.nonce != expected {
                    Err(
                        "invalid nonce for "@ + tx.sender + ": expected "@ + crate::codec::decimal(
                            expected as nat,
                        ) + ", got "@ + crate::codec::decimal(tx.nonce as nat),
                    )
                } else {
                    Ok(
                        seen.insert(
                            tx.sender,
                            if expected == u64::MAX {
                                u64::MAX
                            } else {
                                (expected + 1) as u64
                            },
                        ),
                    )
                }
            },
        }
    }
}

/// Once a prefix of a batch fails the nonce check, the whole batch fails it the
/// same way.
proof fn lemma_nonce_run_stops(accounts: Map<Seq<char>, Account>, txs: Seq<TxModel>, i: int)
    requires
        0 <= i <= txs.len(),
        nonce_run(accounts, txs.take(i)) is Err,
    ensures
        nonce_run(accounts, txs) == nonce_run(accounts, txs.take(i)),
    decreases txs.len() - i,
{
    if i < txs.len() {
        assert(txs.take(i + 1).drop_last() =~= txs.take(i));
        lemma_nonce_run_stops(accounts, txs, i + 1);
    } else {
        assert(txs.take(i) =~= txs);
    }
}

/// The pool after the transactions `txs` were included in a block: each pooled
/// entry whose identifier one of them carries is marked as included, the others
/// stay as they were.
pub open spec fn marked_in_block(p: Map<Seq<u8>, PoolEntry>, txs: Seq<TxModel>) -> Map<Seq<u8>, PoolEntry> {
    Map::new(
        |k: Seq<u8>| p.contains_key(k),
        |k: Seq<u8>|
            if exists|j: int| 0 <= j < txs.len() && #[trigger] txs[j].id == k {
                PoolEntry { status: TxStatus::InBlock, ..p[k] }
            } else {
                p[k]
            },
    )
}

/// What the DAO payload of one transaction does to the state in a block at `height`:
/// a transaction without payload leaves it as it is.
#[verifier::opaque]
pub open spec fn dao_step(s: StateModel, tx: TxModel, height: u64) -> Result<StateModel, Seq<char>> {
    if tx.payload.len() == 0 {
        Ok(s)
    } else {
        let o = dao_payload_outcome(s, Seq::empty(), tx.payload, height, tx.sender);
        match o.1 {
            Ok(()) => Ok(o.0),
            Err(m) => Err(m),
        }
    }
}

/// The DAO payloads of a batch applied in order in a block at `height`: the state
/// after the last of them, or the message of the first refused one.
pub open spec fn dao_run(s: StateModel, txs: Seq<TxModel>, height: u64) -> Result<StateModel, Seq<char>>
    decreases txs.len(),
{
    if txs.len() == 0 {
        Ok(s)
    } else {
        match dao_run(s, txs.drop_last(), height) {
            Err(m) => Err(m),
            Ok(s1) => dao_step(s1, txs.last(), height),
        }
    }
}

/// The DAO snapshot a payload is applied with decides only what a refusal restores.
proof fn lemma_dao_outcome_snapshot(
    s: StateModel,
    snapshot: Seq<u8>,
    payload: Seq<u8>,
    block: u64,
    sender: Seq<char>,
)
    ensures
        dao_payload_outcome(s, snapshot, payload, block, sender).1 == dao_payload_outcome(
            s,
            Seq::empty(),
            payload,
            block,
            sender,
        ).1,
        dao_payload_outcome(s, snapshot, payload, block, sender).1 is Ok ==> dao_payload_outcome(
            s,
            snapshot,
            payload,
            block,
            sender,
        ).0 == dao_payload_outcome(s, Seq::empty(), payload, block, sender).0,
{
}

/// Once a prefix of a batch has a refused DAO payload, the whole batch is refused
/// with its message.
proof fn lemma_dao_run_stops(s: StateModel, txs: Seq<TxModel>, height: u64, i: int)
    requires
        0 <= i <= txs.len(),
        dao_run(s, txs.take(i), height) is Err,
    ensures
        dao_run(s, txs, height) == dao_run(s, txs.take(i), height),
    decreases txs.len() - i,
{
    if i < txs.len() {
        assert(txs.take(i + 1).drop_last() =~= txs.take(i));
        lemma_dao_run_stops(s, txs, height, i + 1);
    } else {
        assert(txs.take(i) =~= txs);
    }
}

/// Registering the validators `vs` in order with the engine: each needs a name and
/// a stake. Gives the engine reached and whether every registration went through.
pub open spec fn stake_run(e: EngineModel, vs: Seq<(Seq<char>, u64)>) -> (EngineModel, Result<(), Seq<char>>)
    decreases vs.len(),
{
    if vs.len() == 0 {
        (e, Ok(()))
    } else {
        let p = stake_run(e, vs.drop_last());
        let v = vs.last();
        if p.1 is Err {
            p
        } else if v.0.len() == 0 || v.1 == 0 {
            (p.0, Err("validator address and stake are required"@))
        } else {
            (EngineModel { validators: p.0.validators.insert(v.0, v.1 as u128), ..p.0 }, Ok(()))
        }
    }
}

/// Registering the signing keys `ks` in order with the engine: each belongs to a
/// validator with stake and must be a valid key; see `key_bound`.
pub open spec fn key_run(e: EngineModel, ks: Seq<(Seq<char>, [u8; 32])>) -> (EngineModel, Result<(), Seq<char>>)
    decreases ks.len(),
{
    if ks.len() == 0 {
        (e, Ok(()))
    } else {
        let p = key_run(e, ks.drop_last());
        let k = ks.last();
        if p.1 is Err {
            p
        } else if !p.0.validators.contains_key(k.0) || p.0.validators[k.0] == 0 {
            (p.0, Err("validator must be registered before its signing key"@))
        } else if !crate::crypto::ed25519_key_valid(k.1@) {
            (p.0, Err("invalid validator public key"@))
        } else {
            (crate::consensus::key_bound(p.0, k.0, k.1), Ok(()))
        }
    }
}

/// Restoring one recovered validator snapshot activating at `h`: its stakes and keys
/// are registered, then the snapshot is recorded if every validator has a key.
pub open spec fn snapshot_restore(
    e: EngineModel,
    h: u64,
    validators: OrdMap<String, u64>,
    keys: OrdMap<String, [u8; 32]>,
) -> (EngineModel, Result<(), Seq<char>>) {
    let a = stake_run(e, validators.pairs());
    if a.1 is Err {
        a
    } else {
        let b = key_run(a.0, keys.pairs());
        let v = crate::ordmap::map_of(
            validators.pairs().map_values(|p: (Seq<char>, u64)| (p.0, p.1 as u128)),
        );
        if b.1 is Err {
            b
        } else if !complete_bindings(v, keys@) {
            (b.0, Err("validator snapshot has incomplete public-key bindings"@))
        } else {
            (EngineModel { snapshots: b.0.snapshots.insert(h, (v, keys@)), ..b.0 }, Ok(()))
        }
    }
}

/// Restoring recovered validator snapshots in order, stopping at the first failure.
pub open spec fn restore_run(
    e: EngineModel,
    snaps: Seq<(u64, (OrdMap<String, u64>, OrdMap<String, [u8; 32]>))>,
) -> (EngineModel, Result<(), Seq<char>>)
    decreases snaps.len(),
{
    if snaps.len() == 0 {
        (e, Ok(()))
    } else {
        let p = restore_run(e, snaps.drop_last());
        let x = snaps.last();
        if p.1 is Err {
            p
        } else {
            snapshot_restore(p.0, x.0, x.1.0, x.1.1)
        }
    }
}

proof fn lemma_stake_run_stops(e: EngineModel, vs: Seq<(Seq<char>, u64)>, i: int)
    requires
        0 <= i <= vs.len(),
        stake_run(e, vs.take(i)).1 is Err,
    ensures
        stake_run(e, vs) == stake_run(e, vs.take(i)),
    decreases vs.len() - i,
{
    if i < vs.len() {
        assert(vs.take(i + 1).drop_last() =~= vs.take(i));
        lemma_stake_run_stops(e, vs, i + 1);
    } else {
        assert(vs.take(i) =~= vs);
    }
}

proof fn lemma_key_run_stops(e: EngineModel, ks: Seq<(Seq<char>, [u8; 32])>, i: int)
    requires
        0 <= i <= ks.len(),
        key_run(e, ks.take(i)).1 is Err,
    ensures
        key_run(e, ks) == key_run(e, ks.take(i)),
    decreases ks.len() - i,
{
    if i < ks.len() {
        assert(ks.take(i + 1).drop_last() =~= ks.take(i));
        lemma_key_run_stops(e, ks, i + 1);
    } else {
        assert(ks.take(i) =~= ks);
    }
}

proof fn lemma_restore_run_stops(
    e: EngineModel,
    snaps: Seq<(u64, (OrdMap<String, u64>, OrdMap<String, [u8; 32]>))>,
    i: int,
)
    requires
        0 <= i <= snaps.len(),
        restore_run(e, snaps.take(i)).1 is Err,
    ensures
        restore_run(e, snaps) == restore_run(e, snaps.take(i)),
    decreases snaps.len() - i,
{
    if i < snaps.len() {
        assert(snaps.take(i + 1).drop_last() =~= snaps.take(i));
        lemma_restore_run_stops(e, snaps, i + 1);
    } else {
        assert(snaps.take(i) =~= snaps);
    }
}

/// Appending the stored blocks to the chain from height `h` on, one height after the
/// other while a block is stored there. Gives the chain reached and whether every
/// append went through; at the last height the stored block is offered once more.
pub open spec fn replay_from(c: ChainModel, stored: Map<u64, BlockModel>, h: u64) -> (
    ChainModel,
    Result<(), Seq<char>>,
)
    decreases u64::MAX - h,
{
    if !stored.contains_key(h) {
        (c, Ok(()))
    } else {
        match append_check(c, stored[h]) {
            Err(m) => (c, Err(m)),
            Ok(_) => {
                let c2 = crate::blockchain::appended(c, stored[h]);
                if h == u64::MAX {
                    match append_check(c2, stored[h]) {
                        Err(m) => (c2, Err(m)),
                        Ok(_) => (crate::blockchain::appended(c2, stored[h]), Ok(())),
                    }
                } else {
                    replay_from(c2, stored, (h + 1) as u64)
                }
            }
        }
    }
}

/// The chain rebuilt from the stored blocks onto `c`: nothing without a stored
/// genesis block; else the genesis block, checked as a genesis, then the stored
/// blocks after it.
pub open spec fn recovered_chain(c: ChainModel, stored: Map<u64, BlockModel>) -> (
    ChainModel,
    Result<(), Seq<char>>,
) {
    if !stored.contains_key(0) {
        (c, Ok(()))
    } else {
        let g = stored[0];
        if g.height != 0 || c.blocks.contains_key(0) {
            (c, Err("invalid genesis"@))
        } else if g.tx_root != crate::blockchain::spec_tx_root(g.transactions) || g.id
            != crate::blockchain::spec_block_id(g) {
            (c, Err("invalid genesis commitment"@))
        } else {
            replay_from(crate::blockchain::appended(c, g), stored, 1)
        }
    }
}

/// What a block's transactions, DAO payloads and reward do to the state: the state
/// reached, or the message of the first refusal.
pub open spec fn block_transition(s: StateModel, b: BlockModel) -> Result<StateModel, Seq<char>> {
    match batch_effect(s.accounts, b.transactions) {
        Err(e) => Err("state transition: "@ + crate::mempool::mempool_error_debug(e)),
        Ok(a) => match dao_run(StateModel { accounts: a, ..s }, b.transactions, b.height) {
            Err(m) => Err("DAO transition: "@ + m),
            Ok(s2) => match reward_outcome(s2, b.height, b.proposer).1 {
                Err(m) => Err("block reward: "@ + m),
                Ok(_) => Ok(reward_outcome(s2, b.height, b.proposer).0),
            },
        },
    }
}

/// Whether every state with model `m` commits to `root`.
pub open spec fn commits_to(m: StateModel, root: Seq<u8>) -> bool {
    forall|s: StateDb| #[trigger] s.wf() && s@ == m ==> state_root_of(s) == root
}

/// Whether no state with model `m` commits to `root`.
pub open spec fn never_commits_to(m: StateModel, root: Seq<u8>) -> bool {
    forall|s: StateDb| #[trigger] s.wf() && s@ == m ==> state_root_of(s) != root
}

/// A state's commitment depends on its model alone: for every model and root, either
/// all states with that model commit to the root or none does.
pub proof fn lemma_commitment_decided(m: StateModel, root: Seq<u8>)
    ensures
        commits_to(m, root) || never_commits_to(m, root),
{
    if !never_commits_to(m, root) {
        let s = choose|s: StateDb| s.wf() && s@ == m && state_root_of(s) == root;
        assert forall|t: StateDb| #[trigger] t.wf() && t@ == m implies state_root_of(t) == root by {
            s.lemma_same_model(&t);
        }
    }
}

/// Checks `tx_in_limits`.
pub fn within_limits(tx: &Transaction) -> (r: bool)
    ensures
        r == tx_in_limits(tx@),
{
    let per_byte = (tx.payload.len() as u128) * 10;
    let base = tx.tx_type.base_gas() as u128;
    tx.nonce < u64::MAX && base + per_byte <= u64::MAX as u128
}

/// Checks `gas_fits`.
pub fn gas_within_limits(tx: &Transaction) -> (r: bool)
    ensures
        r == gas_fits(tx@),
{
    let per_byte = (tx.payload.len() as u128) * 10;
    let base = tx.tx_type.base_gas() as u128;
    base + per_byte <= u64::MAX as u128
}

/// Checks `block_in_limits`.
pub fn block_within_limits(b: &Block) -> (r: bool)
    ensures
        r == block_in_limits(b@),
{
    let mut i: usize = 0;
    while i < b.transactions.len()
        invariant
            i <= b.transactions@.len(),
            forall|j: int| 0 <= j < i ==> gas_fits(#[trigger] b@.transactions[j]),
        decreases b.transactions@.len() - i,
    {
        assert(b@.transactions[i as int] == b.transactions@[i as int]@);
        if !gas_within_limits(&b.transactions[i]) {
            return false;
        }
        i = i + 1;
    }
    true
}

/// Checks `message_in_limits`.
pub fn message_within_limits(m: &NetworkMessage) -> (r: bool)
    ensures
        r == message_in_limits(*m),
{
    match m {
        NetworkMessage::Block(b) => block_within_limits(b),
        NetworkMessage::Transaction(t) => within_limits(t),
        _ => true,
    }
}

/// A copy of a vote.
pub fn copy_vote(v: &Vote) -> (c: Vote)
    ensures
        c.block == v.block,
        c.voter@ == v.voter@,
        c.approve == v.approve,
        c.signature == v.signature,
        c.public_key == v.public_key,
        vote_bytes(0, c) == vote_bytes(0, *v),
{
    Vote {
        block: v.block,
        voter: v.voter.clone(),
        approve: v.approve,
        signature: v.signature,
        public_key: v.public_key,
    }
}

/// The block with its signature set and its identifier recomputed over it.
pub open spec fn signed_block(b: BlockModel, sig: Seq<u8>) -> BlockModel {
    let s = BlockModel { signature: sig, ..b };
    BlockModel { id: crate::blockchain::spec_block_id(s), ..s }
}

/// Why the node cannot sign `b`, if it cannot: it needs a signer that is the block's
/// proposer, a validator snapshot for the block's height, and the signer's key in it.
pub open spec fn sign_check(
    chain: EngineModel,
    signer: Option<(Seq<char>, Seq<u8>)>,
    b: BlockModel,
) -> Result<Seq<u8>, Seq<char>> {
    match signer {
        None => Err("proposer signing key is not configured"@),
        Some((validator, seed)) => if validator != b.proposer {
            Err("configured validator is not the block proposer"@)
        } else {
            match snapshot_at(chain, b.height) {
                None => Err("validator snapshot is unavailable for block height"@),
                Some((_, keys)) => if !keys.contains_key(validator) {
                    Err("block proposer is not registered at block height"@)
                } else if keys[validator]@ != ed25519_public_of(seed) {
                    Err("proposer signing key does not match validator identity at block height"@)
                } else {
                    Ok(seed)
                },
            }
        },
    }
}

/// What submitting `tx` at time `now` answers, with the pool after it: the chain must
/// match, the signature must verify, the pool must admit the transaction, and its
/// checks must validate it; one that fails those checks leaves the pool again.
pub open spec fn submit_outcome(
    chain_id: u64,
    pool: Map<Seq<u8>, PoolEntry>,
    max_size: usize,
    max_age: u64,
    tx: Transaction,
    now: u64,
) -> (Map<Seq<u8>, PoolEntry>, Result<Seq<u8>, MempoolError>) {
    let entry = PoolEntry {
        priority: priority_of(tx@),
        tx: tx,
        status: TxStatus::Pending,
        added_at: now,
    };
    if tx.chain_id != chain_id {
        (pool, Err(MempoolError::WrongChain))
    } else if !ed25519_accepts(tx.public_key@, tx_signing_bytes(tx@), tx.signature@) {
        (pool, Err(MempoolError::InvalidSignature))
    } else if pool.contains_key(tx.id@) {
        (pool, Err(MempoolError::DuplicateTx))
    } else if pool.len() >= max_size {
        (pool, Err(MempoolError::PoolFull))
    } else {
        match pool_verdict(entry, now, max_age).0 {
            Err(e) => (pool, Err(e)),
            Ok(_) => (
                pool.insert(tx.id@, PoolEntry { status: TxStatus::Validated, ..entry }),
                Ok(tx.id@),
            ),
        }
    }
}

/// Whether two thirds of the stake of the validator set of height `h` approve block `id`.
pub open spec fn weighted_final(m: EngineModel, id: Seq<u8>, h: u64) -> bool {
    match snapshot_at(m, h) {
        None => false,
        Some((vals, _)) => capped128(map_sum(vals)) != 0 && m.votes.contains_key(id) && 3
            * capped128(crate::consensus::approved_stake_at(m.votes[id], crate::consensus::heights_for(m, id), vals, h))
            >= 2 * capped128(map_sum(vals)),
    }
}

/// Whether `quorum` distinct validators approve block `id` and a validator set
/// authenticates height `h`.
pub open spec fn count_final(m: EngineModel, id: Seq<u8>, h: u64, quorum: usize) -> bool {
    quorum > 0 && snapshot_at(m, h) is Some && m.votes.contains_key(id) && distinct_approvals(
        m.votes[id],
    ) >= quorum
}

/// The height after `h`, staying at the largest height.
pub open spec fn next_height(h: u64) -> u64 {
    if h == u64::MAX {
        h
    } else {
        (h + 1) as u64
    }
}

/// The registry's stakes as 64-bit values.
pub open spec fn narrow_pairs(l: Seq<(Seq<char>, u128)>) -> Seq<(Seq<char>, u64)> {
    l.map_values(|p: (Seq<char>, u128)| (p.0, p.1 as u64))
}

/// Whether every stake of the registry fits in 64 bits.
pub open spec fn stakes_fit(l: Seq<(Seq<char>, u128)>) -> bool {
    forall|i: int| 0 <= i < l.len() ==> (#[trigger] l[i]).1 <= u64::MAX
}

/// The validator journal record of a registry, listed in address order, activating
/// at `h`.
pub open spec fn registry_record(
    h: u64,
    l: Seq<(Seq<char>, u128)>,
    keys: Map<Seq<char>, [u8; 32]>,
) -> Seq<u8> {
    validator_magic() + be64(h) + be32(l.len() as u32) + snapshot_entries_wire(
        narrow_pairs(l),
        keys,
    )
}

/// What storing the registry of `e`, listed as `l`, as the snapshot activating at `h`
/// answers, with the storage after it: every validator needs a key and every stake
/// must fit the record.
pub open spec fn persist_outcome(
    s: StorageModel,
    e: EngineModel,
    l: Seq<(Seq<char>, u128)>,
    h: u64,
) -> (StorageModel, Result<(), Seq<char>>) {
    if !complete_bindings(e.validators, e.keys) {
        (s, Err("validator registry contains an identity without a public key"@))
    } else if !stakes_fit(l) {
        (s, Err("validator stake exceeds the storable range"@))
    } else {
        (
            StorageModel {
                validator_journal: crate::storage::appended(
                    s.validator_journal,
                    hex_text(registry_record(h, l, e.keys)),
                ),
                ..s
            },
            Ok(()),
        )
    }
}

/// The engine with its registry and keys activated as the snapshot of height `h`.
pub open spec fn activated(e: EngineModel, h: u64) -> EngineModel {
    EngineModel { snapshots: e.snapshots.insert(h, (e.validators, e.keys)), ..e }
}

/// The height at which a registry change takes effect: the next height where the
/// current one already has a snapshot, else the current one.
pub open spec fn activation_of(e: EngineModel) -> u64 {
    if e.snapshots.contains_key(e.height) {
        next_height(e.height)
    } else {
        e.height
    }
}

/// A narrowed copy of a map has the same keys.
proof fn lemma_narrow_keys(v: OrdMap<String, u128>, n: OrdMap<String, u64>)
    requires
        v.wf(),
        n.wf(),
        n.pairs() == narrow_pairs(v.pairs()),
    ensures
        n@.dom() == v@.dom(),
        n@.len() == v@.len(),
        n@.len() == v.pairs().len(),
{
    v.lemma_len();
    n.lemma_len();
    assert forall|k: Seq<char>| n@.contains_key(k) <==> v@.contains_key(k) by {
        n.lemma_dom(k);
        v.lemma_dom(k);
        if n@.contains_key(k) {
            let i = choose|i: int| 0 <= i < n.pairs().len() && (#[trigger] n.pairs()[i]).0 == k;
            assert(v.pairs()[i].0 == k);
        }
        if v@.contains_key(k) {
            let i = choose|i: int| 0 <= i < v.pairs().len() && (#[trigger] v.pairs()[i]).0 == k;
            assert(n.pairs()[i].0 == k);
        }
    }
    assert(n@.dom() =~= v@.dom());
}

/// The commitment of a state, as its `root` computes it.
pub open spec fn state_root_of(s: StateDb) -> Seq<u8> {
    sha256_of(
        state_root_preimage(
            sha256_of(accounts_bytes(s.account_list())),
            capped(s.total_holdings()),
            s@.issued,
            sha256_of(s.dao_bytes()),
        ),
    )
}

/// Number of votes in the buffer's lists.
pub open spec fn buffered_count(l: Seq<(Seq<u8>, Vec<Vote>)>) -> int
    decreases l.len(),
{
    if l.len() == 0 {
        0
    } else {
        buffered_count(l.drop_last()) + l.last().1@.len()
    }
}

/// Whether `list` already holds a vote equal to `v` in voter, verdict, signature and key.
pub open spec fn holds_same_vote(list: Seq<Vote>, v: Vote) -> bool {
    exists|j: int|
        0 <= j < list.len() && (#[trigger] list[j]).voter@ == v.voter@ && list[j].approve
            == v.approve && list[j].signature == v.signature && list[j].public_key == v.public_key
}

/// Whether engine `b` differs from `a` at most in its votes and its finality.
pub open spec fn votes_final_only(a: EngineModel, b: EngineModel) -> bool {
    b == EngineModel { votes: b.votes, vote_heights: b.vote_heights, finalized: b.finalized, ..a }
}

/// Whether storage `b` differs from `a` at most in its finality journal.
pub open spec fn finality_only(a: StorageModel, b: StorageModel) -> bool {
    b == StorageModel { finality_journal: b.finality_journal, ..a }
}

/// The keys of the validator set that authenticates height `h`.
pub open spec fn height_keys(e: EngineModel, h: u64) -> Map<Seq<char>, [u8; 32]> {
    match snapshot_at(e, h) {
        Some((_, keys)) => keys,
        None => Map::empty(),
    }
}

/// Why a node refuses block `b` from the network before it applies any of it, if it
/// does: the chain of its first transaction, the finalized prefix, the chain's
/// append rules, the proposer's signature under its key at the block's height, and
/// the tip it must extend.
pub open spec fn import_precheck(
    chain_id: u64,
    e: EngineModel,
    c: ChainModel,
    b: BlockModel,
) -> Result<(), Seq<char>> {
    if b.transactions.len() > 0 && b.transactions[0].chain_id != chain_id {
        Err("block transaction chain-id mismatch"@)
    } else if e.finalized matches Some((fh, _)) && b.height <= fh {
        Err("cannot replace finalized block"@)
    } else if e.finalized matches Some((fh, fid)) && b.height == next_height(fh)
        && b.parent_hash != fid@ {
        Err("candidate would reorg finalized prefix"@)
    } else if append_check(c, b) is Err {
        append_check(c, b)
    } else if b.height > 0 && snapshot_at(e, b.height) is None {
        Err("validator snapshot is unavailable for block height"@)
    } else if b.height > 0 && !height_keys(e, b.height).contains_key(b.proposer) {
        Err("block proposer has no signing key at block height"@)
    } else if b.height > 0 && !crate::crypto::ed25519_key_valid(
        height_keys(e, b.height)[b.proposer]@,
    ) {
        Err("invalid proposer public key"@)
    } else if b.height > 0 && !ed25519_accepts(
        height_keys(e, b.height)[b.proposer]@,
        block_sig_bytes(chain_id, b),
        b.signature,
    ) {
        Err("invalid block proposer signature"@)
    } else if !c.blocks.contains_key(c.height) {
        Err("genesis required"@)
    } else if b.parent_hash != c.blocks[c.height].id || b.height != next_height(
        c.blocks[c.height].height,
    ) {
        Err("block is not the next canonical height"@)
    } else {
        Ok(())
    }
}

/// Whether importing `b` into `n` is owed to succeed: it passes the pre-checks, its
/// transactions execute to the receipt root it names, its transition succeeds on a
/// state that commits to the state root it names, storage can take it, no vote for it
/// is recorded or waiting, and the vote it gets is either not signed or not sent.
pub open spec fn import_owed(n: &Node, b: BlockModel) -> bool {
    &&& import_precheck(n.spec_chain_id(), n.spec_consensus()@, n.spec_chain()@, b) is Ok
    &&& receipts_outcome(n.spec_chain_id(), true, b.transactions) matches Ok(x)
        && sha256_of(x) == b.receipt_root
    &&& block_transition(n.spec_state()@, b) matches Ok(s3) && commits_to(s3, b.state_root)
    &&& crate::storage::commit_check(n.spec_storage()@.blocks, b) is Ok
    &&& !n.pending().contains_key(b.id)
    &&& !n.spec_consensus()@.votes.contains_key(b.id)
    &&& (n.signer() is None || !n.has_transport())
}

/// Whether every block the node could build at height `h` on `parent` at time `t`
/// with transactions `txs` and receipt root `receipt`, whatever state root it commits
/// to, can be signed by the node's signer, and, whatever its signature, appended to
/// the chain and committed to storage.
pub open spec fn producible(
    n: &Node,
    h: u64,
    parent: Seq<u8>,
    t: u64,
    txs: Seq<TxModel>,
    receipt: Seq<u8>,
) -> bool {
    forall|state: Seq<u8>|
        #![trigger fresh_block(h, parent, n.spec_proposer(), t, txs, state, receipt, zero_sig())]
        {
            let fb = fresh_block(h, parent, n.spec_proposer(), t, txs, state, receipt, zero_sig());
            &&& sign_check(n.spec_consensus()@, n.signer(), fb) is Ok
            &&& forall|sig: Seq<u8>| #[trigger]
                append_check(n.spec_chain()@, signed_block(fb, sig)) is Ok
                    && crate::storage::commit_check(n.spec_storage()@.blocks, signed_block(fb, sig))
                    is Ok
        }
}

/// Whether producing a reward block at time `t` is owed to succeed: the chain has a
/// tip, the reward at the next height can be paid, the node can sign, append and
/// store the block, and no transport is attached.
pub open spec fn reward_block_owed(n: &Node, t: u64) -> bool {
    let c = n.spec_chain()@;
    &&& c.blocks.contains_key(c.height)
    &&& reward_outcome(
        n.spec_state()@,
        next_height(c.blocks[c.height].height),
        n.spec_proposer(),
    ).1 is Ok
    &&& producible(
        n,
        next_height(c.blocks[c.height].height),
        c.blocks[c.height].id,
        t,
        Seq::empty(),
        sha256_of(crate::receipts::receipts_bytes(Seq::empty())),
    )
    &&& !n.has_transport()
}

/// Whether `batch` is what the pool `p` hands out as the next batch of at most `n`
/// transactions: validated pooled transactions in rank order, and no validated one
/// left out that ranks before one taken, or at all while fewer than `n` are taken.
pub open spec fn pending_batch(p: Map<Seq<u8>, PoolEntry>, n: nat, batch: Seq<TxModel>) -> bool {
    &&& batch.len() <= n
    &&& forall|k: int|
        0 <= k < batch.len() ==> {
            &&& p.contains_key(#[trigger] batch[k].id)
            &&& p[batch[k].id].status == TxStatus::Validated
            &&& p[batch[k].id].tx@ == batch[k]
        }
    &&& forall|k: int, l: int|
        0 <= k < l < batch.len() ==> crate::mempool::ranks_before(
            p[(#[trigger] batch[k]).id],
            p[(#[trigger] batch[l]).id],
        )
    &&& forall|id: Seq<u8>|
        #![trigger p[id]]
        p.contains_key(id) && p[id].status == TxStatus::Validated && (forall|k: int|
            0 <= k < batch.len() ==> (#[trigger] batch[k]).id != id) ==> batch.len() == n
            && forall|k: int|
            0 <= k < batch.len() ==> crate::mempool::ranks_before(p[(#[trigger] batch[k]).id], p[id])
}

/// The error that producing from `batch` stops with before anything changes, if any:
/// an empty batch; a transaction for another chain or with a bad signature; no tip to
/// build on; a transaction that does not execute; a nonce out of sequence.
pub open spec fn produce_precheck(n: &Node, batch: Seq<TxModel>) -> Option<Seq<char>> {
    let c = n.spec_chain()@;
    if batch.len() == 0 {
        Some("no validated transactions"@)
    } else if !(forall|i: int|
        0 <= i < batch.len() ==> (#[trigger] batch[i]).chain_id == n.spec_chain_id()
            && ed25519_accepts(batch[i].public_key, tx_signing_bytes(batch[i]), batch[i].signature)) {
        Some("invalid transaction signature or chain"@)
    } else if !c.blocks.contains_key(c.height) {
        Some("genesis required"@)
    } else if receipts_outcome(n.spec_chain_id(), false, batch) is Err {
        Some(receipts_outcome(n.spec_chain_id(), false, batch)->Err_0)
    } else if nonce_run(n.spec_state()@.accounts, batch) is Err {
        Some(nonce_run(n.spec_state()@.accounts, batch)->Err_0)
    } else {
        None
    }
}

/// The error that applying `batch` to the node's state stops producing with, if any,
/// once the checks before it passed: a transaction that the accounts refuse; a DAO
/// transition that fails; a block reward that cannot be paid.
pub open spec fn produce_apply_error(n: &Node, batch: Seq<TxModel>) -> Option<Seq<char>> {
    let c = n.spec_chain()@;
    let h = next_height(c.blocks[c.height].height);
    match batch_effect(n.spec_state()@.accounts, batch) {
        Err(e) => Some("state transition: "@ + crate::mempool::mempool_error_debug(e)),
        Ok(a) => match dao_run(StateModel { accounts: a, ..n.spec_state()@ }, batch, h) {
            Err(m) => Some("DAO transition: "@ + m),
            Ok(s2) => match reward_outcome(s2, h, n.spec_proposer()).1 {
                Err(m) => Some("block reward: "@ + m),
                Ok(_) => None,
            },
        },
    }
}

/// A batch takes the transactions that can pay the most: every transaction in the
/// pool's next batch can pay at least as much in fees as any validated one left out.
pub proof fn law_batch_prefers_larger_max_fee(
    pool: &MemoryPool,
    n: nat,
    batch: Seq<TxModel>,
    k: int,
    id: Seq<u8>,
)
    requires
        pool.wf(),
        pending_batch(pool@, n, batch),
        0 <= k < batch.len(),
        pool@.contains_key(id),
        pool@[id].status == TxStatus::Validated,
        forall|j: int| 0 <= j < batch.len() ==> (#[trigger] batch[j]).id != id,
    ensures
        batch[k].max_fee() >= pool@[id].tx@.max_fee(),
{
    pool.lemma_priorities();
    let p = pool@;
    assert(p.contains_key(batch[k].id));
    assert(crate::mempool::ranks_before(p[batch[k].id], p[id]));
    crate::mempool::law_priority_is_max_fee(p[batch[k].id], p[id]);
    crate::mempool::law_priority_is_max_fee(p[id], p[batch[k].id]);
}

proof fn lemma_rank_strict()
    ensures
        forall|a: PoolEntry| !#[trigger] crate::mempool::ranks_before(a, a),
        forall|a: PoolEntry, b: PoolEntry| #[trigger]
            crate::mempool::ranks_before(a, b) ==> !#[trigger] crate::mempool::ranks_before(b, a),
{
    assert forall|a: PoolEntry| !#[trigger] crate::mempool::ranks_before(a, a) by {
        crate::ordmap::lemma_bytes_lt_irrefl(a.tx.id@);
    }
    assert forall|a: PoolEntry, b: PoolEntry|
        #[trigger] crate::mempool::ranks_before(a, b) implies !#[trigger] crate::mempool::ranks_before(b, a) by {
        if crate::mempool::ranks_before(b, a) && a.priority == b.priority {
            crate::ordmap::lemma_bytes_lt_trans(a.tx.id@, b.tx.id@, a.tx.id@);
            crate::ordmap::lemma_bytes_lt_irrefl(a.tx.id@);
        }
    }
}

/// Two batches that both meet `pending_batch` agree on their first `k` transactions.
proof fn lemma_pending_agree(p: Map<Seq<u8>, PoolEntry>, n: nat, b1: Seq<TxModel>, b2: Seq<TxModel>, k: int)
    requires
        pending_batch(p, n, b1),
        pending_batch(p, n, b2),
        0 <= k <= b1.len(),
        k <= b2.len(),
    ensures
        forall|j: int| 0 <= j < k ==> b1[j] == b2[j],
    decreases k,
{
    if k > 0 {
        let k = k - 1;
        lemma_pending_agree(p, n, b1, b2, k);
        lemma_rank_strict();
        let x = b1[k];
        let y = b2[k];
        if x.id != y.id {
            assert(crate::mempool::ranks_before(p[x.id], p[y.id])) by {
                if exists|j: int| 0 <= j < b1.len() && (#[trigger] b1[j]).id == y.id {
                    let j = choose|j: int| 0 <= j < b1.len() && (#[trigger] b1[j]).id == y.id;
                    if j < k {
                        assert(b2[j] == b1[j]);
                        assert(crate::mempool::ranks_before(p[b2[j].id], p[b2[k].id]));
                    } else if j > k {
                        assert(crate::mempool::ranks_before(p[b1[k].id], p[b1[j].id]));
                    }
                } else {
                    assert(p[y.id].status == TxStatus::Validated);
                }
            }
            assert(crate::mempool::ranks_before(p[y.id], p[x.id])) by {
                if exists|j: int| 0 <= j < b2.len() && (#[trigger] b2[j]).id == x.id {
                    let j = choose|j: int| 0 <= j < b2.len() && (#[trigger] b2[j]).id == x.id;
                    if j < k {
                        assert(b1[j] == b2[j]);
                        assert(crate::mempool::ranks_before(p[b1[j].id], p[b1[k].id]));
                    } else if j > k {
                        assert(crate::mempool::ranks_before(p[b2[k].id], p[b2[j].id]));
                    }
                } else {
                    assert(p[x.id].status == TxStatus::Validated);
                }
            }
        }
        assert(b1[k] == b2[k]) by {
            assert(p[b1[k].id].tx@ == b1[k]);
            assert(p[b2[k].id].tx@ == b2[k]);
        }
    }
}

/// A pool hands out one next batch: two batches that both meet `pending_batch` are
/// the same.
pub proof fn lemma_pending_batch_unique(
    p: Map<Seq<u8>, PoolEntry>,
    n: nat,
    b1: Seq<TxModel>,
    b2: Seq<TxModel>,
)
    requires
        pending_batch(p, n, b1),
        pending_batch(p, n, b2),
    ensures
        b1 == b2,
{
    lemma_rank_strict();
    let m = if b1.len() < b2.len() { b1.len() } else { b2.len() };
    lemma_pending_agree(p, n, b1, b2, m as int);
    if b1.len() < b2.len() {
        let y = b2[m as int];
        assert(p[y.id].status == TxStatus::Validated);
        assert forall|j: int| 0 <= j < b1.len() implies (#[trigger] b1[j]).id != y.id by {
            assert(b1[j] == b2[j]);
            assert(crate::mempool::ranks_before(p[b2[j].id], p[b2[m as int].id]));
        }
    } else if b2.len() < b1.len() {
        let x = b1[m as int];
        assert(p[x.id].status == TxStatus::Validated);
        assert forall|j: int| 0 <= j < b2.len() implies (#[trigger] b2[j]).id != x.id by {
            assert(b1[j] == b2[j]);
            assert(crate::mempool::ranks_before(p[b1[j].id], p[b1[m as int].id]));
        }
    }
    assert(b1 =~= b2);
}

/// Whether producing a block from `batch` at time `t` goes through: the batch is not
/// empty, every transaction is for this chain and signed, the transactions execute,
/// their nonces follow on, the block's transition succeeds, and the node can sign,
/// append and store the block.
pub open spec fn batch_producible(n: &Node, t: u64, batch: Seq<TxModel>) -> bool {
    let c = n.spec_chain()@;
    let h = next_height(c.blocks[c.height].height);
    let tip = c.blocks[c.height].id;
    &&& batch.len() > 0
    &&& forall|i: int|
        0 <= i < batch.len() ==> (#[trigger] batch[i]).chain_id == n.spec_chain_id()
            && ed25519_accepts(batch[i].public_key, tx_signing_bytes(batch[i]), batch[i].signature)
    &&& receipts_outcome(n.spec_chain_id(), false, batch) matches Ok(x) && producible(
        n,
        h,
        tip,
        t,
        batch,
        sha256_of(x),
    )
    &&& nonce_run(n.spec_state()@.accounts, batch) is Ok
    &&& block_transition(
        n.spec_state()@,
        fresh_block(h, tip, n.spec_proposer(), t, batch, Seq::empty(), Seq::empty(), zero_sig()),
    ) is Ok
}

/// Whether producing a block of at most `max` transactions at time `t` is owed to
/// succeed: the chain has a tip, the pool's next batch can be produced, and no
/// transport is attached.
pub open spec fn produce_owed(n: &Node, t: u64, max: usize) -> bool {
    let c = n.spec_chain()@;
    &&& c.blocks.contains_key(c.height)
    &&& forall|batch: Seq<TxModel>| #[trigger]
        pending_batch(n.spec_pool()@, max as nat, batch) ==> batch_producible(n, t, batch)
    &&& !n.has_transport()
}

/// The consensus engine of a new node.
pub open spec fn initial_engine(chain_id: u64, proposer: Seq<char>) -> EngineModel {
    EngineModel {
        chain_id,
        proposer,
        height: 0,
        finalized: None,
        slashed: Map::empty(),
        votes: Map::empty(),
        vote_heights: Map::empty(),
        validators: Map::empty(),
        keys: Map::empty(),
        snapshots: Map::empty(),
    }
}

/// An empty chain.
pub open spec fn empty_chain() -> ChainModel {
    ChainModel { blocks: Map::empty(), hashes: Map::empty(), height: 0 }
}

/// The storage that opening the journals gives, once its block journal replays.
pub open spec fn opened_storage(
    blocks: Seq<Seq<char>>,
    state: Seq<Seq<char>>,
    validators: Seq<Seq<char>>,
    finality: Seq<Seq<char>>,
    slashing: Seq<Seq<char>>,
    issuance: Seq<Seq<char>>,
) -> Option<StorageModel> {
    match block_replay(
        blocks,
        blocks.len(),
        BlockReplay { expected: 0, prev: None, blocks: Map::empty() },
    ) {
        Err(_) => None,
        Ok(st) => Some(
            StorageModel {
                blocks: st.blocks,
                journal: Some(blocks),
                state_journal: Some(state),
                validator_journal: Some(validators),
                finality_journal: Some(finality),
                slashing_journal: Some(slashing),
                issuance_journal: Some(issuance),
            },
        ),
    }
}

/// Whether the journals of `m` agree with the tip of `c`, where it has one: the
/// latest state and issuance records stand at the tip's height and no validator
/// snapshot activates after the next height.
pub open spec fn tip_consistent(m: StorageModel, c: ChainModel) -> bool {
    c.blocks.contains_key(c.height) ==> {
        let tip = c.blocks[c.height];
        &&& crate::storage::recovered_state(m) matches Ok(Some((sh, _, _))) && sh == tip.height
        &&& crate::storage::recovered_issuance(m) matches Ok(Some((ih, _))) && ih == tip.height
        &&& crate::storage::recovered_history(m) matches Ok(hist) && forall|h: u64| #[trigger]
            hist.contains_key(h) ==> h <= next_height(tip.height)
    }
}

/// Whether reopening a node over storage `m` is owed to succeed: every journal
/// replays; the recovered validator snapshots restore; the latest state record holds
/// a readable DAO and the latest issued supply is within the cap; the stored blocks
/// rebuild the chain; where it has a tip, the latest state and issuance records are
/// at the tip's height, the recovered state commits to the tip's state root, and no
/// snapshot activates after the next height; and the latest finality marker names a
/// stored block at or below the chain's height.
pub open spec fn open_owed(chain_id: u64, proposer: Seq<char>, m: StorageModel) -> bool {
    let c = recovered_chain(empty_chain(), m.blocks);
    let st = crate::storage::recovered_state(m);
    let iss = crate::storage::recovered_issuance(m);
    let hist = crate::storage::recovered_history(m);
    &&& crate::storage::journals_replay(m) is Ok
    &&& st is Ok
    &&& crate::storage::recovered_slashing(m) is Ok
    &&& forall|x: OrdMap<u64, (OrdMap<String, u64>, OrdMap<String, [u8; 32]>)>| #[trigger]
        crate::storage::history_view(x) == hist->Ok_0 && x.wf() ==> restore_run(
            initial_engine(chain_id, proposer),
            x.pairs(),
        ).1 is Ok
    &&& st->Ok_0 matches Some((_, _, d)) ==> d.len() > 0 && dao_parse(d) is Ok
    &&& iss->Ok_0 matches Some((_, i)) ==> i <= MAX_SUPPLY
    &&& c.1 is Ok
    &&& c.0.blocks.contains_key(c.0.height) ==> {
        let tip = c.0.blocks[c.0.height];
        &&& st->Ok_0 matches Some((sh, a, d)) && sh == tip.height
        &&& iss->Ok_0 matches Some((ih, i)) && ih == tip.height
        &&& commits_to(
            StateModel {
                accounts: st->Ok_0->Some_0.1,
                dao: dao_parse(st->Ok_0->Some_0.2)->Ok_0,
                genesis_sealed: m.blocks.contains_key(0),
                issued: iss->Ok_0->Some_0.1,
            },
            tip.state_root,
        )
        &&& forall|h: u64| #[trigger] hist->Ok_0.contains_key(h) ==> h <= next_height(tip.height)
    }
    &&& crate::storage::recovered_finality(m)->Ok_0 matches Some((fh, fid)) ==> m.blocks.contains_key(
        fh,
    ) && m.blocks[fh].id == fid && fh <= c.0.height
}

/// Whether the chain's height is that of its tip, or zero where it has none.
pub open spec fn height_at_tip(c: ChainModel) -> bool {
    &&& c.blocks.contains_key(c.height) ==> c.blocks[c.height].height == c.height
    &&& !c.blocks.contains_key(c.height) ==> c.height == 0
}

proof fn lemma_replay_height(c: ChainModel, stored: Map<u64, BlockModel>, h: u64)
    requires
        height_at_tip(c),
    ensures
        height_at_tip(replay_from(c, stored, h).0),
    decreases u64::MAX - h,
{
    if stored.contains_key(h) && append_check(c, stored[h]) is Ok && h != u64::MAX {
        lemma_replay_height(crate::blockchain::appended(c, stored[h]), stored, (h + 1) as u64);
    }
}

/// A chain rebuilt from storage stands at the height of its tip.
proof fn lemma_recovered_height(stored: Map<u64, BlockModel>)
    ensures
        height_at_tip(recovered_chain(empty_chain(), stored).0),
{
    if stored.contains_key(0) {
        let g = stored[0];
        if !(g.height != 0 || g.tx_root != crate::blockchain::spec_tx_root(g.transactions) || g.id
            != crate::blockchain::spec_block_id(g)) {
            lemma_replay_height(crate::blockchain::appended(empty_chain(), g), stored, 1);
        }
    }
}

/// Whether a message's block or transaction stays in range.
pub open spec fn message_in_limits(m: NetworkMessage) -> bool {
    match m {
        NetworkMessage::Block(b) => block_in_limits(b@),
        NetworkMessage::Transaction(t) => tx_in_limits(t@),
        _ => true,
    }
}

/// The block that `Block::new` builds over the given header fields and transactions.
pub open spec fn fresh_block(
    h: u64,
    parent: Seq<u8>,
    proposer: Seq<char>,
    t: u64,
    txs: Seq<TxModel>,
    state: Seq<u8>,
    receipt: Seq<u8>,
    sig: Seq<u8>,
) -> BlockModel {
    let pre = BlockModel {
        id: Seq::empty(),
        height: h,
        parent_hash: parent,
        proposer,
        timestamp: t,
        transactions: txs,
        tx_root: crate::blockchain::spec_tx_root(txs),
        state_root: state,
        receipt_root: receipt,
        signature: sig,
    };
    BlockModel { id: crate::blockchain::spec_block_id(pre), ..pre }
}

/// Sixty-four zero bytes.
pub open spec fn zero_sig() -> Seq<u8> {
    Seq::new(64, |i: int| 0u8)
}

/// Whether `b` is the tip of the chain.
pub open spec fn is_tip(c: ChainModel, b: BlockModel) -> bool {
    b.height <= c.height && c.blocks.contains_key(c.height) && c.blocks[c.height].id == b.id
}

/// A node of the chain. Peers and the indexer are reached through the transport and
/// sink attached to it; votes that arrive before their block wait in a buffer.
pub struct Node {
    pub chain_id: u64,
    pub pool: MemoryPool,
    pub state: StateDb,
    pub consensus: ConsensusEngine,
    pub chain: BlockChain,
    pub storage: ChainStorage,
    proposer: String,
    indexer: Option<Arc<dyn IndexerSink>>,
    transport: Option<Arc<dyn PeerTransport>>,
    vote_signer: Option<(String, [u8; 32])>,
    pending_votes: OrdMap<[u8; 32], Vec<Vote>>,
}

impl Node {
    pub closed spec fn wf(&self) -> bool {
        &&& self.pool.wf()
        &&& self.state.wf()
        &&& self.consensus.wf()
        &&& self.chain.wf()
        &&& self.storage.wf()
        &&& self.pending_votes.wf()
        &&& self.consensus@.chain_id == self.chain_id
        &&& forall|k: Seq<u8>| #[trigger]
            self.pool@.contains_key(k) ==> tx_in_limits(self.pool@[k].tx@)
    }

    pub closed spec fn spec_chain_id(&self) -> u64 {
        self.chain_id
    }

    pub closed spec fn spec_pool(&self) -> MemoryPool {
        self.pool
    }

    pub closed spec fn spec_state(&self) -> StateDb {
        self.state
    }

    pub closed spec fn spec_consensus(&self) -> ConsensusEngine {
        self.consensus
    }

    pub closed spec fn spec_chain(&self) -> BlockChain {
        self.chain
    }

    pub closed spec fn spec_storage(&self) -> ChainStorage {
        self.storage
    }

    /// Whether two nodes agree on everything but the attached transport and sink.
    pub closed spec fn same_core(&self, o: &Node) -> bool {
        &&& self.chain_id == o.chain_id
        &&& self.pool == o.pool
        &&& self.state == o.state
        &&& self.consensus == o.consensus
        &&& self.chain == o.chain
        &&& self.storage == o.storage
        &&& self.proposer@ == o.proposer@
        &&& self.signer() == o.signer()
        &&& self.pending_votes == o.pending_votes
    }

    /// Whether `self` agrees with `o` on every part not named as changed: the pool,
    /// state, consensus engine, chain, storage and vote buffer each may change only
    /// where its flag is set.
    pub closed spec fn keeps(
        &self,
        o: &Node,
        pool: bool,
        state: bool,
        consensus: bool,
        chain: bool,
        storage: bool,
        pending: bool,
    ) -> bool {
        &&& self.chain_id == o.chain_id
        &&& self.proposer@ == o.proposer@
        &&& self.signer() == o.signer()
        &&& (self.transport is Some) == (o.transport is Some)
        &&& (self.indexer is Some) == (o.indexer is Some)
        &&& self.pool.spec_max_size() == o.pool.spec_max_size()
        &&& self.pool.spec_max_age() == o.pool.spec_max_age()
        &&& (!pool ==> self.pool == o.pool)
        &&& (!state ==> self.state == o.state)
        &&& (!consensus ==> self.consensus == o.consensus)
        &&& (!chain ==> self.chain == o.chain)
        &&& (!storage ==> self.storage == o.storage)
        &&& (!pending ==> self.pending_votes == o.pending_votes)
    }

    /// The identity the node proposes blocks as.
    pub closed spec fn spec_proposer(&self) -> Seq<char> {
        self.proposer@
    }

    /// The validator identity and seed the node signs blocks and votes with.
    pub closed spec fn signer(&self) -> Option<(Seq<char>, Seq<u8>)> {
        match self.vote_signer {
            Some((v, seed)) => Some((v@, seed@)),
            None => None,
        }
    }

    pub closed spec fn has_transport(&self) -> bool {
        self.transport is Some
    }

    pub closed spec fn has_indexer(&self) -> bool {
        self.indexer is Some
    }

    /// The buffered votes by block identifier.
    pub closed spec fn pending(&self) -> Map<Seq<u8>, Seq<Vote>> {
        crate::consensus::vote_lists(self.pending_votes@)
    }

    /// A node with an empty pool (at most 10000 transactions, each for 300 time
    /// units), an empty state, chain and storage, and no transport, sink or signer.
    pub fn new(chain_id: u64, proposer: String) -> (n: Self)
        ensures
            n.wf(),
            n.spec_chain_id() == chain_id,
            n.spec_pool()@ == Map::<Seq<u8>, crate::mempool::PoolEntry>::empty(),
            n.spec_pool().spec_max_size() == 10000,
            n.spec_pool().spec_max_age() == 300,
            n.spec_state()@.accounts == Map::<Seq<char>, crate::state::Account>::empty(),
            !n.spec_state()@.genesis_sealed,
            n.spec_state()@.issued == 0,
            n.spec_consensus()@.chain_id == chain_id,
            n.spec_consensus()@.proposer == proposer@,
            n.spec_consensus()@.height == 0,
            n.spec_consensus()@.finalized is None,
            n.spec_consensus()@.votes == Map::<Seq<u8>, Seq<Vote>>::empty(),
            n.spec_consensus()@.vote_heights == Map::<Seq<u8>, Seq<u64>>::empty(),
            n.spec_consensus()@.slashed == Map::<Seq<char>, u128>::empty(),
            n.spec_consensus()@.validators == Map::<Seq<char>, u128>::empty(),
            n.spec_consensus()@.keys == Map::<Seq<char>, [u8; 32]>::empty(),
            n.spec_consensus()@.snapshots == Map::<u64, (Map<Seq<char>, u128>, Map<Seq<char>, [u8; 32]>)>::empty(),
            n.spec_chain()@.blocks == Map::<u64, BlockModel>::empty(),
            n.spec_chain()@.hashes == Map::<Seq<u8>, u64>::empty(),
            n.spec_chain()@.height == 0,
            n.spec_storage()@.blocks == Map::<u64, BlockModel>::empty(),
            n.spec_storage()@.journal is None,
            n.spec_proposer() == proposer@,
            n.signer() is None,
            !n.has_transport(),
            !n.has_indexer(),
            n.pending() == Map::<Seq<u8>, Seq<Vote>>::empty(),
    {
        let consensus = ConsensusEngine::new(chain_id, proposer.clone());
        let n = Node {
            chain_id,
            pool: MemoryPool::new(10000, 300),
            state: StateDb::new(),
            consensus,
            chain: BlockChain::new(),
            storage: ChainStorage::new(),
            proposer,
            indexer: None,
            transport: None,
            vote_signer: None,
            pending_votes: OrdMap::new(),
        };
        assert(crate::consensus::vote_lists(n.pending_votes@) =~= Map::<Seq<u8>, Seq<Vote>>::empty());
        n
    }
}

impl Node {
    /// Attaches the sink that receives finalized blocks, or detaches it.
    pub fn set_indexer(&mut self, sink: Option<Arc<dyn IndexerSink>>)
        requires
            old(self).wf(),
        ensures
            final(self).wf(),
            final(self).same_core(old(self)),
            final(self).has_indexer() == sink is Some,
            final(self).has_transport() == old(self).has_transport(),
    {
        self.indexer = sink;
    }

    pub fn proposer_id(&self) -> (r: String)
        ensures
            r@ == self.spec_proposer(),
    {
        self.proposer.clone()
    }

    /// Attaches the transport that carries messages to peers, or detaches it.
    pub fn set_transport(&mut self, transport: Option<Arc<dyn PeerTransport>>)
        requires
            old(self).wf(),
        ensures
            final(self).wf(),
            final(self).same_core(old(self)),
            final(self).has_transport() == transport is Some,
            final(self).has_indexer() == old(self).has_indexer(),
    {
        self.transport = transport;
    }

    pub fn transport_attached(&self) -> (r: bool)
        ensures
            r == self.has_transport(),
    {
        self.transport.is_some()
    }

    /// Sets the validator identity and secret seed that the node signs blocks and
    /// votes with.
    pub fn set_vote_signer(&mut self, validator: String, seed: [u8; 32])
        requires
            old(self).wf(),
        ensures
            final(self).wf(),
            final(self).signer() == Some((validator@, seed@)),
            final(self).spec_chain_id() == old(self).spec_chain_id(),
            final(self).spec_pool() == old(self).spec_pool(),
            final(self).spec_state() == old(self).spec_state(),
            final(self).spec_consensus() == old(self).spec_consensus(),
            final(self).spec_chain() == old(self).spec_chain(),
            final(self).spec_storage() == old(self).spec_storage(),
            final(self).spec_proposer() == old(self).spec_proposer(),
            final(self).pending() == old(self).pending(),
            final(self).has_transport() == old(self).has_transport(),
            final(self).has_indexer() == old(self).has_indexer(),
    {
        self.vote_signer = Some((validator, seed));
    }

    /// Hands a message to the transport; without one there is nobody to send to.
    fn broadcast(&self, message: NetworkMessage) -> (r: Result<(), String>)
        ensures
            !self.has_transport() ==> r is Ok,
    {
        match &self.transport {
            Some(t) => t.broadcast(message),
            None => Ok(()),
        }
    }

    /// The keys of the validator snapshot that authenticates height `h`.
    fn keys_at_height(&self, h: u64) -> (r: Option<OrdMap<String, [u8; 32]>>)
        requires
            self.wf(),
        ensures
            match snapshot_at(self.consensus@, h) {
                None => r is None,
                Some((_, keys)) => r matches Some(k) && k.wf() && k@ == keys,
            },
    {
        match self.consensus.validator_snapshot_with_activation_for_height(h) {
            None => {
                proof {
                    crate::consensus::lemma_activation_none(self.consensus@.snapshots.dom(), h);
                }
                None
            },
            Some((k, _v, keys)) => {
                proof {
                    crate::consensus::lemma_activation_unique(self.consensus@.snapshots.dom(), h, k);
                }
                Some(keys)
            },
        }
    }

    /// Checks `block_fits` of the node for `b`.
    pub fn block_fits_check(&self, b: &Block) -> (r: bool)
        requires
            self.wf(),
        ensures
            r == block_fits(self, b@),
    {
        assert(tx_models(b.transactions@) =~= b@.transactions);
        block_within_limits(b) && self.state.batch_fits_check(b.transactions.as_slice())
    }

    /// Signs `block` as its proposer with the configured seed, which must be the key
    /// the validator has at the block's height, and recomputes its identifier.
    fn sign_block(&self, block: Block) -> (r: Result<Block, String>)
        requires
            self.wf(),
        ensures
            match sign_check(self.consensus@, self.signer(), block@) {
                Err(m) => r matches Err(e) && e@ == m,
                Ok(seed) => r matches Ok(nb) && nb@ == signed_block(
                    block@,
                    ed25519_signature_of(seed, block_sig_bytes(self.chain_id, block@)),
                ),
            },
    {
        let (validator, seed) = match &self.vote_signer {
            None => return Err("proposer signing key is not configured".to_string()),
            Some((v, s)) => (v.clone(), *s),
        };
        if !str_equal(validator.as_str(), block.proposer.as_str()) {
            return Err("configured validator is not the block proposer".to_string());
        }
        let public_key = ed25519_public_key(&seed);
        let keys = match self.keys_at_height(block.height) {
            None => return Err("validator snapshot is unavailable for block height".to_string()),
            Some(k) => k,
        };
        let registered = match keys.get(&validator) {
            None => return Err("block proposer is not registered at block height".to_string()),
            Some(k) => *k,
        };
        if !bytes_equal(registered.as_slice(), public_key.as_slice()) {
            return Err(
                "proposer signing key does not match validator identity at block height".to_string(),
            );
        }
        let msg = block_signing_bytes(self.chain_id, &block);
        let signature = ed25519_sign(&seed, msg.as_slice());
        let mut b = block;
        b.signature = signature;
        b.id = block_id(
            b.height,
            b.parent_hash,
            b.proposer.as_str(),
            b.timestamp,
            b.tx_root,
            b.state_root,
            b.receipt_root,
            b.signature,
        );
        proof {
            assert(b@.transactions == block@.transactions);
        }
        Ok(b)
    }
}

impl Node {
    /// Admits a transaction of this chain with a valid signature to the pool and
    /// validates it there; gives its identifier.
    pub fn submit(&mut self, tx: Transaction, now: u64) -> (r: Result<[u8; 32], MempoolError>)
        requires
            old(self).wf(),
            tx_in_limits(tx@),
        ensures
            final(self).wf(),
            final(self).keeps(old(self), true, false, false, false, false, false),
            ({
                let o = submit_outcome(
                    old(self).spec_chain_id(),
                    old(self).spec_pool()@,
                    old(self).spec_pool().spec_max_size(),
                    old(self).spec_pool().spec_max_age(),
                    tx,
                    now,
                );
                &&& final(self).spec_pool()@ == o.0
                &&& match o.1 {
                    Ok(id) => r matches Ok(x) && x@ == id,
                    Err(e) => r == Err::<[u8; 32], MempoolError>(e),
                }
            }),
    {
        if tx.chain_id != self.chain_id {
            return Err(MempoolError::WrongChain);
        }
        let id = tx.id;
        let msg = signing_bytes(&tx);
        if !ed25519_verify(tx.public_key.as_slice(), msg.as_slice(), &tx.signature) {
            return Err(MempoolError::InvalidSignature);
        }
        let ghost p0 = self.pool@;
        let ghost t = tx;
        self.pool.add(tx, now)?;
        proof {
            assert forall|k: Seq<u8>| #[trigger] self.pool@.contains_key(k) implies tx_in_limits(
                self.pool@[k].tx@,
            ) by {
                if k != id@ {
                    assert(p0.contains_key(k));
                }
            }
        }
        let ghost p1 = self.pool@;
        match self.pool.validate_tx(&id, now) {
            Err(e) => {
                self.pool.remove(&id);
                proof {
                    assert(self.pool@ =~= p0);
                }
                return Err(e);
            },
            Ok(()) => {},
        }
        proof {
            assert forall|k: Seq<u8>| #[trigger] self.pool@.contains_key(k) implies tx_in_limits(
                self.pool@[k].tx@,
            ) by {
                if k != id@ {
                    assert(p1.contains_key(k));
                }
            }
        }
        Ok(id)
    }

    /// Submits a transaction and hands it to the peers.
    pub fn submit_and_broadcast(&mut self, tx: Transaction, now: u64) -> (r: Result<
        [u8; 32],
        MempoolError,
    >)
        requires
            old(self).wf(),
            tx_in_limits(tx@),
        ensures
            final(self).wf(),
            final(self).keeps(old(self), true, false, false, false, false, false),
            ({
                let o = submit_outcome(
                    old(self).spec_chain_id(),
                    old(self).spec_pool()@,
                    old(self).spec_pool().spec_max_size(),
                    old(self).spec_pool().spec_max_age(),
                    tx,
                    now,
                );
                &&& final(self).spec_pool()@ == o.0
                &&& match o.1 {
                    Ok(id) => (r is Ok ==> (r matches Ok(x) && x@ == id)) && (r is Err ==> r
                        == Err::<[u8; 32], MempoolError>(MempoolError::TxNotFound)) && (
                    !old(self).has_transport() ==> r is Ok),
                    Err(e) => r == Err::<[u8; 32], MempoolError>(e),
                }
            }),
    {
        let copy = tx.duplicate();
        let id = self.submit(tx, now)?;
        match self.broadcast(NetworkMessage::Transaction(copy)) {
            Err(_) => Err(MempoolError::TxNotFound),
            Ok(()) => Ok(id),
        }
    }

    /// Records a vote for a stored block, checked against the validator set of that
    /// block's height.
    pub fn submit_vote(&mut self, vote: Vote) -> (r: Result<(), String>)
        requires
            old(self).wf(),
        ensures
            final(self).wf(),
            final(self).keeps(old(self), false, false, true, false, false, false),
            (forall|h: u64| #[trigger]
                old(self).spec_storage()@.blocks.contains_key(h)
                    ==> old(self).spec_storage()@.blocks[h].id != vote.block@) ==> (r matches Err(
                e,
            ) && e@ == "vote references unknown block"@) && final(self).spec_consensus()
                == old(self).spec_consensus(),
            !(forall|h: u64| #[trigger]
                old(self).spec_storage()@.blocks.contains_key(h)
                    ==> old(self).spec_storage()@.blocks[h].id != vote.block@) ==> exists|h: u64|
                {
                    &&& #[trigger] old(self).spec_storage()@.blocks.contains_key(h)
                    &&& old(self).spec_storage()@.blocks[h].id == vote.block@
                    &&& final(self).spec_consensus()@ == vote_outcome(
                        old(self).spec_consensus()@,
                        vote,
                        h,
                    ).0
                    &&& match vote_outcome(old(self).spec_consensus()@, vote, h).1 {
                        Ok(_) => r is Ok,
                        Err(m) => r matches Err(e) && e@ == m,
                    }
                },
    {
        let block = match self.storage.find_block_by_id(vote.block) {
            None => return Err("vote references unknown block".to_string()),
            Some(b) => b,
        };
        let h = block.height;
        self.consensus.vote_at_height(vote, h)
    }

    /// Records a vote and hands it to the peers.
    pub fn submit_vote_and_broadcast(&mut self, vote: Vote) -> (r: Result<(), String>)
        requires
            old(self).wf(),
        ensures
            final(self).wf(),
            final(self).keeps(old(self), false, false, true, false, false, false),
            (forall|h: u64| #[trigger]
                old(self).spec_storage()@.blocks.contains_key(h)
                    ==> old(self).spec_storage()@.blocks[h].id != vote.block@) ==> (r matches Err(
                e,
            ) && e@ == "vote references unknown block"@) && final(self).spec_consensus()
                == old(self).spec_consensus(),
            !(forall|h: u64| #[trigger]
                old(self).spec_storage()@.blocks.contains_key(h)
                    ==> old(self).spec_storage()@.blocks[h].id != vote.block@) ==> exists|h: u64|
                {
                    &&& #[trigger] old(self).spec_storage()@.blocks.contains_key(h)
                    &&& old(self).spec_storage()@.blocks[h].id == vote.block@
                    &&& final(self).spec_consensus()@ == vote_outcome(
                        old(self).spec_consensus()@,
                        vote,
                        h,
                    ).0
                    &&& match vote_outcome(old(self).spec_consensus()@, vote, h).1 {
                        Ok(_) => !old(self).has_transport() ==> r is Ok,
                        Err(m) => r matches Err(e) && e@ == m,
                    }
                },
    {
        let copy = copy_vote(&vote);
        self.submit_vote(vote)?;
        self.broadcast(NetworkMessage::Vote(copy))
    }

    /// What finalizing `b` did to `o`: the finality record is written and the engine
    /// marks the block final, each refusal stopping the rest; the indexer's answer
    /// may still be an error once both are done.
    pub open spec fn finalized_as(&self, o: &Node, b: &Block, r: Result<bool, String>) -> bool {
        let (self_, old_) = (self, o);
        match finality_commit_check(old_.spec_storage()@, b.height, b.id@) {
                Err(e) => (r matches Err(x) && x@ == e) && self_.spec_storage()@
                    == old_.spec_storage()@ && self_.spec_consensus()@
                    == old_.spec_consensus()@,
                Ok(fresh) => {
                    &&& self_.spec_storage()@ == if fresh {
                        StorageModel {
                            finality_journal: crate::storage::appended(
                                old_.spec_storage()@.finality_journal,
                                hex_text(finality_record(b.height, b.id@)),
                            ),
                            ..old_.spec_storage()@
                        }
                    } else {
                        old_.spec_storage()@
                    }
                    &&& match finalize_outcome(old_.spec_consensus()@, b.height, b.id).1 {
                        Err(m) => (r matches Err(e) && e@ == m) && self_.spec_consensus()@
                            == old_.spec_consensus()@,
                        Ok(_) => self_.spec_consensus()@ == finalize_outcome(
                            old_.spec_consensus()@,
                            b.height,
                            b.id,
                        ).0 && (r is Ok ==> r == Ok::<bool, String>(true)) && (
                        !old_.has_indexer() ==> r == Ok::<bool, String>(true)),
                    }
                },
            }
    }

    /// Persists and marks finality of the tip `b`, then hands it to the indexer.
    fn mark_final(&mut self, b: &Block) -> (r: Result<bool, String>)
        requires
            old(self).wf(),
        ensures
            final(self).wf(),
            final(self).keeps(old(self), false, false, true, false, true, false),
            final(self).finalized_as(old(self), b, r),
    {
        self.storage.commit_finalized(b.height, b.id)?;
        self.consensus.mark_finalized(b.height, b.id)?;
        match &self.indexer {
            Some(sink) => sink.ingest_finalized(b)?,
            None => {},
        }
        Ok(true)
    }

    /// Whether `b` is the tip of the chain.
    fn tip_is(&self, b: &Block) -> (r: bool)
        requires
            self.wf(),
        ensures
            r == is_tip(self.chain@, b@),
    {
        if b.height > self.chain.height() {
            return false;
        }
        match self.chain.last() {
            None => false,
            Some(last) => bytes_equal(last.id.as_slice(), b.id.as_slice()),
        }
    }

    /// Finalizes the tip `b` once two thirds of the stake of its height's validator
    /// set approve it: `Ok(false)` while they do not.
    pub fn finalize_weighted(&mut self, b: &Block) -> (r: Result<bool, String>)
        requires
            old(self).wf(),
        ensures
            final(self).wf(),
            final(self).keeps(old(self), false, false, true, false, true, false),
            !weighted_final(old(self).spec_consensus()@, b.id@, b.height) ==> r == Ok::<bool, String>(
                false,
            ) && final(self).same_core(old(self)),
            weighted_final(old(self).spec_consensus()@, b.id@, b.height) && !is_tip(
                old(self).spec_chain()@,
                b@,
            ) ==> (r matches Err(e) && e@ == "can only finalize the current canonical tip"@)
                && final(self).same_core(old(self)),
            weighted_final(old(self).spec_consensus()@, b.id@, b.height) && is_tip(
                old(self).spec_chain()@,
                b@,
            ) ==> final(self).finalized_as(old(self), b, r),
    {
        if !self.consensus.weighted_finality_at_height(&b.id, b.height) {
            return Ok(false);
        }
        if !self.tip_is(b) {
            return Err("can only finalize the current canonical tip".to_string());
        }
        self.mark_final(b)
    }

    /// Finalizes the tip `b` once `quorum` distinct validators approve it: `Ok(false)`
    /// while they do not.
    pub fn finalize(&mut self, b: &Block, quorum: usize) -> (r: Result<bool, String>)
        requires
            old(self).wf(),
        ensures
            final(self).wf(),
            final(self).keeps(old(self), false, false, true, false, true, false),
            quorum == 0 ==> (r matches Err(e) && e@ == "quorum must be non-zero"@) && final(self).same_core(old(self)),
            quorum > 0 && !count_final(old(self).spec_consensus()@, b.id@, b.height, quorum) ==> r
                == Ok::<bool, String>(false) && final(self).same_core(old(self)),
            quorum > 0 && count_final(old(self).spec_consensus()@, b.id@, b.height, quorum) && !is_tip(
                old(self).spec_chain()@,
                b@,
            ) ==> (r matches Err(e) && e@ == "can only finalize the current canonical tip"@)
                && final(self).same_core(old(self)),
            quorum > 0 && count_final(old(self).spec_consensus()@, b.id@, b.height, quorum) && is_tip(
                old(self).spec_chain()@,
                b@,
            ) ==> final(self).finalized_as(old(self), b, r),
    {
        if quorum == 0 {
            return Err("quorum must be non-zero".to_string());
        }
        if !self.consensus.finality_at_height(&b.id, b.height, quorum) {
            return Ok(false);
        }
        if !self.tip_is(b) {
            return Err("can only finalize the current canonical tip".to_string());
        }
        self.mark_final(b)
    }
}

impl Node {
    /// Stores the registry with its keys as the validator snapshot activating at `h`
    /// and activates it in the consensus engine.
    fn persist_validator_snapshot(&mut self, h: u64) -> (r: Result<(), String>)
        requires
            old(self).wf(),
        ensures
            final(self).wf(),
            final(self).keeps(old(self), false, false, true, false, true, false),
            final(self).persisted_as(old(self), h, r),
    {
        let (v, k) = self.consensus.validator_snapshot_with_keys()?;
        let n = match v.narrow_u64() {
            None => return Err("validator stake exceeds the storable range".to_string()),
            Some(n) => n,
        };
        proof {
            lemma_narrow_keys(v, n);
            assert(crate::storage::validators_complete(n, k));
            assert(crate::storage::validator_record(h, n, k) == registry_record(
                h,
                v.pairs(),
                k@,
            ));
        }
        self.storage.commit_validators(h, &n, &k)?;
        self.consensus.restore_validator_snapshot(h, v, k)
    }

    /// What storing and activating the registry as the snapshot of height `h` did to
    /// `o`: the record is appended to the validator journal and the snapshot
    /// activated, or, refused, nothing changed.
    pub open spec fn persisted_as(&self, o: &Node, h: u64, r: Result<(), String>) -> bool {
        let e = o.spec_consensus()@;
        let p = persist_outcome(o.spec_storage()@, e, o.spec_consensus().validator_list(), h);
        &&& self.spec_storage()@ == p.0
        &&& self.spec_consensus().validator_list() == o.spec_consensus().validator_list()
        &&& match p.1 {
            Ok(_) => r is Ok && self.spec_consensus()@ == activated(e, h),
            Err(m) => (r matches Err(x) && x@ == m) && self.spec_consensus()@ == e,
        }
    }

    /// Registers a validator with its stake; once every validator has a key, the
    /// registry is stored and activated as the snapshot of `activation_of`.
    pub fn register_validator(&mut self, address: String, stake: u64) -> (r: Result<(), String>)
        requires
            old(self).wf(),
        ensures
            final(self).wf(),
            final(self).keeps(old(self), false, false, true, false, true, false),
            address@.len() == 0 || stake == 0 ==> (r matches Err(e) && e@
                == "validator address and stake are required"@) && final(self).spec_consensus()@
                == old(self).spec_consensus()@ && final(self).spec_storage()
                == old(self).spec_storage(),
            !(address@.len() == 0 || stake == 0) ==> final(self).registry_changed_as(
                old(self),
                EngineModel {
                    validators: old(self).spec_consensus()@.validators.insert(
                        address@,
                        stake as u128,
                    ),
                    ..old(self).spec_consensus()@
                },
                activation_of(old(self).spec_consensus()@),
                r,
            ),
    {
        let h = self.consensus.height();
        let activation = if self.consensus.has_validator_snapshot(h) {
            h.saturating_add(1)
        } else {
            h
        };
        self.consensus.register_validator(address, stake as u128)?;
        self.persist_if_complete(activation)
    }

    /// What a registry change to `e1` did to `o`: where every validator of `e1` has a
    /// key, the registry is stored and activated at `h`; else nothing more happens.
    pub open spec fn registry_changed_as(
        &self,
        o: &Node,
        e1: EngineModel,
        h: u64,
        r: Result<(), String>,
    ) -> bool {
        if complete_bindings(e1.validators, e1.keys) {
            let p = persist_outcome(o.spec_storage()@, e1, self.spec_consensus().validator_list(), h);
            &&& self.spec_storage()@ == p.0
            &&& match p.1 {
                Ok(_) => r is Ok && self.spec_consensus()@ == activated(e1, h),
                Err(m) => (r matches Err(x) && x@ == m) && self.spec_consensus()@ == e1,
            }
        } else {
            r is Ok && self.spec_consensus()@ == e1 && self.spec_storage() == o.spec_storage()
        }
    }

    /// Stores and activates the registry at `h` where every validator has a key.
    fn persist_if_complete(&mut self, h: u64) -> (r: Result<(), String>)
        requires
            old(self).wf(),
        ensures
            final(self).wf(),
            final(self).keeps(old(self), false, false, true, false, true, false),
            final(self).registry_changed_as(old(self), old(self).spec_consensus()@, h, r),
    {
        match self.consensus.validator_snapshot_with_keys() {
            Ok(_) => self.persist_validator_snapshot(h),
            Err(_) => Ok(()),
        }
    }

    /// Fixes the registry, with every validator's key, as the snapshot of the current
    /// height, and stores it.
    pub fn finalize_validator_snapshot(&mut self) -> (r: Result<(), String>)
        requires
            old(self).wf(),
        ensures
            final(self).wf(),
            final(self).keeps(old(self), false, false, true, false, true, false),
            ({
                let e0 = old(self).spec_consensus()@;
                if !complete_bindings(e0.validators, e0.keys) {
                    &&& r matches Err(e) && e@
                        == "validator registry contains an identity without a public key"@
                    &&& final(self).spec_consensus()@ == e0
                    &&& final(self).spec_storage() == old(self).spec_storage()
                } else {
                    let o = persist_outcome(
                        old(self).spec_storage()@,
                        e0,
                        old(self).spec_consensus().validator_list(),
                        e0.height,
                    );
                    &&& final(self).spec_consensus()@ == activated(e0, e0.height)
                    &&& final(self).spec_storage()@ == o.0
                    &&& match o.1 {
                        Ok(_) => r is Ok,
                        Err(m) => r matches Err(e) && e@ == m,
                    }
                }
            }),
    {
        let height = self.consensus.height();
        let (v, k) = self.consensus.validator_snapshot_with_keys()?;
        let ghost list = v.pairs();
        let n = v.narrow_u64();
        let keys = k.duplicate();
        self.consensus.restore_validator_snapshot(height, v, k)?;
        let n = match n {
            None => return Err("validator stake exceeds the storable range".to_string()),
            Some(n) => n,
        };
        proof {
            lemma_narrow_keys(v, n);
            assert(crate::storage::validators_complete(n, keys));
            assert(crate::storage::validator_record(height, n, keys) == registry_record(
                height,
                list,
                keys@,
            ));
        }
        self.storage.commit_validators(height, &n, &keys)
    }

    /// Binds a validator's public key; once every validator has a key, the registry is
    /// stored and activated as the snapshot of `activation_of`.
    pub fn register_validator_key(&mut self, address: &str, public_key: [u8; 32]) -> (r: Result<
        (),
        String,
    >)
        requires
            old(self).wf(),
        ensures
            final(self).wf(),
            final(self).keeps(old(self), false, false, true, false, true, false),
            ({
                let e0 = old(self).spec_consensus()@;
                if !e0.validators.contains_key(address@) || e0.validators[address@] == 0 {
                    &&& r matches Err(e) && e@ == "validator must be registered before its signing key"@
                    &&& final(self).spec_consensus()@ == e0
                    &&& final(self).spec_storage() == old(self).spec_storage()
                } else if !crate::crypto::ed25519_key_valid(public_key@) {
                    &&& r matches Err(e) && e@ == "invalid validator public key"@
                    &&& final(self).spec_consensus()@ == e0
                    &&& final(self).spec_storage() == old(self).spec_storage()
                } else {
                    final(self).registry_changed_as(
                        old(self),
                        crate::consensus::key_bound(e0, address@, public_key),
                        activation_of(e0),
                        r,
                    )
                }
            }),
    {
        let h = self.consensus.height();
        let activation = if self.consensus.has_validator_snapshot(h) {
            h.saturating_add(1)
        } else {
            h
        };
        self.consensus.register_validator_key(address, public_key)?;
        self.persist_if_complete(activation)
    }

    /// Removes a validator and its key, and stores and activates the registry as the
    /// snapshot of the next height.
    pub fn unregister_validator(&mut self, address: &str) -> (r: Result<(), String>)
        requires
            old(self).wf(),
        ensures
            final(self).wf(),
            final(self).keeps(old(self), false, false, true, false, true, false),
            ({
                let e0 = old(self).spec_consensus()@;
                let e1 = EngineModel {
                    validators: e0.validators.remove(address@),
                    keys: e0.keys.remove(address@),
                    ..e0
                };
                let o = persist_outcome(
                    old(self).spec_storage()@,
                    e1,
                    final(self).spec_consensus().validator_list(),
                    next_height(e0.height),
                );
                &&& final(self).spec_storage()@ == o.0
                &&& match o.1 {
                    Ok(_) => r is Ok && final(self).spec_consensus()@ == activated(
                        e1,
                        next_height(e0.height),
                    ),
                    Err(m) => (r matches Err(e) && e@ == m) && final(self).spec_consensus()@ == e1,
                }
            }),
    {
        self.consensus.unregister_validator(address);
        let h = self.consensus.height().saturating_add(1);
        self.persist_validator_snapshot(h)
    }

    /// Slashes a validator on evidence at or below the chain's height, records the
    /// slashing, and stores and activates the reduced registry as the snapshot of the
    /// next height; gives the stake taken.
    pub fn slash_validator(&mut self, evidence: SlashingEvidence, penalty: u64) -> (r: Result<
        u64,
        String,
    >)
        requires
            old(self).wf(),
        ensures
            final(self).wf(),
            final(self).keeps(old(self), false, false, true, false, true, false),
            evidence.height > old(self).spec_chain()@.height ==> (r matches Err(e) && e@
                == "slashing evidence is above current chain height"@) && final(self).same_core(old(self)),
            evidence.height <= old(self).spec_chain()@.height ==> ({
                let so = slash_outcome(old(self).spec_consensus()@, evidence, penalty as u128);
                match so.1 {
                    Err(m) => (r matches Err(e) && e@ == m) && final(self).spec_storage()
                        == old(self).spec_storage() && final(self).spec_consensus()@ == so.0,
                    Ok(applied) => if applied == 0 {
                        (r matches Err(e) && e@ == "slashing penalty is zero"@) && final(self).spec_storage()
                            == old(self).spec_storage() && final(self).spec_consensus()@ == so.0
                    } else {
                        let s1 = StorageModel {
                            slashing_journal: crate::storage::appended(
                                old(self).spec_storage()@.slashing_journal,
                                hex_text(
                                    crate::storage::slashing_record(
                                        evidence.height,
                                        evidence.validator@,
                                        sha256_of(crate::consensus::evidence_id_bytes(evidence)),
                                        applied as u64,
                                    ),
                                ),
                            ),
                            ..old(self).spec_storage()@
                        };
                        let o = persist_outcome(
                            s1,
                            so.0,
                            final(self).spec_consensus().validator_list(),
                            next_height(so.0.height),
                        );
                        &&& final(self).spec_storage()@ == o.0
                        &&& match o.1 {
                            Ok(_) => r == Ok::<u64, String>(applied as u64)
                                && final(self).spec_consensus()@ == activated(
                                so.0,
                                next_height(so.0.height),
                            ),
                            Err(m) => (r matches Err(e) && e@ == m) && final(self).spec_consensus()@
                                == so.0,
                        }
                    },
                }
            }),
    {
        if evidence.height > self.chain.height() {
            return Err("slashing evidence is above current chain height".to_string());
        }
        let id = evidence.id();
        let h = evidence.height;
        let validator = evidence.validator.clone();
        let applied = self.consensus.slash(evidence, penalty as u128)?;
        if applied == 0 {
            return Err("slashing penalty is zero".to_string());
        }
        let _ = self.storage.commit_slashing(h, validator.as_str(), id, applied as u64);
        let next = self.consensus.height().saturating_add(1);
        self.persist_validator_snapshot(next)?;
        Ok(applied as u64)
    }
}

impl Node {
    /// The number of buffered votes, or 4096 where there are at least that many.
    fn buffered_votes(&self) -> (n: usize)
        requires
            self.wf(),
        ensures
            n >= 4096 <==> buffered_count(self.pending_votes.pairs()) >= 4096,
    {
        let ghost l = self.pending_votes.pairs();
        let m = self.pending_votes.len();
        let mut total: usize = 0;
        let mut i: usize = 0;
        assert(l.take(0) =~= Seq::<(Seq<u8>, Vec<Vote>)>::empty());
        while i < m
            invariant
                l == self.pending_votes.pairs(),
                m == l.len(),
                i <= m,
                total < 4096,
                total == buffered_count(l.take(i as int)),
            decreases m - i,
        {
            let k = self.pending_votes.value_at(i).len();
            proof {
                assert(l.take(i as int + 1).drop_last() =~= l.take(i as int));
            }
            if k >= 4096 - total {
                proof {
                    lemma_count_grows(l, i as int + 1);
                }
                return 4096;
            }
            total = total + k;
            i = i + 1;
        }
        assert(l.take(m as int) =~= l);
        total
    }

    /// Buffers a vote whose block the node does not know yet: its signature must
    /// verify, the buffer holds at most 4096 votes and 128 per block, and the same
    /// vote again changes nothing.
    fn queue_pending_vote(&mut self, vote: Vote) -> (r: Result<(), String>)
        requires
            old(self).wf(),
        ensures
            final(self).wf(),
            final(self).keeps(old(self), false, false, false, false, false, true),
            ({
                let e = old(self).spec_consensus()@;
                let p = old(self).pending();
                let list = if p.contains_key(vote.block@) {
                    p[vote.block@]
                } else {
                    Seq::<Vote>::empty()
                };
                if !crate::crypto::ed25519_key_valid(vote.public_key@) {
                    (r matches Err(x) && x@ == "invalid vote public key"@) && final(self).pending() == p
                } else if !ed25519_accepts(
                    vote.public_key@,
                    vote_bytes(e.chain_id, vote),
                    vote.signature@,
                ) {
                    (r matches Err(x) && x@ == "invalid vote signature"@) && final(self).pending() == p
                } else if buffered_count(old(self).pending_votes.pairs()) >= 4096 {
                    (r matches Err(x) && x@ == "pending vote buffer is full"@) && final(self).pending()
                        == p
                } else if holds_same_vote(list, vote) {
                    r is Ok && final(self).pending() == p
                } else if list.len() >= 128 {
                    (r matches Err(x) && x@ == "pending vote buffer for block is full"@) && final(self).pending() == p
                } else {
                    r is Ok && final(self).pending() == p.insert(vote.block@, list.push(vote))
                }
            }),
    {
        self.consensus.verify_vote_signature(&vote)?;
        if self.buffered_votes() >= 4096 {
            return Err("pending vote buffer is full".to_string());
        }
        let ghost p0 = self.pending_votes@;
        let mut list = match self.pending_votes.remove(&vote.block) {
            Some(l) => l,
            None => Vec::new(),
        };
        let ghost l0 = list@;
        if holds_vote(&list, &vote) {
            self.pending_votes.insert(vote.block, list);
            proof {
                assert(crate::consensus::vote_lists(self.pending_votes@) =~= crate::consensus::vote_lists(p0));
            }
            return Ok(());
        }
        if list.len() >= 128 {
            self.pending_votes.insert(vote.block, list);
            proof {
                assert(crate::consensus::vote_lists(self.pending_votes@) =~= crate::consensus::vote_lists(p0));
            }
            return Err("pending vote buffer for block is full".to_string());
        }
        let key = vote.block;
        let ghost v = vote;
        list.push(vote);
        self.pending_votes.insert(key, list);
        proof {
            assert(crate::consensus::vote_lists(self.pending_votes@) =~= crate::consensus::vote_lists(
                p0,
            ).insert(key@, l0.push(v)));
        }
        Ok(())
    }

    /// Takes the buffered votes of a block out of the buffer.
    fn take_pending_votes(&mut self, id: &[u8; 32]) -> (r: Vec<Vote>)
        requires
            old(self).wf(),
        ensures
            final(self).wf(),
            final(self).keeps(old(self), false, false, false, false, false, true),
            final(self).pending() == old(self).pending().remove(id@),
            r@ == if old(self).pending().contains_key(id@) {
                old(self).pending()[id@]
            } else {
                Seq::<Vote>::empty()
            },
    {
        let ghost p0 = self.pending_votes@;
        let r = match self.pending_votes.remove(id) {
            Some(l) => l,
            None => Vec::new(),
        };
        proof {
            assert(crate::consensus::vote_lists(self.pending_votes@) =~= crate::consensus::vote_lists(
                p0,
            ).remove(id@));
        }
        r
    }

    /// Puts back the accounts, DAO and issued supply taken before a block was applied.
    fn rollback(&mut self, accounts: OrdMap<String, Account>, dao: &Vec<u8>, issued: u128)
        requires
            old(self).wf(),
            accounts.wf(),
            issued <= MAX_SUPPLY,
        ensures
            final(self).wf(),
            final(self).keeps(old(self), false, true, false, false, false, false),
            final(self).spec_state()@.accounts == accounts@,
            final(self).spec_state()@.issued == issued,
            final(self).spec_state()@.genesis_sealed == old(self).spec_state()@.genesis_sealed,
            final(self).spec_state()@.dao == crate::state::reloaded(
                dao@,
                old(self).spec_state()@.dao,
            ),
    {
        let _ = self.state.restore_dao(dao.as_slice());
        self.state.restore(accounts);
        let _ = self.state.restore_issued_base_units(issued);
    }
}

/// Checks `holds_same_vote`.
fn holds_vote(list: &Vec<Vote>, vote: &Vote) -> (r: bool)
    ensures
        r == holds_same_vote(list@, *vote),
{
    let mut j: usize = 0;
    while j < list.len()
        invariant
            j <= list@.len(),
            forall|i: int|
                0 <= i < j ==> !((#[trigger] list@[i]).voter@ == vote.voter@ && list@[i].approve
                    == vote.approve && list@[i].signature == vote.signature && list@[i].public_key
                    == vote.public_key),
        decreases list@.len() - j,
    {
        let existing = &list[j];
        if str_equal(existing.voter.as_str(), vote.voter.as_str()) && existing.approve
            == vote.approve && bytes_equal(existing.signature.as_slice(), vote.signature.as_slice())
            && bytes_equal(existing.public_key.as_slice(), vote.public_key.as_slice()) {
            proof {
                assert(existing.signature@ =~= vote.signature@);
                assert(existing.public_key@ =~= vote.public_key@);
                assert(existing.signature == vote.signature);
                assert(existing.public_key == vote.public_key);
            }
            return true;
        }
        j = j + 1;
    }
    false
}

/// The buffer count over a prefix is at most the count over the whole.
proof fn lemma_count_grows(l: Seq<(Seq<u8>, Vec<Vote>)>, i: int)
    requires
        0 <= i <= l.len(),
    ensures
        buffered_count(l.take(i)) <= buffered_count(l),
    decreases l.len() - i,
{
    if i < l.len() {
        lemma_count_grows(l, i + 1);
        assert(l.take(i + 1).drop_last() =~= l.take(i));
    } else {
        assert(l.take(i) =~= l);
    }
}

impl Node {
    /// Signs an approving vote for `b` with the configured signer, if there is one,
    /// and hands it to the peers; the node's own vote counts once a peer's copy of it
    /// comes back like any other vote.
    fn vote_for_block(&self, b: &Block) -> (r: Result<(), String>)
        requires
            self.wf(),
        ensures
            self.signer() is None || !self.has_transport() ==> r is Ok,
    {
        let (validator, seed) = match &self.vote_signer {
            None => return Ok(()),
            Some((v, s)) => (v.clone(), *s),
        };
        let public_key = ed25519_public_key(&seed);
        let mut vote = Vote {
            block: b.id,
            voter: validator,
            approve: true,
            signature: [0u8; 64],
            public_key,
        };
        let msg = vote_signing_bytes(self.chain_id, &vote);
        vote.signature = ed25519_sign(&seed, msg.as_slice());
        self.broadcast(NetworkMessage::Vote(vote))
    }

    /// Feeds the votes buffered for `b` to the engine, then finalizes `b` if they
    /// bring two thirds of its height's stake.
    fn replay_pending_votes(&mut self, b: &Block) -> (r: Result<(), String>)
        requires
            old(self).wf(),
        ensures
            final(self).wf(),
            final(self).keeps(old(self), false, false, true, false, true, true),
            final(self).pending() == old(self).pending().remove(b.id@),
            votes_final_only(old(self).spec_consensus()@, final(self).spec_consensus()@),
            finality_only(old(self).spec_storage()@, final(self).spec_storage()@),
            !old(self).pending().contains_key(b.id@) && !old(self).spec_consensus()@.votes.contains_key(
                b.id@,
            ) ==> r is Ok && final(self).spec_consensus() == old(self).spec_consensus()
                && final(self).spec_storage() == old(self).spec_storage(),
            is_tip(old(self).spec_chain()@, b@) && r is Ok && weighted_final(
                final(self).spec_consensus()@,
                b.id@,
                b.height,
            ) ==> final(self).spec_consensus()@.finalized == Some((b.height, b.id)),
    {
        let votes = self.take_pending_votes(&b.id);
        let ghost n1 = *self;
        let mut i: usize = 0;
        while i < votes.len()
            invariant
                self.wf(),
                n1.wf(),
                self.keeps(&n1, false, false, true, false, false, false),
                votes_final_only(n1.consensus@, self.consensus@),
                i <= votes@.len(),
                i == 0 ==> self.consensus == n1.consensus,
            decreases votes@.len() - i,
        {
            let v = copy_vote(&votes[i]);
            let _ = self.submit_vote(v);
            i = i + 1;
        }
        if self.consensus.weighted_finality_at_height(&b.id, b.height) {
            let _ = self.finalize_weighted(b)?;
        }
        Ok(())
    }
}

impl Node {
    /// What importing `b` did to `o` once `b` passed the pre-checks: either it was
    /// refused and the node is as before, the state's DAO read back from its snapshot
    /// (the same DAO wherever it fits its encoding), or `b` became the tip, stored with
    /// the state it commits to.
    pub open spec fn imported_as(&self, o: &Node, b: BlockModel, r: Result<(), String>) -> bool {
        ||| {
            &&& r is Err
            &&& self.spec_chain() == o.spec_chain()
            &&& self.spec_storage()@ == o.spec_storage()@
            &&& self.spec_consensus() == o.spec_consensus()
            &&& self.spec_pool() == o.spec_pool()
            &&& self.pending() == o.pending()
            &&& self.spec_state()@.accounts == o.spec_state()@.accounts
            &&& self.spec_state()@.issued == o.spec_state()@.issued
            &&& self.spec_state()@.genesis_sealed == o.spec_state()@.genesis_sealed
            &&& o.spec_state().dao_fits() ==> self.spec_state()@ == o.spec_state()@
        }
        ||| {
            &&& self.spec_chain()@ == crate::blockchain::appended(o.spec_chain()@, b)
            &&& self.spec_storage()@.blocks.contains_key(b.height)
            &&& self.spec_storage()@.blocks[b.height].id == b.id
            &&& state_root_of(self.spec_state()) == b.state_root
            &&& self.spec_consensus()@.height == b.height
        }
    }

    /// The checks `import_precheck` describes.
    fn import_checks(&self, b: &Block) -> (r: Result<(), String>)
        requires
            self.wf(),
        ensures
            match import_precheck(self.chain_id, self.consensus@, self.chain@, b@) {
                Ok(_) => r is Ok,
                Err(m) => r matches Err(e) && e@ == m,
            },
    {
        if b.transactions.len() > 0 {
            assert(b@.transactions[0] == b.transactions@[0]@);
            if b.transactions[0].chain_id != self.chain_id {
                return Err("block transaction chain-id mismatch".to_string());
            }
        }
        match self.consensus.finalized() {
            Some((fh, fid)) => {
                if b.height <= fh {
                    return Err("cannot replace finalized block".to_string());
                }
                if b.height == fh.saturating_add(1) && !bytes_equal(
                    b.parent_hash.as_slice(),
                    fid.as_slice(),
                ) {
                    return Err("candidate would reorg finalized prefix".to_string());
                }
            },
            None => {},
        }
        self.chain.validate_append(b)?;
        if b.height > 0 {
            let keys = match self.keys_at_height(b.height) {
                None => return Err("validator snapshot is unavailable for block height".to_string()),
                Some(k) => k,
            };
            let public_key = match keys.get(&b.proposer) {
                None => return Err("block proposer has no signing key at block height".to_string()),
                Some(k) => *k,
            };
            if !ed25519_key_is_valid(&public_key) {
                return Err("invalid proposer public key".to_string());
            }
            let msg = block_signing_bytes(self.chain_id, b);
            if !ed25519_verify(public_key.as_slice(), msg.as_slice(), &b.signature) {
                return Err("invalid block proposer signature".to_string());
            }
        }
        let parent = match self.chain.last() {
            None => return Err("genesis required".to_string()),
            Some(p) => p,
        };
        if !bytes_equal(b.parent_hash.as_slice(), parent.id.as_slice()) || b.height
            != parent.height.saturating_add(1) {
            return Err("block is not the next canonical height".to_string());
        }
        Ok(())
    }

    /// Checks every transaction's chain and signature and executes it on the VM of
    /// the chain's genesis, giving the root of the receipts.
    #[verifier::spinoff_prover]
    fn execute_block(&self, b: &Block) -> (r: Result<[u8; 32], String>)
        requires
            self.wf(),
            block_in_limits(b@),
        ensures
            r is Ok ==> forall|i: int|
                0 <= i < b@.transactions.len() ==> (#[trigger] b@.transactions[i]).chain_id
                    == self.chain_id && ed25519_accepts(
                    b@.transactions[i].public_key,
                    tx_signing_bytes(b@.transactions[i]),
                    b@.transactions[i].signature,
                ),
            match receipts_outcome(self.chain_id, true, b@.transactions) {
                Ok(bytes) => r matches Ok(root) && root@ == sha256_of(bytes),
                Err(m) => r matches Err(e) && e@ == m,
            },
    {
        let parent_id = match self.chain.last() {
            None => [0u8; 32],
            Some(p) => p.id,
        };
        let exec = AtcVmExecutor {
            protocol: "1.0.0".to_string(),
            vm_version: "1.0.0".to_string(),
            genesis_id: hex_encode(parent_id.as_slice()),
        };
        let root = self.state.root();
        let ghost txs = b@.transactions;
        let mut receipts: Vec<ExecutionReceipt> = Vec::new();
        let mut i: usize = 0;
        assert(txs.take(0) =~= Seq::<TxModel>::empty());
        while i < b.transactions.len()
            invariant
                i <= b.transactions@.len(),
                txs == b@.transactions,
                txs.len() == b.transactions@.len(),
                block_in_limits(b@),
                receipts_outcome(self.chain_id, true, txs.take(i as int)) == Ok::<
                    Seq<u8>,
                    Seq<char>,
                    >(crate::receipts::receipts_bytes(receipts@)),
                forall|j: int|
                    0 <= j < i ==> (#[trigger] b@.transactions[j]).chain_id == self.chain_id
                        && ed25519_accepts(
                        b@.transactions[j].public_key,
                        tx_signing_bytes(b@.transactions[j]),
                        b@.transactions[j].signature,
                    ),
            decreases b.transactions@.len() - i,
        {
            let tx = &b.transactions[i];
            assert(b@.transactions[i as int] == tx@);
            proof {
                lemma_outcome_unfold(self.chain_id, true, txs, i as int);
            }
            let ghost bytes = crate::receipts::receipts_bytes(receipts@);
            let msg = signing_bytes(tx);
            if tx.chain_id != self.chain_id || !ed25519_verify(
                tx.public_key.as_slice(),
                msg.as_slice(),
                &tx.signature,
            ) {
                proof {
                    reveal(receipt_step);
                    lemma_outcome_stops(self.chain_id, true, txs, i as int + 1);
                }
                return Err("invalid transaction signature or chain".to_string());
            }
            assert(gas_fits(b@.transactions[i as int]));
            let receipt = match exec.execute(tx, root) {
                Ok(rc) => rc,
                Err(e) => {
                    proof {
                        reveal(receipt_step);
                        lemma_outcome_stops(self.chain_id, true, txs, i as int + 1);
                    }
                    return Err(e);
                },
            };
            let ghost before = receipts@;
            receipts.push(receipt);
            proof {
                reveal(receipt_step);
                assert(receipts@.drop_last() =~= before);
                assert(receipt.tx_id@ == tx@.id);
                assert(crate::receipts::receipts_bytes(receipts@) =~= bytes + receipt_entry(
                    tx@,
                    receipt.return_data@,
                ));
            }
            i = i + 1;
        }
        proof {
            assert(txs.take(txs.len() as int) =~= txs);
        }
        Ok(crate::receipts::root(receipts.as_slice()))
    }

    /// Applies the block's transactions, DAO payloads and reward to the state, checks
    /// the roots it commits to, and stores it; any refusal puts the state back.
    #[verifier::spinoff_prover]
    fn transition(&mut self, b: &Block, receipt_root: [u8; 32]) -> (r: Result<(), String>)
        requires
            old(self).wf(),
            block_fits(old(self), b@),
        ensures
            final(self).wf(),
            final(self).keeps(old(self), false, true, false, false, true, false),
            r is Err ==> {
                &&& final(self).spec_storage()@ == old(self).spec_storage()@
                &&& final(self).spec_state()@.accounts == old(self).spec_state()@.accounts
                &&& final(self).spec_state()@.issued == old(self).spec_state()@.issued
                &&& final(self).spec_state()@.genesis_sealed == old(self).spec_state()@.genesis_sealed
                &&& old(self).spec_state().dao_fits() ==> final(self).spec_state()@ == old(self).spec_state()@
            },
            r is Ok ==> {
                &&& final(self).spec_storage()@.blocks.contains_key(b.height)
                &&& final(self).spec_storage()@.blocks[b.height].id == b.id@
                &&& state_root_of(final(self).spec_state()) == b.state_root@
            },
            match block_transition(old(self).spec_state()@, b@) {
                Err(m) => r matches Err(e) && e@ == m,
                Ok(s3) => {
                    &&& (receipt_root@ != b.receipt_root@ || never_commits_to(s3, b.state_root@))
                        ==> (r matches Err(e) && e@ == "network block state/receipt root mismatch"@)
                    &&& (receipt_root@ == b.receipt_root@ && commits_to(s3, b.state_root@))
                        ==> match commit_check(old(self).spec_storage()@.blocks, b@) {
                        Err(m) => r matches Err(e) && e@ == m,
                        Ok(_) => r is Ok && final(self).spec_state()@ == s3,
                    }
                },
            },
    {
        let accounts = self.state.snapshot();
        let dao = self.state.dao_snapshot();
        let issued = self.state.issued_base_units();
        proof {
            self.state.lemma_issued_within_cap();
            if self.state.dao_fits() {
                self.state.lemma_dao_snapshot_reloads();
            }
        }
        let ghost s0 = self.state;
        let ghost ms = b@.transactions;
        assert(tx_models(b.transactions@) =~= ms);
        match self.state.apply_batch(b.transactions.as_slice()) {
            Err(e) => {
                let mut m = "state transition: ".to_string();
                m.append(e.debug_text().as_str());
                return Err(m);
            },
            Ok(()) => {},
        }
        let ghost s1 = self.state@;
        assert(ms.take(0) =~= Seq::<TxModel>::empty());
        let mut i: usize = 0;
        while i < b.transactions.len()
            invariant
                self.wf(),
                self.keeps(old(self), false, true, false, false, false, false),
                accounts.wf(),
                accounts@ == s0@.accounts,
                dao@ == s0.dao_bytes(),
                issued == s0@.issued,
                issued <= MAX_SUPPLY,
                self.state@.genesis_sealed == s0@.genesis_sealed,
                s0.dao_fits() ==> dao_parse(dao@) == Ok::<crate::dao_state::DaoModel, Seq<char>>(
                    s0@.dao,
                ),
                s0 == old(self).state,
                i <= b.transactions@.len(),
                ms == b@.transactions,
                ms.len() == b.transactions@.len(),
                dao_run(s1, ms.take(i as int), b.height) == Ok::<StateModel, Seq<char>>(self.state@),
                batch_effect(s0@.accounts, ms) matches Ok(a) && s1 == (StateModel {
                    accounts: a,
                    ..s0@
                }),
            decreases b.transactions@.len() - i,
        {
            let tx = &b.transactions[i];
            proof {
                assert(ms.take(i as int + 1).drop_last() =~= ms.take(i as int));
                assert(ms.take(i as int + 1).last() == tx@);
            }
            let ghost st = self.state@;
            let ghost snap = self.state.dao_bytes();
            if tx.payload.len() > 0 {
                match self.state.apply_dao_payload(tx.payload.as_slice(), b.height, tx.sender_did.as_str()) {
                    Err(e) => {
                        proof {
                            lemma_dao_outcome_snapshot(st, snap, tx@.payload, b.height, tx@.sender);
                            reveal(dao_step);
                            lemma_dao_run_stops(s1, ms, b.height, i as int + 1);
                        }
                        self.rollback(accounts, &dao, issued);
                        let mut m = "DAO transition: ".to_string();
                        m.append(e.as_str());
                        return Err(m);
                    },
                    Ok(()) => {
                        proof {
                            lemma_dao_outcome_snapshot(st, snap, tx@.payload, b.height, tx@.sender);
                            reveal(dao_step);
                        }
                    },
                }
            } else {
                proof {
                    reveal(dao_step);
                }
            }
            i = i + 1;
        }
        proof {
            assert(ms.take(ms.len() as int) =~= ms);
        }
        match self.state.apply_block_reward(b.height, b.proposer.as_str()) {
            Err(e) => {
                self.rollback(accounts, &dao, issued);
                let mut m = "block reward: ".to_string();
                m.append(e.as_str());
                return Err(m);
            },
            Ok(_) => {},
        }
        let root = self.state.root();
        if !bytes_equal(root.as_slice(), b.state_root.as_slice()) || !bytes_equal(
            receipt_root.as_slice(),
            b.receipt_root.as_slice(),
        ) {
            self.rollback(accounts, &dao, issued);
            return Err("network block state/receipt root mismatch".to_string());
        }
        let snap = self.state.snapshot();
        let d = self.state.dao_snapshot();
        let now_issued = self.state.issued_base_units();
        proof {
            self.state.lemma_issued_within_cap();
        }
        match self.storage.commit_block_state_issuance(b.duplicate(), &snap, d.as_slice(), now_issued) {
            Err(e) => {
                self.rollback(accounts, &dao, issued);
                return Err(e);
            },
            Ok(()) => {},
        }
        proof {
            assert(root@ =~= b.state_root@);
        }
        Ok(())
    }
}

impl Node {
    /// Marks the transactions of a block as included in the pool.
    fn mark_included(&mut self, b: &Block)
        requires
            old(self).wf(),
        ensures
            final(self).wf(),
            final(self).keeps(old(self), true, false, false, false, false, false),
            final(self).spec_pool()@.dom() == old(self).spec_pool()@.dom(),
            final(self).spec_pool()@ == marked_in_block(old(self).spec_pool()@, b@.transactions),
    {
        let ghost txs = b@.transactions;
        let ghost p_start = self.pool@;
        let mut i: usize = 0;
        assert(marked_in_block(p_start, txs.take(0)) =~= p_start);
        while i < b.transactions.len()
            invariant
                self.wf(),
                self.keeps(old(self), true, false, false, false, false, false),
                self.pool@.dom() == old(self).pool@.dom(),
                p_start == old(self).pool@,
                txs == b@.transactions,
                txs.len() == b.transactions@.len(),
                i <= b.transactions@.len(),
                self.pool@ == marked_in_block(p_start, txs.take(i as int)),
            decreases b.transactions@.len() - i,
        {
            let ghost p0 = self.pool@;
            assert(txs[i as int] == b.transactions@[i as int]@);
            let ghost id = txs[i as int].id;
            self.pool.mark_in_block(&b.transactions[i].id);
            proof {
                assert forall|k: Seq<u8>| #[trigger] self.pool@.contains_key(k) implies tx_in_limits(
                    self.pool@[k].tx@,
                ) by {
                    assert(p0.contains_key(k));
                }
                assert(self.pool@.dom() =~= p0.dom());
                let t1 = txs.take(i as int + 1);
                let t0 = txs.take(i as int);
                assert(t1[i as int].id == id);
                assert forall|k: Seq<u8>| p_start.contains_key(k) implies #[trigger] marked_in_block(
                    p_start,
                    t1,
                )[k] == self.pool@[k] by {
                    if k == id {
                        assert(t1[i as int].id == k);
                    } else {
                        if exists|j: int| 0 <= j < t1.len() && #[trigger] t1[j].id == k {
                            let j = choose|j: int| 0 <= j < t1.len() && #[trigger] t1[j].id == k;
                            assert(t0[j].id == k);
                        }
                        if exists|j: int| 0 <= j < t0.len() && #[trigger] t0[j].id == k {
                            let j = choose|j: int| 0 <= j < t0.len() && #[trigger] t0[j].id == k;
                            assert(t1[j].id == k);
                        }
                    }
                }
                assert(self.pool@ =~= marked_in_block(p_start, t1));
            }
            i = i + 1;
        }
        proof {
            assert(txs.take(txs.len() as int) =~= txs);
        }
    }

    /// Applies a block from the network through the same deterministic transition as
    /// local production and stores it; then replays the votes that waited for it and
    /// votes for it.
    #[verifier::spinoff_prover]
    pub fn import_block(&mut self, b: Block) -> (r: Result<(), String>)
        requires
            old(self).wf(),
            block_fits(old(self), b@),
        ensures
            final(self).wf(),
            final(self).keeps(old(self), true, true, true, true, true, true),
            match import_precheck(
                old(self).spec_chain_id(),
                old(self).spec_consensus()@,
                old(self).spec_chain()@,
                b@,
            ) {
                Err(m) => (r matches Err(e) && e@ == m) && final(self).same_core(old(self)),
                Ok(_) => final(self).imported_as(old(self), b@, r),
            },
            r is Ok ==> final(self).spec_chain()@ == crate::blockchain::appended(
                old(self).spec_chain()@,
                b@,
            ),
            import_owed(old(self), b@) ==> r is Ok && final(self).spec_state()@ == block_transition(
                old(self).spec_state()@,
                b@,
            )->Ok_0,
            r is Ok && weighted_final(final(self).spec_consensus()@, b@.id, b@.height)
                ==> final(self).spec_consensus()@.finalized == Some((b.height, b.id)),
    {
        match self.import_checks(&b) {
            Err(e) => return Err(e),
            Ok(()) => {},
        }
        let receipt_root = match self.execute_block(&b) {
            Err(e) => return Err(e),
            Ok(root) => root,
        };
        match self.transition(&b, receipt_root) {
            Err(e) => return Err(e),
            Ok(()) => {},
        }
        let ghost n1 = *self;
        let h = b.height;
        match self.chain.append(b.duplicate()) {
            Err(e) => return Err(e),
            Ok(()) => {},
        }
        self.mark_included(&b);
        self.consensus.set_height(h);
        let ghost n2 = *self;
        let replayed = self.replay_pending_votes(&b);
        let voted = match replayed {
            Err(e) => Err(e),
            Ok(()) => self.vote_for_block(&b),
        };
        proof {
            assert(self.spec_consensus()@.height == h);
            assert(self.spec_storage()@.blocks == n1.spec_storage()@.blocks);
        }
        voted
    }
}

impl Node {
    /// Sends the stored blocks from `from_height` up to the chain's height to the peers.
    fn answer_block_request(&self, from_height: u64) -> (r: Result<(), String>)
        requires
            self.wf(),
        ensures
            !self.has_transport() ==> r is Ok,
    {
        let top = self.chain.height();
        if from_height > top {
            return Ok(());
        }
        let mut h = from_height;
        while h <= top
            invariant
                self.wf(),
                from_height <= h <= top + 1,
            decreases top + 1 - h,
        {
            match self.storage.block(h) {
                Some(b) => {
                    self.broadcast(NetworkMessage::Block(b))?;
                },
                None => {},
            }
            if h == u64::MAX {
                break;
            }
            h = h + 1;
        }
        Ok(())
    }

    /// Feeds one message from a peer into the node: blocks are imported, votes
    /// recorded (or buffered until their block arrives), transactions admitted without
    /// being passed on, block and status requests answered; other messages are ignored.
    pub fn handle_network_message(&mut self, message: NetworkMessage) -> (r: Result<(), String>)
        requires
            old(self).wf(),
            message_in_limits(message),
            message matches NetworkMessage::Block(b) ==> block_fits(old(self), b@),
        ensures
            final(self).wf(),
            final(self).keeps(old(self), true, true, true, true, true, true),
            match message {
                NetworkMessage::Block(b) => {
                    &&& match import_precheck(
                        old(self).spec_chain_id(),
                        old(self).spec_consensus()@,
                        old(self).spec_chain()@,
                        b@,
                    ) {
                        Err(m) => (r matches Err(e) && e@ == m) && final(self).same_core(old(self)),
                        Ok(_) => final(self).imported_as(old(self), b@, r),
                    }
                    &&& import_owed(old(self), b@) ==> r is Ok && final(self).spec_state()@
                        == block_transition(old(self).spec_state()@, b@)->Ok_0
                    &&& r is Ok ==> final(self).spec_chain()@ == crate::blockchain::appended(
                        old(self).spec_chain()@,
                        b@,
                    )
                    &&& r is Ok && weighted_final(final(self).spec_consensus()@, b@.id, b@.height)
                        ==> final(self).spec_consensus()@.finalized == Some((b.height, b.id))
                },
                NetworkMessage::Vote(v) => {
                    &&& final(self).keeps(old(self), false, false, true, false, true, true)
                    &&& (forall|h: u64| #[trigger]
                        old(self).spec_storage()@.blocks.contains_key(h)
                            ==> old(self).spec_storage()@.blocks[h].id != v.block@)
                        ==> final(self).spec_consensus() == old(self).spec_consensus()
                        && final(self).spec_storage() == old(self).spec_storage()
                    &&& !(forall|h: u64| #[trigger]
                        old(self).spec_storage()@.blocks.contains_key(h)
                            ==> old(self).spec_storage()@.blocks[h].id != v.block@)
                        ==> final(self).pending() == old(self).pending()
                },
                NetworkMessage::Transaction(tx) => {
                    let o = submit_outcome(
                        old(self).spec_chain_id(),
                        old(self).spec_pool()@,
                        old(self).spec_pool().spec_max_size(),
                        old(self).spec_pool().spec_max_age(),
                        tx,
                        0,
                    );
                    &&& final(self).keeps(old(self), true, false, false, false, false, false)
                    &&& final(self).spec_pool()@ == o.0
                    &&& match o.1 {
                        Ok(_) => r is Ok,
                        Err(e) => r matches Err(x) && x@ == crate::mempool::mempool_error_text(e),
                    }
                },
                NetworkMessage::BlockRequest { .. } => final(self).same_core(old(self)) && (
                !old(self).has_transport() ==> r is Ok),
                NetworkMessage::StatusRequest => final(self).same_core(old(self)) && (
                !old(self).spec_chain()@.blocks.contains_key(old(self).spec_chain()@.height) ==> (
                r matches Err(e) && e@ == "genesis required"@)) && (old(self).spec_chain()@.blocks.contains_key(old(self).spec_chain()@.height)
                    && !old(self).has_transport() ==> r is Ok),
                _ => r is Ok && final(self).same_core(old(self)),
            },
    {
        match message {
            NetworkMessage::Block(b) => self.import_block(b),
            NetworkMessage::Vote(v) => {
                let block_id = v.block;
                let block = match self.storage.find_block_by_id(block_id) {
                    None => return self.queue_pending_vote(v),
                    Some(b) => b,
                };
                self.submit_vote(v)?;
                if self.consensus.weighted_finality_at_height(&block_id, block.height) {
                    let _ = self.finalize_weighted(&block)?;
                }
                Ok(())
            },
            NetworkMessage::Transaction(tx) => {
                match self.submit(tx, 0) {
                    Err(e) => Err(e.message()),
                    Ok(_) => Ok(()),
                }
            },
            NetworkMessage::BlockRequest { from_height } => self.answer_block_request(from_height),
            NetworkMessage::StatusRequest => {
                let last = match self.chain.last() {
                    None => return Err("genesis required".to_string()),
                    Some(l) => l,
                };
                self.broadcast(
                    NetworkMessage::Status {
                        height: last.height,
                        best_block: last.id,
                        finalized: self.consensus.finalized(),
                    },
                )
            },
            _ => Ok(()),
        }
    }
}

/// A block built by `Block::new` is the fresh block over its fields.
proof fn lemma_fresh(b: Block, proposer: Seq<char>, txs: Seq<TxModel>)
    requires
        b@.proposer == proposer,
        b@.transactions == txs,
        b@.tx_root == crate::blockchain::spec_tx_root(b@.transactions),
        b@.id == crate::blockchain::spec_block_id(b@),
    ensures
        b@ == fresh_block(
            b.height,
            b.parent_hash@,
            proposer,
            b.timestamp,
            txs,
            b.state_root@,
            b.receipt_root@,
            b.signature@,
        ),
{
}

impl Node {
    /// Creates the genesis block with the node's own identity as its proposer.
    pub fn create_genesis(&mut self, t: u64) -> (r: Result<Block, String>)
        requires
            old(self).wf(),
        ensures
            final(self).wf(),
            final(self).genesis_as(old(self), old(self).spec_proposer(), t, r),
    {
        let p = self.proposer.clone();
        self.create_genesis_with_proposer(t, p)
    }

    /// What creating the genesis block did to `o`: the block at height zero with no
    /// transactions, zero parent, receipts and signature, committing to the state, is
    /// stored with that state and installed as the chain's first block; then the
    /// genesis allocation is sealed and consensus starts at height zero.
    pub open spec fn genesis_as(
        &self,
        o: &Node,
        proposer: Seq<char>,
        t: u64,
        r: Result<Block, String>,
    ) -> bool {
        let g = fresh_block(
            0,
            zero_id(),
            proposer,
            t,
            Seq::empty(),
            state_root_of(o.spec_state()),
            zero_id(),
            zero_sig(),
        );
        &&& self.keeps(o, false, true, true, true, true, false)
        &&& match commit_check(o.spec_storage()@.blocks, g) {
            Err(e) => {
                &&& r matches Err(x) && x@ == e
                &&& self.spec_storage()@ == o.spec_storage()@
                &&& self.spec_chain() == o.spec_chain()
                &&& self.spec_state() == o.spec_state()
                &&& self.spec_consensus() == o.spec_consensus()
            },
            Ok(fresh) => {
                &&& self.spec_storage()@ == if fresh {
                    with_block_state(
                        o.spec_storage()@,
                        g,
                        o.spec_state().account_list(),
                        o.spec_state().dao_bytes(),
                        o.spec_state()@.issued,
                    )
                } else {
                    o.spec_storage()@
                }
                &&& if o.spec_chain()@.blocks.contains_key(0) {
                    &&& r matches Err(x) && x@ == "invalid genesis"@
                    &&& self.spec_chain()@ == o.spec_chain()@
                    &&& self.spec_state() == o.spec_state()
                    &&& self.spec_consensus() == o.spec_consensus()
                } else {
                    &&& r matches Ok(b) && b@ == g
                    &&& self.spec_chain()@ == crate::blockchain::appended(o.spec_chain()@, g)
                    &&& self.spec_state()@ == crate::state::StateModel {
                        genesis_sealed: true,
                        ..o.spec_state()@
                    }
                    &&& self.spec_consensus()@ == EngineModel { height: 0, ..o.spec_consensus()@ }
                }
            },
        }
    }

    /// Creates the shared genesis block with `genesis_proposer` as its proposer, which
    /// every node of one network must use so that the genesis commitment agrees.
    pub fn create_genesis_with_proposer(&mut self, t: u64, genesis_proposer: String) -> (r: Result<
        Block,
        String,
    >)
        requires
            old(self).wf(),
        ensures
            final(self).wf(),
            final(self).genesis_as(old(self), genesis_proposer@, t, r),
    {
        let ghost gp = genesis_proposer@;
        let root = self.state.root();
        let zero: [u8; 32] = [0u8; 32];
        let sig: [u8; 64] = [0u8; 64];
        assert(zero@ =~= zero_id());
        assert(sig@ =~= zero_sig());
        let b = Block::new(0, zero, genesis_proposer, t, Vec::new(), root, zero, sig);
        proof {
            assert(b@.transactions =~= Seq::<TxModel>::empty());
            lemma_fresh(b, gp, Seq::empty());
        }
        let snap = self.state.snapshot();
        let dao = self.state.dao_snapshot();
        let issued = self.state.issued_base_units();
        proof {
            self.state.lemma_issued_within_cap();
        }
        self.storage.commit_block_state_issuance(b.duplicate(), &snap, dao.as_slice(), issued)?;
        self.chain.genesis(b.duplicate())?;
        self.state.seal_genesis();
        self.consensus.set_height(0);
        Ok(b)
    }
}

impl Node {
    /// What producing a block did to `o`: on success the new block extends the tip,
    /// proposed by this node, and is the chain's new tip, stored, with the state it
    /// commits to; on failure the chain is as before or holds a new tip at the next
    /// height.
    pub open spec fn produced_as(&self, o: &Node, r: Result<Block, String>) -> bool {
        let c = o.spec_chain()@;
        &&& self.keeps(o, true, true, true, true, true, false)
        &&& match r {
            Ok(b) => {
                &&& c.blocks.contains_key(c.height)
                &&& b@.height == next_height(c.blocks[c.height].height)
                &&& b@.parent_hash == c.blocks[c.height].id
                &&& b@.proposer == o.spec_proposer()
                &&& self.spec_chain()@ == crate::blockchain::appended(c, b@)
                &&& self.spec_storage()@.blocks.contains_key(b@.height)
                &&& self.spec_storage()@.blocks[b@.height].id == b@.id
                &&& state_root_of(self.spec_state()) == b@.state_root
                &&& self.spec_consensus()@.height == b@.height
            },
            Err(_) => self.spec_chain()@ == c || exists|nb: BlockModel|
                #![trigger crate::blockchain::appended(c, nb)]
                c.blocks.contains_key(c.height) && nb.height == next_height(
                    c.blocks[c.height].height,
                ) && self.spec_chain()@ == crate::blockchain::appended(c, nb),
        }
    }

    /// Puts a signed block on the chain after the state transition that it commits to:
    /// checks it, stores it with the state (putting the state back if that fails),
    /// appends it, marks its transactions, advances consensus, sends it to the peers
    /// and votes for it.
    #[verifier::spinoff_prover]
    fn commit_produced(
        &mut self,
        b: Block,
        accounts: OrdMap<String, Account>,
        dao: &Vec<u8>,
        issued: u128,
    ) -> (r: Result<Block, String>)
        requires
            old(self).wf(),
            accounts.wf(),
            issued <= MAX_SUPPLY,
            b@.state_root == state_root_of(old(self).spec_state()),
        ensures
            final(self).wf(),
            final(self).keeps(old(self), true, true, true, true, true, false),
            match r {
                Ok(x) => {
                    &&& x@ == b@
                    &&& final(self).spec_chain()@ == crate::blockchain::appended(
                        old(self).spec_chain()@,
                        b@,
                    )
                    &&& final(self).spec_storage()@.blocks.contains_key(b@.height)
                    &&& final(self).spec_storage()@.blocks[b@.height].id == b@.id
                    &&& state_root_of(final(self).spec_state()) == b@.state_root
                    &&& final(self).spec_consensus()@.height == b@.height
                },
                Err(_) => final(self).spec_chain()@ == old(self).spec_chain()@ || (final(self).spec_chain()@ == crate::blockchain::appended(old(self).spec_chain()@, b@)
                    && append_check(old(self).spec_chain()@, b@) is Ok),
            },
            append_check(old(self).spec_chain()@, b@) matches Err(m) ==> (r matches Err(e) && e@
                == m) && final(self).same_core(old(self)),
            append_check(old(self).spec_chain()@, b@) is Ok ==> match commit_check(
                old(self).spec_storage()@.blocks,
                b@,
            ) {
                Err(m) => {
                    &&& r matches Err(e) && e@ == m
                    &&& final(self).spec_chain() == old(self).spec_chain()
                    &&& final(self).spec_storage()@ == old(self).spec_storage()@
                    &&& final(self).spec_state()@.accounts == accounts@
                    &&& final(self).spec_state()@.issued == issued
                },
                Ok(_) => !old(self).has_transport() ==> r is Ok,
            },
            r is Ok ==> final(self).spec_state() == old(self).spec_state(),
    {
        match self.chain.validate_append(&b) {
            Err(e) => return Err(e),
            Ok(()) => {},
        }
        let snap = self.state.snapshot();
        let d = self.state.dao_snapshot();
        let now_issued = self.state.issued_base_units();
        proof {
            self.state.lemma_issued_within_cap();
        }
        match self.storage.commit_block_state_issuance(b.duplicate(), &snap, d.as_slice(), now_issued) {
            Err(e) => {
                self.rollback(accounts, dao, issued);
                return Err(e);
            },
            Ok(()) => {},
        }
        let ghost n1 = *self;
        match self.chain.append(b.duplicate()) {
            Err(e) => return Err(e),
            Ok(()) => {},
        }
        self.mark_included(&b);
        self.consensus.set_height(b.height);
        let sent = self.broadcast(NetworkMessage::Block(b.duplicate()));
        let voted = match sent {
            Err(e) => Err(e),
            Ok(()) => self.vote_for_block(&b),
        };
        match voted {
            Err(e) => Err(e),
            Ok(()) => Ok(b),
        }
    }

    /// Produces a block with no transactions that pays the block reward to this node.
    #[verifier::spinoff_prover]
    pub fn produce_reward_block(&mut self, t: u64) -> (r: Result<Block, String>)
        requires
            old(self).wf(),
        ensures
            final(self).wf(),
            final(self).produced_as(old(self), r),
            !old(self).spec_chain()@.blocks.contains_key(old(self).spec_chain()@.height) ==> (r matches Err(
                e,
            ) && e@ == "genesis required"@) && final(self).same_core(old(self)),
            r matches Ok(b) ==> b@.transactions.len() == 0 && b@.timestamp == t,
            r matches Ok(b) ==> final(self).spec_state()@ == reward_outcome(
                old(self).spec_state()@,
                b@.height,
                old(self).spec_proposer(),
            ).0,
            reward_block_owed(old(self), t) ==> r is Ok,
            old(self).spec_chain()@.blocks.contains_key(old(self).spec_chain()@.height) ==> (
            reward_outcome(
                old(self).spec_state()@,
                next_height(old(self).spec_chain()@.blocks[old(self).spec_chain()@.height].height),
                old(self).spec_proposer(),
            ).1 matches Err(m) ==> (r matches Err(e) && e@ == "block reward: "@ + m)
                && final(self).keeps(old(self), false, true, false, false, false, false)),
    {
        let parent = match self.chain.last() {
            None => return Err("genesis required".to_string()),
            Some(p) => p,
        };
        let height = parent.height.saturating_add(1);
        let accounts = self.state.snapshot();
        let dao = self.state.dao_snapshot();
        let issued = self.state.issued_base_units();
        proof {
            self.state.lemma_issued_within_cap();
        }
        match self.state.apply_block_reward(height, self.proposer.as_str()) {
            Err(e) => {
                let mut m = "block reward: ".to_string();
                m.append(e.as_str());
                return Err(m);
            },
            Ok(_) => {},
        }
        let root = self.state.root();
        let no_receipts: Vec<ExecutionReceipt> = Vec::new();
        let receipt_root = crate::receipts::root(no_receipts.as_slice());
        let unsigned = Block::new(
            height,
            parent.id,
            self.proposer.clone(),
            t,
            Vec::new(),
            root,
            receipt_root,
            [0u8; 64],
        );
        let ghost fb = fresh_block(
            height,
            parent.id@,
            self.proposer@,
            t,
            Seq::empty(),
            root@,
            receipt_root@,
            zero_sig(),
        );
        proof {
            assert(unsigned@.transactions =~= Seq::<TxModel>::empty());
            assert(unsigned.signature@ =~= zero_sig());
            lemma_fresh(unsigned, self.proposer@, Seq::empty());
            assert(no_receipts@ =~= Seq::<ExecutionReceipt>::empty());
            assert(unsigned@ == fb);
            if reward_block_owed(old(self), t) {
                assert(sign_check(self.consensus@, self.signer(), fb) is Ok);
            }
        }
        let b = match self.sign_block(unsigned) {
            Err(e) => return Err(e),
            Ok(b) => b,
        };
        proof {
            assert(b@.transactions =~= Seq::<TxModel>::empty());
            if reward_block_owed(old(self), t) {
                let sig = ed25519_signature_of(
                    sign_check(self.consensus@, self.signer(), fb)->Ok_0,
                    block_sig_bytes(self.chain_id, fb),
                );
                assert(b@ == signed_block(fb, sig));
                assert(append_check(old(self).spec_chain()@, signed_block(fb, sig)) is Ok);
            }
        }
        self.commit_produced(b, accounts, &dao, issued)
    }
}

impl Node {
    /// Checks the chain and signature of every transaction of a batch.
    fn check_batch(&self, txs: &Vec<Transaction>) -> (r: Result<(), String>)
        ensures
            r is Ok <==> forall|i: int|
                0 <= i < txs@.len() ==> (#[trigger] txs@[i]).chain_id == self.chain_id
                    && ed25519_accepts(
                    txs@[i]@.public_key,
                    tx_signing_bytes(txs@[i]@),
                    txs@[i]@.signature,
                ),
            r matches Err(e) ==> e@ == "invalid transaction signature or chain"@,
    {
        let mut i: usize = 0;
        while i < txs.len()
            invariant
                i <= txs@.len(),
                forall|j: int|
                    0 <= j < i ==> (#[trigger] txs@[j]).chain_id == self.chain_id && ed25519_accepts(
                        txs@[j]@.public_key,
                        tx_signing_bytes(txs@[j]@),
                        txs@[j]@.signature,
                    ),
            decreases txs@.len() - i,
        {
            let tx = &txs[i];
            let msg = signing_bytes(tx);
            if tx.chain_id != self.chain_id || !ed25519_verify(
                tx.public_key.as_slice(),
                msg.as_slice(),
                &tx.signature,
            ) {
                return Err("invalid transaction signature or chain".to_string());
            }
            i = i + 1;
        }
        Ok(())
    }

    /// Executes a batch on the VM of the chain whose tip is `parent_id`, giving the root
    /// of the receipts.
    #[verifier::spinoff_prover]
    fn run_receipts(&self, txs: &Vec<Transaction>, parent_id: [u8; 32]) -> (r: Result<[u8; 32], String>)
        requires
            self.wf(),
            forall|i: int| 0 <= i < txs@.len() ==> tx_in_limits(#[trigger] txs@[i]@),
        ensures
            match receipts_outcome(self.chain_id, false, txs@.map_values(|t: Transaction| t@)) {
                Ok(bytes) => r matches Ok(root) && root@ == sha256_of(bytes),
                Err(m) => r matches Err(e) && e@ == m,
            },
    {
        let exec = AtcVmExecutor {
            protocol: "1.0.0".to_string(),
            vm_version: "1.0.0".to_string(),
            genesis_id: hex_encode(parent_id.as_slice()),
        };
        let root = self.state.root();
        let ghost ms = txs@.map_values(|t: Transaction| t@);
        let mut receipts: Vec<ExecutionReceipt> = Vec::new();
        let mut i: usize = 0;
        assert(ms.take(0) =~= Seq::<TxModel>::empty());
        while i < txs.len()
            invariant
                i <= txs@.len(),
                ms == txs@.map_values(|t: Transaction| t@),
                forall|j: int| 0 <= j < txs@.len() ==> tx_in_limits(#[trigger] txs@[j]@),
                receipts_outcome(self.chain_id, false, ms.take(i as int)) == Ok::<
                    Seq<u8>,
                    Seq<char>,
                    >(crate::receipts::receipts_bytes(receipts@)),
            decreases txs@.len() - i,
        {
            proof {
                lemma_outcome_unfold(self.chain_id, false, ms, i as int);
                assert(ms[i as int] == txs@[i as int]@);
            }
            let ghost bytes = crate::receipts::receipts_bytes(receipts@);
            let receipt = match exec.execute(&txs[i], root) {
                Ok(rc) => rc,
                Err(e) => {
                    proof {
                        reveal(receipt_step);
                        lemma_outcome_stops(self.chain_id, false, ms, i as int + 1);
                    }
                    return Err(e);
                },
            };
            let ghost before = receipts@;
            receipts.push(receipt);
            proof {
                reveal(receipt_step);
                assert(receipts@.drop_last() =~= before);
                assert(crate::receipts::receipts_bytes(receipts@) =~= bytes + receipt_entry(
                    txs@[i as int]@,
                    receipt.return_data@,
                ));
            }
            i = i + 1;
        }
        proof {
            assert(ms.take(ms.len() as int) =~= ms);
        }
        Ok(crate::receipts::root(receipts.as_slice()))
    }

    /// Checks that each sender's transactions carry consecutive nonces starting at the
    /// sender's nonce in the state.
    fn check_nonces(&self, txs: &Vec<Transaction>) -> (r: Result<(), String>)
        requires
            self.wf(),
        ensures
            match nonce_run(self.state@.accounts, txs@.map_values(|t: Transaction| t@)) {
                Ok(_) => r is Ok,
                Err(m) => r matches Err(e) && e@ == m,
            },
    {
        let ghost ms = txs@.map_values(|t: Transaction| t@);
        let ghost accounts = self.state@.accounts;
        let mut expected_nonces: OrdMap<String, u64> = OrdMap::new();
        let mut i: usize = 0;
        assert(ms.take(0) =~= Seq::<TxModel>::empty());
        while i < txs.len()
            invariant
                self.wf(),
                accounts == self.state@.accounts,
                ms == txs@.map_values(|t: Transaction| t@),
                expected_nonces.wf(),
                i <= txs@.len(),
                nonce_run(accounts, ms.take(i as int)) == Ok::<Map<Seq<char>, u64>, Seq<char>>(
                    expected_nonces@,
                ),
            decreases txs@.len() - i,
        {
            let tx = &txs[i];
            proof {
                assert(ms.take(i as int + 1).drop_last() =~= ms.take(i as int));
                assert(ms.take(i as int + 1).last() == tx@);
            }
            let expected = match expected_nonces.get(&tx.sender_did) {
                Some(n) => *n,
                None => self.state.nonce(tx.sender_did.as_str()),
            };
            if tx.nonce != expected {
                let mut m = "invalid nonce for ".to_string();
                m.append(tx.sender_did.as_str());
                m.append(": expected ");
                crate::codec::push_decimal(&mut m, expected);
                m.append(", got ");
                crate::codec::push_decimal(&mut m, tx.nonce);
                proof {
                    lemma_nonce_run_stops(accounts, ms, i as int + 1);
                }
                return Err(m);
            }
            expected_nonces.insert(tx.sender_did.clone(), expected.saturating_add(1));
            i = i + 1;
        }
        proof {
            assert(ms.take(ms.len() as int) =~= ms);
        }
        Ok(())
    }

    /// Applies a batch, its DAO payloads and the block reward to the state; a refused
    /// DAO payload puts back the accounts, DAO and issued supply taken before.
    #[verifier::spinoff_prover]
    fn apply_produced(
        &mut self,
        txs: &Vec<Transaction>,
        height: u64,
        accounts: &OrdMap<String, Account>,
        dao: &Vec<u8>,
        issued: u128,
    ) -> (r: Result<(), String>)
        requires
            old(self).wf(),
            accounts.wf(),
            issued <= MAX_SUPPLY,
            forall|i: int| 0 <= i < txs@.len() ==> tx_in_limits(#[trigger] txs@[i]@),
        ensures
            final(self).wf(),
            final(self).keeps(old(self), false, true, false, false, false, false),
            match batch_effect(old(self).spec_state()@.accounts, tx_models(txs@)) {
                Err(e) => (r matches Err(m) && m@ == "state transition: "@
                    + crate::mempool::mempool_error_debug(e)) && final(self).spec_state()@
                    == old(self).spec_state()@,
                Ok(a) => match dao_run(
                    StateModel { accounts: a, ..old(self).spec_state()@ },
                    tx_models(txs@),
                    height,
                ) {
                    Err(m) => {
                        &&& r matches Err(x) && x@ == "DAO transition: "@ + m
                        &&& final(self).spec_state()@.accounts == accounts@
                        &&& final(self).spec_state()@.issued == issued
                        &&& dao_parse(dao@) matches Ok(d) ==> final(self).spec_state()@.dao == d
                    },
                    Ok(s2) => {
                        &&& final(self).spec_state()@ == reward_outcome(
                            s2,
                            height,
                            old(self).spec_proposer(),
                        ).0
                        &&& match reward_outcome(s2, height, old(self).spec_proposer()).1 {
                            Ok(_) => r is Ok,
                            Err(m) => r matches Err(x) && x@ == "block reward: "@ + m,
                        }
                    },
                },
            },
    {
        proof {
            assert forall|i: int| 0 <= i < tx_models(txs@).len() implies (
            #[trigger] tx_models(txs@)[i]).nonce < u64::MAX by {
                assert(tx_models(txs@)[i] == txs@[i]@);
                assert(tx_in_limits(txs@[i]@));
            }
            crate::state::lemma_batch_fits(self.state@.accounts, tx_models(txs@));
        }
        match self.state.apply_batch(txs.as_slice()) {
            Err(e) => {
                let mut m = "state transition: ".to_string();
                m.append(e.debug_text().as_str());
                return Err(m);
            },
            Ok(()) => {},
        }
        let ghost s1 = self.state@;
        let ghost ms = tx_models(txs@);
        let mut i: usize = 0;
        assert(ms.take(0) =~= Seq::<TxModel>::empty());
        while i < txs.len()
            invariant
                self.wf(),
                self.keeps(old(self), false, true, false, false, false, false),
                accounts.wf(),
                issued <= MAX_SUPPLY,
                i <= txs@.len(),
                ms == tx_models(txs@),
                ms.len() == txs@.len(),
                dao_run(s1, ms.take(i as int), height) == Ok::<StateModel, Seq<char>>(self.state@),
                batch_effect(old(self).state@.accounts, ms) matches Ok(a) && s1 == (StateModel {
                    accounts: a,
                    ..old(self).state@
                }),
            decreases txs@.len() - i,
        {
            let tx = &txs[i];
            proof {
                assert(ms.take(i as int + 1).drop_last() =~= ms.take(i as int));
                assert(ms.take(i as int + 1).last() == tx@);
            }
            let ghost st = self.state@;
            if tx.payload.len() > 0 {
                let ghost snap = self.state.dao_bytes();
                match self.state.apply_dao_payload(
                    tx.payload.as_slice(),
                    height,
                    tx.sender_did.as_str(),
                ) {
                    Err(e) => {
                        proof {
                            lemma_dao_outcome_snapshot(st, snap, tx@.payload, height, tx@.sender);
                            reveal(dao_step);
                            lemma_dao_run_stops(s1, ms, height, i as int + 1);
                        }
                        self.rollback(accounts.duplicate(), dao, issued);
                        let mut m = "DAO transition: ".to_string();
                        m.append(e.as_str());
                        return Err(m);
                    },
                    Ok(()) => {
                        proof {
                            lemma_dao_outcome_snapshot(st, snap, tx@.payload, height, tx@.sender);
                            reveal(dao_step);
                        }
                    },
                }
            } else {
                proof {
                    reveal(dao_step);
                }
            }
            i = i + 1;
        }
        proof {
            assert(ms.take(ms.len() as int) =~= ms);
        }
        match self.state.apply_block_reward(height, self.proposer.as_str()) {
            Err(e) => {
                let mut m = "block reward: ".to_string();
                m.append(e.as_str());
                Err(m)
            },
            Ok(_) => Ok(()),
        }
    }

    /// Produces a block of up to `max` validated transactions from the pool, highest fee
    /// priority first, and the block reward to this node.
    #[verifier::spinoff_prover]
    pub fn produce(&mut self, t: u64, max: usize) -> (r: Result<Block, String>)
        requires
            old(self).wf(),
        ensures
            final(self).wf(),
            final(self).produced_as(old(self), r),
            (max == 0 || forall|id: Seq<u8>| #[trigger]
                old(self).spec_pool()@.contains_key(id) ==> old(self).spec_pool()@[id].status
                    != TxStatus::Validated) ==> (r matches Err(e) && e@
                == "no validated transactions"@) && final(self).same_core(old(self)),
            r matches Ok(b) ==> {
                &&& b@.timestamp == t
                &&& 0 < b@.transactions.len() <= max
                &&& forall|k: int|
                    0 <= k < b@.transactions.len() ==> {
                        &&& old(self).spec_pool()@.contains_key(#[trigger] b@.transactions[k].id)
                        &&& old(self).spec_pool()@[b@.transactions[k].id].status
                            == TxStatus::Validated
                        &&& old(self).spec_pool()@[b@.transactions[k].id].tx@
                            == b@.transactions[k]
                    }
            },
            r matches Ok(b) ==> block_transition(old(self).spec_state()@, b@) is Ok
                && final(self).spec_state()@ == block_transition(old(self).spec_state()@, b@)->Ok_0,
            produce_owed(old(self), t, max) ==> r is Ok,
            r matches Ok(b) ==> pending_batch(old(self).spec_pool()@, max as nat, b@.transactions),
            forall|batch: Seq<TxModel>| #[trigger]
                pending_batch(old(self).spec_pool()@, max as nat, batch) ==> (produce_precheck(
                    old(self),
                    batch,
                ) matches Some(m) ==> (r matches Err(e) && e@ == m) && final(self).same_core(old(self))),
            forall|batch: Seq<TxModel>| #[trigger]
                pending_batch(old(self).spec_pool()@, max as nat, batch) ==> (produce_precheck(
                    old(self),
                    batch,
                ) is None ==> (produce_apply_error(old(self), batch) matches Some(m) ==> (r matches Err(
                    e,
                ) && e@ == m) && final(self).keeps(old(self), false, true, false, false, false, false))),
    {
        let txs = self.pool.get_pending_batch(max);
        let ghost ms = tx_models(txs@);
        proof {
            assert forall|k: int| 0 <= k < ms.len() implies ms[k] == #[trigger] txs@[k]@ by {}
            assert(pending_batch(self.pool@, max as nat, ms)) by {
                assert forall|k: int| 0 <= k < ms.len() implies {
                    &&& self.pool@.contains_key(#[trigger] ms[k].id)
                    &&& self.pool@[ms[k].id].status == TxStatus::Validated
                    &&& self.pool@[ms[k].id].tx@ == ms[k]
                } by {
                    assert(ms[k] == txs@[k]@);
                }
                assert forall|k: int, l: int| 0 <= k < l < ms.len() implies crate::mempool::ranks_before(
                    self.pool@[(#[trigger] ms[k]).id],
                    self.pool@[(#[trigger] ms[l]).id],
                ) by {
                    assert(ms[k] == txs@[k]@ && ms[l] == txs@[l]@);
                }
                assert forall|id: Seq<u8>|
                    #![trigger self.pool@[id]]
                    self.pool@.contains_key(id) && self.pool@[id].status == TxStatus::Validated && (
                    forall|k: int| 0 <= k < ms.len() ==> (#[trigger] ms[k]).id != id) implies ms.len()
                    == max as nat && forall|k: int|
                    0 <= k < ms.len() ==> crate::mempool::ranks_before(
                        self.pool@[(#[trigger] ms[k]).id],
                        self.pool@[id],
                    ) by {
                    assert forall|k: int| 0 <= k < txs@.len() implies (#[trigger] txs@[k])@.id != id by {
                        assert(ms[k] == txs@[k]@);
                    }
                    assert forall|k: int| 0 <= k < ms.len() implies crate::mempool::ranks_before(
                        self.pool@[(#[trigger] ms[k]).id],
                        self.pool@[id],
                    ) by {
                        assert(ms[k] == txs@[k]@);
                    }
                }
            }
        }
        proof {
            assert forall|batch: Seq<TxModel>| #[trigger]
                pending_batch(old(self).spec_pool()@, max as nat, batch) implies batch == ms by {
                lemma_pending_batch_unique(self.pool@, max as nat, batch, ms);
            }
        }
        if txs.len() == 0 {
            proof {
                if max > 0 {
                    assert forall|id: Seq<u8>| #[trigger]
                        self.pool@.contains_key(id) implies self.pool@[id].status
                        != TxStatus::Validated by {
                        if self.pool@[id].status == TxStatus::Validated {
                            assert(txs@.len() == max);
                        }
                    }
                }
            }
            return Err("no validated transactions".to_string());
        }
        assert forall|i: int| 0 <= i < txs@.len() implies tx_in_limits(#[trigger] txs@[i]@) by {
            assert(self.pool@.contains_key(txs@[i]@.id));
        }
        assert(self.pool@.contains_key(txs@[0]@.id) && self.pool@[txs@[0]@.id].status
            == TxStatus::Validated);
        proof {
            if produce_owed(old(self), t, max) {
                assert(batch_producible(old(self), t, ms));
                assert forall|i: int| 0 <= i < txs@.len() implies (#[trigger] txs@[i]).chain_id
                    == self.chain_id && ed25519_accepts(
                    txs@[i]@.public_key,
                    tx_signing_bytes(txs@[i]@),
                    txs@[i]@.signature,
                ) by {
                    assert(ms[i] == txs@[i]@);
                }
            }
        }
        match self.check_batch(&txs) {
            Err(e) => return Err(e),
            Ok(()) => {},
        }
        let parent = match self.chain.last() {
            None => return Err("genesis required".to_string()),
            Some(p) => p,
        };
        let receipt_root = match self.run_receipts(&txs, parent.id) {
            Err(e) => return Err(e),
            Ok(root) => root,
        };
        match self.check_nonces(&txs) {
            Err(e) => return Err(e),
            Ok(()) => {},
        }
        let accounts = self.state.snapshot();
        let dao = self.state.dao_snapshot();
        let issued = self.state.issued_base_units();
        proof {
            self.state.lemma_issued_within_cap();
        }
        let height = parent.height.saturating_add(1);
        let ghost p0 = self.pool@;
        let ghost batch = txs@;
        let ghost s0 = self.state@;
        let ghost fb0 = fresh_block(
            height,
            parent.id@,
            self.proposer@,
            t,
            ms,
            Seq::empty(),
            Seq::empty(),
            zero_sig(),
        );
        match self.apply_produced(&txs, height, &accounts, &dao, issued) {
            Err(e) => return Err(e),
            Ok(()) => {},
        }
        proof {
            assert(block_transition(s0, fb0) is Ok);
        }
        let root = self.state.root();
        let unsigned = Block::new(
            height,
            parent.id,
            self.proposer.clone(),
            t,
            txs,
            root,
            receipt_root,
            [0u8; 64],
        );
        let ghost fb = fresh_block(
            height,
            parent.id@,
            self.proposer@,
            t,
            ms,
            root@,
            receipt_root@,
            zero_sig(),
        );
        proof {
            assert(unsigned@.transactions == ms);
            assert(unsigned.signature@ =~= zero_sig());
            lemma_fresh(unsigned, self.proposer@, ms);
            assert(unsigned@ == fb);
            if produce_owed(old(self), t, max) {
                assert(sign_check(self.consensus@, self.signer(), fb) is Ok);
            }
        }
        let b = match self.sign_block(unsigned) {
            Err(e) => return Err(e),
            Ok(b) => b,
        };
        proof {
            assert forall|k: int| 0 <= k < b@.transactions.len() implies {
                &&& p0.contains_key(#[trigger] b@.transactions[k].id)
                &&& p0[b@.transactions[k].id].status == TxStatus::Validated
                &&& p0[b@.transactions[k].id].tx@ == b@.transactions[k]
            } by {
                assert(b@.transactions[k] == batch[k]@);
            }
            assert(block_transition(s0, b@) == block_transition(s0, fb0));
            if produce_owed(old(self), t, max) {
                let sig = ed25519_signature_of(
                    sign_check(self.consensus@, self.signer(), fb)->Ok_0,
                    block_sig_bytes(self.chain_id, fb),
                );
                assert(b@ == signed_block(fb, sig));
                assert(append_check(old(self).spec_chain()@, signed_block(fb, sig)) is Ok);
            }
        }
        self.commit_produced(b, accounts, &dao, issued)
    }
}

impl Node {
    /// Registers each recovered validator snapshot's validators and keys and restores
    /// the snapshot at its activation height, in increasing height.
    fn restore_validators(
        &mut self,
        snaps: &OrdMap<u64, (OrdMap<String, u64>, OrdMap<String, [u8; 32]>)>,
    ) -> (r: Result<(), String>)
        requires
            old(self).wf(),
            snaps.wf(),
            forall|h: u64| #[trigger]
                snaps@.contains_key(h) ==> snaps@[h].0.wf() && snaps@[h].1.wf(),
        ensures
            final(self).wf(),
            final(self).keeps(old(self), false, false, true, false, false, false),
            final(self).spec_consensus()@.height == old(self).spec_consensus()@.height,
            final(self).spec_consensus()@.finalized == old(self).spec_consensus()@.finalized,
            final(self).spec_consensus()@ == restore_run(old(self).spec_consensus()@, snaps.pairs()).0,
            match restore_run(old(self).spec_consensus()@, snaps.pairs()).1 {
                Ok(()) => r is Ok,
                Err(m) => r matches Err(e) && e@ == m,
            },
    {
        let ghost e0 = self.consensus@;
        let ghost sp = snaps.pairs();
        let n = snaps.len();
        let mut i: usize = 0;
        assert(sp.take(0) =~= Seq::<(u64, (OrdMap<String, u64>, OrdMap<String, [u8; 32]>))>::empty());
        while i < n
            invariant
                self.wf(),
                self.keeps(old(self), false, false, true, false, false, false),
                self.consensus@.height == old(self).consensus@.height,
                self.consensus@.finalized == old(self).consensus@.finalized,
                snaps.wf(),
                forall|h: u64| #[trigger]
                    snaps@.contains_key(h) ==> snaps@[h].0.wf() && snaps@[h].1.wf(),
                n == snaps.pairs().len(),
                sp == snaps.pairs(),
                e0 == old(self).consensus@,
                i <= n,
                restore_run(e0, sp.take(i as int)) == (self.consensus@, Ok::<(), Seq<char>>(())),
            decreases n - i,
        {
            let h = *snaps.key_at(i);
            let entry = snaps.value_at(i);
            proof {
                snaps.lemma_entry(i as int);
                assert(sp.take(i as int + 1).drop_last() =~= sp.take(i as int));
                assert(sp.take(i as int + 1).last() == sp[i as int]);
            }
            let validators = &entry.0;
            let keys = &entry.1;
            let ghost c0 = self.consensus@;
            let ghost vp = validators.pairs();
            let m = validators.len();
            let mut j: usize = 0;
            assert(vp.take(0) =~= Seq::<(Seq<char>, u64)>::empty());
            while j < m
                invariant
                    self.wf(),
                    self.keeps(old(self), false, false, true, false, false, false),
                    self.consensus@.height == old(self).consensus@.height,
                    self.consensus@.finalized == old(self).consensus@.finalized,
                    validators.wf(),
                    m == validators.pairs().len(),
                    vp == validators.pairs(),
                    j <= m,
                    i < sp.len(),
                    sp == snaps.pairs(),
                    e0 == old(self).consensus@,
                    restore_run(e0, sp.take(i as int)) == (c0, Ok::<(), Seq<char>>(())),
                    sp.take(i as int + 1).drop_last() == sp.take(i as int),
                    sp.take(i as int + 1).last() == sp[i as int],
                    sp[i as int].0 == h,
                    sp[i as int].1.0 == *validators,
                    sp[i as int].1.1 == *keys,

                    stake_run(c0, vp.take(j as int)) == (self.consensus@, Ok::<(), Seq<char>>(())),
                decreases m - j,
            {
                let address = validators.key_at(j).clone();
                let stake = *validators.value_at(j);
                proof {
                    assert(vp.take(j as int + 1).drop_last() =~= vp.take(j as int));
                    assert(vp.take(j as int + 1).last() == vp[j as int]);
                }
                match self.consensus.register_validator(address, stake as u128) {
                    Err(e) => {
                        proof {
                            assert(stake_run(c0, vp.take(j as int + 1)) == (
                                self.consensus@,
                                Err::<(), Seq<char>>(e@),
                            ));
                            lemma_stake_run_stops(c0, vp, j as int + 1);
                            assert(snapshot_restore(c0, h, *validators, *keys) == stake_run(c0, vp));
                            assert(restore_run(e0, sp.take(i as int + 1)) == snapshot_restore(
                                c0,
                                h,
                                *validators,
                                *keys,
                            ));
                            lemma_restore_run_stops(e0, sp, i as int + 1);
                        }
                        return Err(e);
                    },
                    Ok(()) => {},
                }
                j = j + 1;
            }
            proof {
                assert(vp.take(vp.len() as int) =~= vp);
            }
            let ghost c1 = self.consensus@;
            let ghost kp = keys.pairs();
            let q = keys.len();
            let mut j: usize = 0;
            assert(kp.take(0) =~= Seq::<(Seq<char>, [u8; 32])>::empty());
            while j < q
                invariant
                    self.wf(),
                    self.keeps(old(self), false, false, true, false, false, false),
                    self.consensus@.height == old(self).consensus@.height,
                    self.consensus@.finalized == old(self).consensus@.finalized,
                    keys.wf(),
                    q == keys.pairs().len(),
                    kp == keys.pairs(),
                    j <= q,
                    i < sp.len(),
                    sp == snaps.pairs(),
                    e0 == old(self).consensus@,
                    restore_run(e0, sp.take(i as int)) == (c0, Ok::<(), Seq<char>>(())),
                    sp.take(i as int + 1).drop_last() == sp.take(i as int),
                    sp.take(i as int + 1).last() == sp[i as int],
                    sp[i as int].0 == h,
                    sp[i as int].1.0 == *validators,
                    sp[i as int].1.1 == *keys,
                    stake_run(c0, validators.pairs()) == (c1, Ok::<(), Seq<char>>(())),

                    key_run(c1, kp.take(j as int)) == (self.consensus@, Ok::<(), Seq<char>>(())),
                decreases q - j,
            {
                let public_key = *keys.value_at(j);
                proof {
                    assert(kp.take(j as int + 1).drop_last() =~= kp.take(j as int));
                    assert(kp.take(j as int + 1).last() == kp[j as int]);
                }
                match self.consensus.register_validator_key(keys.key_at(j).as_str(), public_key) {
                    Err(e) => {
                        proof {
                            assert(key_run(c1, kp.take(j as int + 1)) == (
                                self.consensus@,
                                Err::<(), Seq<char>>(e@),
                            ));
                            lemma_key_run_stops(c1, kp, j as int + 1);
                            assert(snapshot_restore(c0, h, *validators, *keys) == key_run(c1, kp));
                            assert(restore_run(e0, sp.take(i as int + 1)) == snapshot_restore(
                                c0,
                                h,
                                *validators,
                                *keys,
                            ));
                            lemma_restore_run_stops(e0, sp, i as int + 1);
                        }
                        return Err(e);
                    },
                    Ok(()) => {},
                }
                j = j + 1;
            }
            proof {
                assert(kp.take(kp.len() as int) =~= kp);
            }
            let wide = validators.widen_u128();
            match self.consensus.restore_validator_snapshot(h, wide, keys.duplicate()) {
                Err(e) => {
                    proof {
                        lemma_restore_run_stops(e0, sp, i as int + 1);
                    }
                    return Err(e);
                },
                Ok(()) => {},
            }
            i = i + 1;
        }
        proof {
            assert(sp.take(sp.len() as int) =~= sp);
        }
        Ok(())
    }

    /// Rebuilds the chain from the stored blocks: the genesis block, which seals the
    /// genesis allocation, then each next height while one is stored.
    fn rebuild_chain(&mut self) -> (r: Result<(), String>)
        requires
            old(self).wf(),
            old(self).spec_chain()@.blocks == Map::<u64, BlockModel>::empty(),
        ensures
            final(self).wf(),
            final(self).keeps(old(self), false, true, false, true, false, false),
            final(self).spec_state().account_list() == old(self).spec_state().account_list(),
            final(self).spec_state().dao_bytes() == old(self).spec_state().dao_bytes(),
            final(self).spec_state()@ == (StateModel {
                genesis_sealed: old(self).spec_state()@.genesis_sealed
                    || old(self).spec_storage()@.blocks.contains_key(0),
                ..old(self).spec_state()@
            }),
            final(self).spec_state()@.issued == old(self).spec_state()@.issued,
            forall|k: u64| #[trigger]
                final(self).spec_chain()@.blocks.contains_key(k) ==> final(self).spec_storage()@.blocks.contains_key(k) && final(self).spec_storage()@.blocks[k]
                    == final(self).spec_chain()@.blocks[k],
            final(self).spec_chain()@ == recovered_chain(
                old(self).spec_chain()@,
                old(self).spec_storage()@.blocks,
            ).0,
            match recovered_chain(old(self).spec_chain()@, old(self).spec_storage()@.blocks).1 {
                Ok(()) => r is Ok,
                Err(m) => r matches Err(e) && e@ == m,
            },
    {
        let g = match self.storage.block(0) {
            None => return Ok(()),
            Some(g) => g,
        };
        self.state.seal_genesis();
        match self.chain.genesis(g) {
            Err(e) => return Err(e),
            Ok(()) => {},
        }
        let ghost stored = self.storage@.blocks;
        let mut h: u64 = 1;
        loop
            invariant
                self.wf(),
                self.keeps(old(self), false, true, false, true, false, false),
                self.state.account_list() == old(self).state.account_list(),
                self.state.dao_bytes() == old(self).state.dao_bytes(),
                self.state@ == (StateModel { genesis_sealed: true, ..old(self).state@ }),
                stored.contains_key(0),
                stored == old(self).storage@.blocks,
                stored == self.storage@.blocks,
                1 <= h,
                replay_from(self.chain@, stored, h) == recovered_chain(old(self).chain@, stored),
                forall|k: u64| #[trigger]
                    self.chain@.blocks.contains_key(k) ==> self.storage@.blocks.contains_key(k)
                        && self.storage@.blocks[k] == self.chain@.blocks[k],
            decreases u64::MAX - h,
        {
            let b = match self.storage.block(h) {
                None => return Ok(()),
                Some(b) => b,
            };
            match self.chain.append(b) {
                Err(e) => return Err(e),
                Ok(()) => {},
            }
            if h == u64::MAX {
                let again = match self.storage.block(h) {
                    None => return Ok(()),
                    Some(b) => b,
                };
                return self.chain.append(again);
            }
            h = h + 1;
        }
    }

    fn set_consensus_height(&mut self, h: u64)
        requires
            old(self).wf(),
        ensures
            final(self).wf(),
            final(self).keeps(old(self), false, false, true, false, false, false),
            final(self).spec_consensus()@ == (EngineModel { height: h, ..old(self).spec_consensus()@ }),
    {
        self.consensus.set_height(h);
    }

    fn mark_consensus_final(&mut self, h: u64, id: [u8; 32]) -> (r: Result<(), String>)
        requires
            old(self).wf(),
        ensures
            final(self).wf(),
            final(self).keeps(old(self), false, false, true, false, false, false),
            final(self).spec_consensus()@ == finalize_outcome(old(self).spec_consensus()@, h, id).0,
            r is Ok <==> finalize_outcome(old(self).spec_consensus()@, h, id).1 is Ok,
    {
        self.consensus.mark_finalized(h, id)
    }

    /// Whether every recovered snapshot activates at or before `limit`.
    fn snapshots_within(
        snaps: &OrdMap<u64, (OrdMap<String, u64>, OrdMap<String, [u8; 32]>)>,
        limit: u64,
    ) -> (r: bool)
        requires
            snaps.wf(),
        ensures
            r == forall|h: u64| #[trigger] snaps@.contains_key(h) ==> h <= limit,
    {
        let n = snaps.len();
        let mut i: usize = 0;
        while i < n
            invariant
                snaps.wf(),
                n == snaps.pairs().len(),
                i <= n,
                forall|j: int| 0 <= j < i ==> (#[trigger] snaps.pairs()[j]).0 <= limit,
            decreases n - i,
        {
            if *snaps.key_at(i) > limit {
                proof {
                    snaps.lemma_entry(i as int);
                }
                return false;
            }
            i = i + 1;
        }
        proof {
            assert forall|h: u64| #[trigger] snaps@.contains_key(h) implies h <= limit by {
                snaps.lemma_dom(h);
            }
        }
        true
    }

    /// Opens a node over the journals of a durable storage, one line per record, and
    /// rebuilds its validator snapshots, state, issued supply, chain and finality from
    /// them, refusing journals that disagree with the canonical chain.
    #[verifier::spinoff_prover]
    pub fn open_storage(
        chain_id: u64,
        proposer: String,
        blocks: Vec<String>,
        state: Vec<String>,
        validators: Vec<String>,
        finality: Vec<String>,
        slashing: Vec<String>,
        issuance: Vec<String>,
    ) -> (r: Result<Node, String>)
        ensures
            block_replay(
                line_texts(blocks@),
                blocks@.len(),
                BlockReplay { expected: 0, prev: None, blocks: Map::empty() },
            ) matches Err(e) ==> (r matches Err(x) && x@ == e),
            r matches Ok(n) ==> {
                let c = n.spec_chain()@;
                &&& n.wf()
                &&& n.spec_chain_id() == chain_id
                &&& n.spec_proposer() == proposer@
                &&& n.signer() is None
                &&& !n.has_transport()
                &&& !n.has_indexer()
                &&& n.pending() == Map::<Seq<u8>, Seq<Vote>>::empty()
                &&& n.spec_storage()@.journal == Some(line_texts(blocks@))
                &&& n.spec_storage()@.state_journal == Some(line_texts(state@))
                &&& n.spec_storage()@.validator_journal == Some(line_texts(validators@))
                &&& n.spec_storage()@.finality_journal == Some(line_texts(finality@))
                &&& n.spec_storage()@.slashing_journal == Some(line_texts(slashing@))
                &&& n.spec_storage()@.issuance_journal == Some(line_texts(issuance@))
                &&& forall|k: u64| #[trigger]
                    c.blocks.contains_key(k) ==> n.spec_storage()@.blocks.contains_key(k)
                        && n.spec_storage()@.blocks[k] == c.blocks[k]
                &&& c.blocks.contains_key(c.height) ==> state_root_of(n.spec_state())
                    == c.blocks[c.height].state_root && n.spec_consensus()@.height
                    == c.blocks[c.height].height
                &&& n.spec_consensus()@.finalized matches Some((fh, fid)) ==> fh <= c.height
                    && n.spec_storage()@.blocks.contains_key(fh)
                    && n.spec_storage()@.blocks[fh].id == fid@
                &&& c == recovered_chain(empty_chain(), n.spec_storage()@.blocks).0
                &&& crate::storage::recovered_state(n.spec_storage()@) matches Ok(Some((_, a, _)))
                    ==> n.spec_state()@.accounts == a
                &&& crate::storage::recovered_issuance(n.spec_storage()@) matches Ok(Some((_, i)))
                    ==> n.spec_state()@.issued == i
                &&& tip_consistent(n.spec_storage()@, c)
            },
            opened_storage(
                line_texts(blocks@),
                line_texts(state@),
                line_texts(validators@),
                line_texts(finality@),
                line_texts(slashing@),
                line_texts(issuance@),
            ) matches Some(m) ==> match crate::storage::journals_replay(m) {
                Err(e) => r matches Err(x) && x@ == e,
                Ok(_) => open_owed(chain_id, proposer@, m) ==> r is Ok,
            },
    {
        let ghost pr = proposer@;
        let mut n = Node::new(chain_id, proposer);
        proof {
            assert(n.spec_consensus()@ == initial_engine(chain_id, pr));
            assert(n.spec_chain()@ == empty_chain());
        }
        n.storage = match ChainStorage::open(blocks, state, validators, finality, slashing, issuance) {
            Err(e) => return Err(e),
            Ok(s) => s,
        };
        let ghost m = n.spec_storage()@;
        let snaps = match n.storage.recover_validator_snapshots() {
            Err(e) => return Err(e),
            Ok(x) => x,
        };
        match n.restore_validators(&snaps) {
            Err(e) => return Err(e),
            Ok(()) => {},
        }
        let recovered_state = match n.storage.recover_state_with_dao_at_height() {
            Err(e) => return Err(e),
            Ok(x) => x,
        };
        let state_height = match recovered_state {
            Some((h, (snapshot, dao))) => {
                n.state.restore(snapshot);
                if dao.len() > 0 {
                    match n.state.restore_dao(dao.as_slice()) {
                        Err(e) => return Err(e),
                        Ok(()) => {},
                    }
                }
                Some(h)
            },
            None => None,
        };
        let recovered_issuance = match n.storage.recover_issuance() {
            Err(e) => return Err(e),
            Ok(x) => x,
        };
        let issuance_height = match recovered_issuance {
            Some((h, issued)) => {
                match n.state.restore_issued_base_units(issued) {
                    Err(e) => return Err(e),
                    Ok(()) => {},
                }
                Some(h)
            },
            None => None,
        };
        match n.rebuild_chain() {
            Err(e) => return Err(e),
            Ok(()) => {},
        }
        let ghost stored = n.spec_storage()@;
        let ghost ch = n.spec_chain()@;
        assert(forall|k: u64| #[trigger]
            ch.blocks.contains_key(k) ==> stored.blocks.contains_key(k) && stored.blocks[k]
                == ch.blocks[k]);
        match n.chain.last() {
            Some(last) => {
                let sh = match state_height {
                    None => return Err("canonical chain has no durable state snapshot".to_string()),
                    Some(h) => h,
                };
                let ih = match issuance_height {
                    None => return Err("canonical chain has no durable issuance record".to_string()),
                    Some(h) => h,
                };
                if sh != last.height {
                    let mut m = "recovered state height ".to_string();
                    crate::codec::push_decimal(&mut m, sh);
                    m.append(" does not match canonical tip ");
                    crate::codec::push_decimal(&mut m, last.height);
                    return Err(m);
                }
                if ih != last.height {
                    let mut m = "recovered issuance height ".to_string();
                    crate::codec::push_decimal(&mut m, ih);
                    m.append(" does not match canonical tip ");
                    crate::codec::push_decimal(&mut m, last.height);
                    return Err(m);
                }
                let root = n.state.root();
                if !bytes_equal(root.as_slice(), last.state_root.as_slice()) {
                    return Err("recovered state root mismatch".to_string());
                }
                n.set_consensus_height(last.height);
                proof {
                    assert(crate::storage::history_view(snaps).dom() =~= snaps@.dom());
                    if open_owed(chain_id, pr, m) {
                        assert forall|h: u64| #[trigger] snaps@.contains_key(h) implies h
                            <= next_height(last.height) by {
                            assert(crate::storage::history_view(snaps).contains_key(h));
                        }
                    }
                }
                if !Self::snapshots_within(&snaps, last.height.saturating_add(1)) {
                    return Err("validator snapshot is beyond the next activation height".to_string());
                }
                proof {
                    assert(root@ =~= last.state_root@);
                    assert forall|h: u64| #[trigger]
                        crate::storage::recovered_history(m)->Ok_0.contains_key(h) implies h
                        <= next_height(last.height) by {
                        assert(crate::storage::history_view(snaps).contains_key(h));
                        assert(snaps@.contains_key(h));
                    }
                    assert(tip_consistent(m, ch));
                }
            },
            None => {
                proof {
                    assert(tip_consistent(m, ch));
                }
            },
        }
        match n.storage.recover_slashing() {
            Err(e) => return Err(e),
            Ok(_) => {},
        }
        let fin = match n.storage.recover_finalized() {
            Err(e) => return Err(e),
            Ok(x) => x,
        };
        match fin {
            Some((height, id)) => {
                let block = match n.storage.block(height) {
                    None => return Err("finalized block missing".to_string()),
                    Some(b) => b,
                };
                if !bytes_equal(block.id.as_slice(), id.as_slice()) || height > n.chain.height() {
                    return Err("recovered finality marker is inconsistent".to_string());
                }
                proof {
                    lemma_recovered_height(m.blocks);
                    if open_owed(chain_id, pr, m) {
                        assert(n.spec_consensus()@.finalized is None);
                        assert(n.spec_consensus()@.height == n.spec_chain()@.height);
                    }
                }
                match n.mark_consensus_final(height, id) {
                    Err(e) => return Err(e),
                    Ok(()) => {},
                }
                proof {
                    assert(block.id@ =~= id@);
                }
            },
            None => {},
        }
        assert(n.spec_storage()@ == stored);
        assert(n.spec_chain()@ == ch);
        assert(n.wf());
        assert(n.pending() == Map::<Seq<u8>, Seq<Vote>>::empty());
        assert(forall|k: u64| #[trigger]
            n.spec_chain()@.blocks.contains_key(k) ==> n.spec_storage()@.blocks.contains_key(k)
                && n.spec_storage()@.blocks[k] == n.spec_chain()@.blocks[k]);
        assert(n.chain@.blocks.contains_key(n.chain@.height) ==> state_root_of(n.state)
            == n.chain@.blocks[n.chain@.height].state_root && n.consensus@.height
            == n.chain@.blocks[n.chain@.height].height);
        assert(n.consensus@.finalized matches Some((fh, fid)) ==> fh <= n.chain@.height
            && n.storage@.blocks.contains_key(fh) && n.storage@.blocks[fh].id == fid@);
        Ok(n)
    }
}

/// Whether it is `node`'s turn to propose the next block: the registered validators,
/// in address order, take the heights in turn.
pub fn is_local_proposer(node: &Node) -> (r: bool)
    requires
        node.wf(),
    ensures
        ({
            let l = node.spec_consensus().validator_list();
            let h = next_height(node.spec_chain()@.height);
            r == (l.len() > 0 && l[((h - 1) % (l.len() as int))].0 == node.spec_proposer())
        }),
{
    let height = node.chain.height().saturating_add(1);
    let validators = node.consensus.validators_snapshot();
    let n = validators.len();
    if n == 0 {
        return false;
    }
    let i = ((height - 1) % (n as u64)) as usize;
    let proposer = node.proposer_id();
    str_equal(validators.key_at(i).as_str(), proposer.as_str())
}

} // verus!
