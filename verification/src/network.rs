//! Wire format of the peer-to-peer transport and of stored blocks.
//!
//! A network frame is `magic(4) | version(1) | payload_len(u32 BE) | payload`. The
//! payload is a message tag followed by the message's fields; integers are
//! big-endian, strings and variable byte fields are length-prefixed.
use crate::blockchain::{spec_block_id, spec_tx_root, Block, BlockModel};
use crate::codec::{
    be32, be64, lp, pow256, push_bytes, push_lp, push_u32, push_u64, sp_bytes, sp_num,
    take_array32, take_array64, take_bytes, take_num, utf8_string, lemma_pow256_small,
    holds_at, lemma_holds_at_split, lemma_holds_at_whole, lemma_sp_lp_at, lemma_sp_num_at,
    decimal, push_decimal,
    slice_range,
};
use crate::consensus::Vote;
use crate::crypto::{ed25519_key_is_valid, ed25519_key_valid};
use crate::ordmap::{bytes_equal, map_of, OrdMap};
use crate::mempool::{
    opt_str_bytes, opt_str_view, push_opt_str, tx_id_of, utf8, Transaction, TxModel, TxType,
};
use vstd::prelude::*;

verus! {

/// Largest payload a frame may carry.
pub const MAX_FRAME: usize = 8388608;

/// Most transactions a block on the wire may hold.
pub const MAX_TX_PER_BLOCK: usize = 500;

/// Most validators a snapshot on the wire may hold.
pub const MAX_VALIDATORS_PER_SNAPSHOT: usize = 4096;

/// Protocol version carried by every frame.
pub const PROTOCOL_VERSION: u8 = 2;

// ---------------------------------------------------------------------------
// Field readers
// ---------------------------------------------------------------------------

/// `n` raw bytes at `q`.
pub open spec fn w_fixed(b: Seq<u8>, q: int, n: nat) -> Result<(Seq<u8>, int), Seq<char>> {
    match sp_bytes(b, q, n) {
        Some(x) => Ok(x),
        None => Err("truncated fixed field"@),
    }
}

/// A big-endian `u64` at `q`.
pub open spec fn w_u64(b: Seq<u8>, q: int) -> Result<(u64, int), Seq<char>> {
    match sp_num(b, q, 8) {
        Some((v, q1)) => Ok((v as u64, q1)),
        None => Err("truncated fixed field"@),
    }
}

/// A big-endian `u32` at `q`.
pub open spec fn w_u32(b: Seq<u8>, q: int) -> Result<(u32, int), Seq<char>> {
    match sp_num(b, q, 4) {
        Some((v, q1)) => Ok((v as u32, q1)),
        None => Err("truncated fixed field"@),
    }
}

/// One byte at `q`.
pub open spec fn w_u8(b: Seq<u8>, q: int) -> Result<(u8, int), Seq<char>> {
    if 0 <= q < b.len() {
        Ok((b[q], q + 1))
    } else {
        Err("truncated fixed field"@)
    }
}

/// A length-prefixed field at `q`.
pub open spec fn w_field(b: Seq<u8>, q: int) -> Result<(Seq<u8>, int), Seq<char>> {
    match sp_num(b, q, 4) {
        None => Err("truncated length"@),
        Some((n, q1)) => match sp_bytes(b, q1, n) {
            None => Err("truncated field"@),
            Some(x) => Ok(x),
        },
    }
}

/// A length-prefixed UTF-8 string at `q`; `err` where the bytes are not UTF-8.
pub open spec fn w_text(b: Seq<u8>, q: int, err: Seq<char>) -> Result<(Seq<char>, int), Seq<char>> {
    match w_field(b, q) {
        Err(e) => Err(e),
        Ok((bs, q1)) => if vstd::utf8::valid_utf8(bs) {
            Ok((vstd::utf8::decode_utf8(bs), q1))
        } else {
            Err(err)
        },
    }
}

fn read_u8(b: &[u8], p: &mut usize) -> (r: Result<u8, String>)
    ensures
        match w_u8(b@, *old(p) as int) {
            Ok((v, q)) => r == Ok::<u8, String>(v) && *final(p) == q,
            Err(m) => r matches Err(e) && e@ == m,
        },
{
    if *p < b.len() {
        let v = b[*p];
        *p = *p + 1;
        Ok(v)
    } else {
        Err("truncated fixed field".to_string())
    }
}

fn read_u32(b: &[u8], p: &mut usize) -> (r: Result<u32, String>)
    ensures
        match w_u32(b@, *old(p) as int) {
            Ok((v, q)) => r == Ok::<u32, String>(v) && *final(p) == q,
            Err(m) => r matches Err(e) && e@ == m,
        },
{
    proof {
        lemma_pow256_small();
    }
    match take_num(b, p, 4) {
        Some(v) => Ok(v as u32),
        None => Err("truncated fixed field".to_string()),
    }
}

fn read_u64(b: &[u8], p: &mut usize) -> (r: Result<u64, String>)
    ensures
        match w_u64(b@, *old(p) as int) {
            Ok((v, q)) => r == Ok::<u64, String>(v) && *final(p) == q,
            Err(m) => r matches Err(e) && e@ == m,
        },
{
    proof {
        lemma_pow256_small();
    }
    match take_num(b, p, 8) {
        Some(v) => Ok(v as u64),
        None => Err("truncated fixed field".to_string()),
    }
}

fn read_key(b: &[u8], p: &mut usize) -> (r: Result<[u8; 32], String>)
    ensures
        match w_fixed(b@, *old(p) as int, 32) {
            Ok((v, q)) => r matches Ok(k) && k@ == v && *final(p) == q,
            Err(m) => r matches Err(e) && e@ == m,
        },
{
    match take_array32(b, p) {
        Some(k) => Ok(k),
        None => Err("truncated fixed field".to_string()),
    }
}

fn read_sig(b: &[u8], p: &mut usize) -> (r: Result<[u8; 64], String>)
    ensures
        match w_fixed(b@, *old(p) as int, 64) {
            Ok((v, q)) => r matches Ok(k) && k@ == v && *final(p) == q,
            Err(m) => r matches Err(e) && e@ == m,
        },
{
    match take_array64(b, p) {
        Some(k) => Ok(k),
        None => Err("truncated fixed field".to_string()),
    }
}

fn read_field<'a>(b: &'a [u8], p: &mut usize) -> (r: Result<&'a [u8], String>)
    ensures
        match w_field(b@, *old(p) as int) {
            Ok((v, q)) => r matches Ok(x) && x@ == v && *final(p) == q,
            Err(m) => r matches Err(e) && e@ == m,
        },
{
    proof {
        lemma_pow256_small();
    }
    let n = match take_num(b, p, 4) {
        Some(n) => n,
        None => return Err("truncated length".to_string()),
    };
    match take_bytes(b, p, n as usize) {
        Some(x) => Ok(x),
        None => Err("truncated field".to_string()),
    }
}

fn read_text(b: &[u8], p: &mut usize, err: &str) -> (r: Result<String, String>)
    ensures
        match w_text(b@, *old(p) as int, err@) {
            Ok((v, q)) => r matches Ok(s) && s@ == v && *final(p) == q,
            Err(m) => r matches Err(e) && e@ == m,
        },
{
    let bs = read_field(b, p)?;
    match utf8_string(bs) {
        Some(s) => Ok(s),
        None => Err(err.to_string()),
    }
}

// ---------------------------------------------------------------------------
// Transactions
// ---------------------------------------------------------------------------

/// The transaction type with a given wire number (below four).
pub open spec fn tx_type_of(n: u8) -> TxType {
    if n == 0 {
        TxType::Transfer
    } else if n == 1 {
        TxType::Stake
    } else if n == 2 {
        TxType::Unstake
    } else {
        TxType::Contract
    }
}

/// Wire form of a transaction: every field but the identifier, which the fields
/// determine.
pub open spec fn tx_wire(t: TxModel) -> Seq<u8> {
    be64(t.chain_id) + seq![t.tx_type.spec_number()] + lp(utf8(t.sender)) + opt_str_bytes(
        t.recipient,
    ) + be64(t.amount) + be64(t.gas_price) + be64(t.gas_limit) + be64(t.nonce) + be64(
        t.timestamp,
    ) + lp(t.payload) + t.signature + t.public_key + t.poh_hash
}

/// The fields of a transaction after its recipient.
pub struct TxTail {
    pub amount: u64,
    pub gas_price: u64,
    pub gas_limit: u64,
    pub nonce: u64,
    pub timestamp: u64,
    pub payload: Seq<u8>,
    pub signature: Seq<u8>,
    pub public_key: Seq<u8>,
    pub poh_hash: Seq<u8>,
}

/// The optional recipient at `q`: a flag byte, then the string when the flag is one.
pub open spec fn w_recipient(b: Seq<u8>, q: int) -> Result<(Option<Seq<char>>, int), Seq<char>> {
    match w_u8(b, q) {
        Err(e) => Err(e),
        Ok((flag, q1)) => if flag == 0 {
            Ok((None, q1))
        } else if flag == 1 {
            match w_text(b, q1, "invalid recipient"@) {
                Err(e) => Err(e),
                Ok((r, q2)) => Ok((Some(r), q2)),
            }
        } else {
            Err("invalid recipient flag"@)
        },
    }
}

pub open spec fn tx_tail_parse(b: Seq<u8>, q: int) -> Result<(TxTail, int), Seq<char>> {
    match w_u64(b, q) {
        Err(e) => Err(e),
        Ok((amount, q)) => match w_u64(b, q) {
            Err(e) => Err(e),
            Ok((gas_price, q)) => match w_u64(b, q) {
                Err(e) => Err(e),
                Ok((gas_limit, q)) => match w_u64(b, q) {
                    Err(e) => Err(e),
                    Ok((nonce, q)) => match w_u64(b, q) {
                        Err(e) => Err(e),
                        Ok((timestamp, q)) => tx_keys_parse(
                            b,
                            q,
                            amount,
                            gas_price,
                            gas_limit,
                            nonce,
                            timestamp,
                        ),
                    },
                },
            },
        },
    }
}

pub open spec fn tx_keys_parse(
    b: Seq<u8>,
    q: int,
    amount: u64,
    gas_price: u64,
    gas_limit: u64,
    nonce: u64,
    timestamp: u64,
) -> Result<(TxTail, int), Seq<char>> {
    match w_field(b, q) {
        Err(e) => Err(e),
        Ok((payload, q)) => match w_fixed(b, q, 64) {
            Err(e) => Err(e),
            Ok((signature, q)) => match w_fixed(b, q, 32) {
                Err(e) => Err(e),
                Ok((public_key, q)) => match w_fixed(b, q, 32) {
                    Err(e) => Err(e),
                    Ok((poh_hash, q)) => Ok(
                        (
                            TxTail {
                                amount,
                                gas_price,
                                gas_limit,
                                nonce,
                                timestamp,
                                payload,
                                signature,
                                public_key,
                                poh_hash,
                            },
                            q,
                        ),
                    ),
                },
            },
        },
    }
}

/// The transaction with the given fields, its identifier computed from them.
pub open spec fn tx_from(
    chain_id: u64,
    t: TxType,
    sender: Seq<char>,
    recipient: Option<Seq<char>>,
    tail: TxTail,
) -> TxModel {
    TxModel {
        id: tx_id_of(
            chain_id,
            t,
            sender,
            recipient,
            tail.amount,
            tail.gas_price,
            tail.gas_limit,
            tail.nonce,
            tail.timestamp,
            tail.payload,
            tail.poh_hash,
        ),
        chain_id,
        tx_type: t,
        sender,
        recipient,
        amount: tail.amount,
        gas_price: tail.gas_price,
        gas_limit: tail.gas_limit,
        nonce: tail.nonce,
        timestamp: tail.timestamp,
        payload: tail.payload,
        signature: tail.signature,
        public_key: tail.public_key,
        poh_hash: tail.poh_hash,
    }
}

/// What the transaction at `q` denotes, and the position after it.
#[verifier::opaque]
pub open spec fn tx_parse(b: Seq<u8>, q: int) -> Result<(TxModel, int), Seq<char>> {
    match w_u64(b, q) {
        Err(e) => Err(e),
        Ok((chain_id, q)) => match w_u8(b, q) {
            Err(e) => Err(e),
            Ok((ty, q)) => if ty >= 4 {
                Err("invalid tx type"@)
            } else {
                match w_text(b, q, "invalid sender"@) {
                    Err(e) => Err(e),
                    Ok((sender, q)) => match w_recipient(b, q) {
                        Err(e) => Err(e),
                        Ok((recipient, q)) => match tx_tail_parse(b, q) {
                            Err(e) => Err(e),
                            Ok((tail, q)) => Ok(
                                (tx_from(chain_id, tx_type_of(ty), sender, recipient, tail), q),
                            ),
                        },
                    },
                }
            },
        },
    }
}

/// Appends the wire form of a transaction.
pub fn tx_encode(t: &Transaction, o: &mut Vec<u8>)
    ensures
        final(o)@ == old(o)@ + tx_wire(t@),
{
    push_u64(o, t.chain_id);
    o.push(t.tx_type.number());
    push_lp(o, t.sender_did.as_str().as_bytes());
    push_opt_str(o, &t.recipient_did);
    push_u64(o, t.amount);
    push_u64(o, t.gas_price);
    push_u64(o, t.gas_limit);
    push_u64(o, t.nonce);
    push_u64(o, t.timestamp);
    push_lp(o, t.payload.as_slice());
    push_bytes(o, t.signature.as_slice());
    push_bytes(o, t.public_key.as_slice());
    push_bytes(o, t.poh_hash.as_slice());
    assert(final(o)@ =~= old(o)@ + tx_wire(t@));
}

fn read_recipient(b: &[u8], p: &mut usize) -> (r: Result<Option<String>, String>)
    ensures
        match w_recipient(b@, *old(p) as int) {
            Ok((v, q)) => r matches Ok(x) && opt_str_view(x) == v && *final(p) == q,
            Err(m) => r matches Err(e) && e@ == m,
        },
{
    let flag = read_u8(b, p)?;
    if flag == 0 {
        Ok(None)
    } else if flag == 1 {
        let s = read_text(b, p, "invalid recipient")?;
        Ok(Some(s))
    } else {
        Err("invalid recipient flag".to_string())
    }
}

/// Reads the transaction at `*p`, advancing the cursor past it.
pub fn tx_decode(b: &[u8], p: &mut usize) -> (r: Result<Transaction, String>)
    ensures
        match tx_parse(b@, *old(p) as int) {
            Ok((t, q)) => r matches Ok(x) && x@ == t && *final(p) == q,
            Err(m) => r matches Err(e) && e@ == m,
        },
{
    reveal(tx_parse);
    let chain_id = read_u64(b, p)?;
    let ty = read_u8(b, p)?;
    let tx_type = match TxType::from_number(ty) {
        Some(t) => t,
        None => return Err("invalid tx type".to_string()),
    };
    assert(tx_type == tx_type_of(ty));
    let sender = read_text(b, p, "invalid sender")?;
    let recipient = read_recipient(b, p)?;
    let amount = read_u64(b, p)?;
    let gas_price = read_u64(b, p)?;
    let gas_limit = read_u64(b, p)?;
    let nonce = read_u64(b, p)?;
    let timestamp = read_u64(b, p)?;
    let payload = read_field(b, p)?;
    let signature = read_sig(b, p)?;
    let public_key = read_key(b, p)?;
    let poh = read_key(b, p)?;
    let t = Transaction::new_with_chain_id(
        chain_id,
        tx_type,
        sender,
        recipient,
        amount,
        gas_price,
        gas_limit,
        nonce,
        timestamp,
        vstd::slice::slice_to_vec(payload),
        signature,
        public_key,
        poh,
    );
    Ok(t)
}

// ---------------------------------------------------------------------------
// Blocks
// ---------------------------------------------------------------------------

/// Wire forms of the transactions, each length-prefixed, one after the other.
pub open spec fn txs_wire(txs: Seq<TxModel>) -> Seq<u8>
    decreases txs.len(),
{
    if txs.len() == 0 {
        Seq::empty()
    } else {
        txs_wire(txs.drop_last()) + lp(tx_wire(txs.last()))
    }
}

/// Wire form of a block: header, transaction count and transactions, the three
/// roots, the signature and the identifier.
pub open spec fn block_wire(b: BlockModel) -> Seq<u8> {
    be64(b.height) + b.parent_hash + lp(utf8(b.proposer)) + be64(b.timestamp) + be32(
        b.transactions.len() as u32,
    ) + txs_wire(b.transactions) + b.tx_root + b.state_root + b.receipt_root + b.signature + b.id
}

/// Header fields of a block before its transactions.
pub struct BlockHead {
    pub height: u64,
    pub parent: Seq<u8>,
    pub proposer: Seq<char>,
    pub timestamp: u64,
}

/// Fields of a block after its transactions.
pub struct BlockTail {
    pub tx_root: Seq<u8>,
    pub state_root: Seq<u8>,
    pub receipt_root: Seq<u8>,
    pub signature: Seq<u8>,
    pub id: Seq<u8>,
}

pub open spec fn block_head_parse(b: Seq<u8>, q: int) -> Result<(BlockHead, int), Seq<char>> {
    match w_u64(b, q) {
        Err(e) => Err(e),
        Ok((height, q)) => match w_fixed(b, q, 32) {
            Err(e) => Err(e),
            Ok((parent, q)) => match w_text(b, q, "invalid proposer"@) {
                Err(e) => Err(e),
                Ok((proposer, q)) => match w_u64(b, q) {
                    Err(e) => Err(e),
                    Ok((timestamp, q)) => Ok(
                        (BlockHead { height, parent, proposer, timestamp }, q),
                    ),
                },
            },
        },
    }
}

pub open spec fn block_tail_parse(b: Seq<u8>, q: int) -> Result<(BlockTail, int), Seq<char>> {
    match w_fixed(b, q, 32) {
        Err(e) => Err(e),
        Ok((tx_root, q)) => match w_fixed(b, q, 32) {
            Err(e) => Err(e),
            Ok((state_root, q)) => match w_fixed(b, q, 32) {
                Err(e) => Err(e),
                Ok((receipt_root, q)) => match w_fixed(b, q, 64) {
                    Err(e) => Err(e),
                    Ok((signature, q)) => match w_fixed(b, q, 32) {
                        Err(e) => Err(e),
                        Ok((id, q)) => Ok(
                            (BlockTail { tx_root, state_root, receipt_root, signature, id }, q),
                        ),
                    },
                },
            },
        },
    }
}

/// The `n` length-prefixed transactions at `q`; each field must hold exactly one
/// transaction.
pub open spec fn txs_parse(b: Seq<u8>, q: int, n: nat) -> Result<(Seq<TxModel>, int), Seq<char>>
    decreases n,
{
    if n == 0 {
        Ok((Seq::empty(), q))
    } else {
        match txs_parse(b, q, (n - 1) as nat) {
            Err(e) => Err(e),
            Ok((txs, q1)) => match w_field(b, q1) {
                Err(e) => Err(e),
                Ok((raw, q2)) => match tx_parse(raw, 0) {
                    Err(e) => Err(e),
                    Ok((t, r)) => if r != raw.len() {
                        Err("trailing tx bytes"@)
                    } else {
                        Ok((txs.push(t), q2))
                    },
                },
            },
        }
    }
}

/// The block over the given fields, its transaction root and identifier computed.
pub open spec fn block_from(head: BlockHead, txs: Seq<TxModel>, tail: BlockTail) -> BlockModel {
    let tr = spec_tx_root(txs);
    let pre = BlockModel {
        id: Seq::empty(),
        height: head.height,
        parent_hash: head.parent,
        proposer: head.proposer,
        timestamp: head.timestamp,
        transactions: txs,
        tx_root: tr,
        state_root: tail.state_root,
        receipt_root: tail.receipt_root,
        signature: tail.signature,
    };
    BlockModel {
        id: spec_block_id(pre),
        height: head.height,
        parent_hash: head.parent,
        proposer: head.proposer,
        timestamp: head.timestamp,
        transactions: txs,
        tx_root: tr,
        state_root: tail.state_root,
        receipt_root: tail.receipt_root,
        signature: tail.signature,
    }
}

/// What a block on the wire denotes: at most `MAX_TX_PER_BLOCK` transactions,
/// nothing trailing, and stored commitments equal to the recomputed ones.
#[verifier::opaque]
pub open spec fn block_parse(b: Seq<u8>) -> Result<BlockModel, Seq<char>> {
    match block_head_parse(b, 0) {
        Err(e) => Err(e),
        Ok((head, q)) => match w_u32(b, q) {
            Err(e) => Err(e),
            Ok((n, q)) => if n > 500 {
                Err("block transaction count exceeds protocol limit"@)
            } else {
                match txs_parse(b, q, n as nat) {
                    Err(e) => Err(e),
                    Ok((txs, q)) => match block_tail_parse(b, q) {
                        Err(e) => Err(e),
                        Ok((tail, q)) => if q != b.len() {
                            Err("trailing block bytes"@)
                        } else {
                            let out = block_from(head, txs, tail);
                            if out.tx_root != tail.tx_root || out.id != tail.id {
                                Err("block commitment mismatch"@)
                            } else {
                                Ok(out)
                            }
                        },
                    },
                }
            },
        },
    }
}

/// Appends the wire form of a block.
pub fn push_block(o: &mut Vec<u8>, b: &Block)
    ensures
        final(o)@ == old(o)@ + block_wire(b@),
{
    let ghost ms = b@.transactions;
    let ghost o0 = o@;
    push_u64(o, b.height);
    push_bytes(o, b.parent_hash.as_slice());
    push_lp(o, b.proposer.as_str().as_bytes());
    push_u64(o, b.timestamp);
    push_u32(o, b.transactions.len() as u32);
    let ghost mid = o@;
    let mut i: usize = 0;
    assert(ms.take(0) =~= Seq::<TxModel>::empty());
    while i < b.transactions.len()
        invariant
            ms == b@.transactions,
            ms == b.transactions@.map_values(|t: Transaction| t@),
            i <= b.transactions@.len(),
            o@ == mid + txs_wire(ms.take(i as int)),
        decreases b.transactions@.len() - i,
    {
        let mut x: Vec<u8> = Vec::new();
        tx_encode(&b.transactions[i], &mut x);
        assert(x@ =~= tx_wire(ms[i as int]));
        push_lp(o, x.as_slice());
        proof {
            assert(ms.take(i + 1).drop_last() =~= ms.take(i as int));
            assert(ms.take(i + 1).last() == ms[i as int]);
        }
        i = i + 1;
    }
    assert(ms.take(ms.len() as int) =~= ms);
    push_bytes(o, b.tx_root.as_slice());
    push_bytes(o, b.state_root.as_slice());
    push_bytes(o, b.receipt_root.as_slice());
    push_bytes(o, b.signature.as_slice());
    push_bytes(o, b.id.as_slice());
    assert(o@ =~= o0 + block_wire(b@));
}

/// The wire form of a block.
pub fn block_encode(b: &Block) -> (o: Vec<u8>)
    ensures
        o@ == block_wire(b@),
{
    let mut o: Vec<u8> = Vec::new();
    push_block(&mut o, b);
    assert(o@ =~= block_wire(b@));
    o
}

/// Once reading the first `i` transactions fails, reading more fails the same way.
pub proof fn lemma_txs_parse_err(b: Seq<u8>, q: int, i: nat, n: nat)
    requires
        i <= n,
        txs_parse(b, q, i) is Err,
    ensures
        txs_parse(b, q, n) == txs_parse(b, q, i),
    decreases n,
{
    if n > i {
        lemma_txs_parse_err(b, q, i, (n - 1) as nat);
    }
}

/// Reads `n` length-prefixed transactions at `*p`.
pub fn txs_decode(b: &[u8], p: &mut usize, n: u32) -> (r: Result<Vec<Transaction>, String>)
    ensures
        match txs_parse(b@, *old(p) as int, n as nat) {
            Ok((txs, q)) => r matches Ok(x) && x@.map_values(|t: Transaction| t@) == txs
                && *final(p) == q,
            Err(m) => r matches Err(e) && e@ == m,
        },
{
    let ghost p0 = *p as int;
    let mut txs: Vec<Transaction> = Vec::new();
    let mut i: u32 = 0;
    assert(txs@.map_values(|t: Transaction| t@) =~= Seq::<TxModel>::empty());
    while i < n
        invariant
            i <= n,
            p0 == *old(p) as int,
            txs_parse(b@, p0, i as nat) == Ok::<(Seq<TxModel>, int), Seq<char>>(
                (txs@.map_values(|t: Transaction| t@), *p as int),
            ),
        decreases n - i,
    {
        let ghost pi = *p as int;
        let raw = match read_field(b, p) {
            Ok(raw) => raw,
            Err(e) => {
                proof {
                    lemma_txs_parse_err(b@, p0, (i + 1) as nat, n as nat);
                }
                return Err(e);
            },
        };
        let mut q: usize = 0;
        let t = match tx_decode(raw, &mut q) {
            Ok(t) => t,
            Err(e) => {
                proof {
                    lemma_txs_parse_err(b@, p0, (i + 1) as nat, n as nat);
                }
                return Err(e);
            },
        };
        if q != raw.len() {
            proof {
                lemma_txs_parse_err(b@, p0, (i + 1) as nat, n as nat);
            }
            return Err("trailing tx bytes".to_string());
        }
        let ghost before = txs@.map_values(|t: Transaction| t@);
        txs.push(t);
        assert(txs@.map_values(|t: Transaction| t@) =~= before.push(t@));
        i = i + 1;
    }
    Ok(txs)
}

/// Reads the block that fills `b`.
pub fn block_decode(b: &[u8]) -> (r: Result<Block, String>)
    ensures
        match block_parse(b@) {
            Ok(m) => r matches Ok(x) && x@ == m,
            Err(m) => r matches Err(e) && e@ == m,
        },
{
    reveal(block_parse);
    let mut p: usize = 0;
    let h = read_u64(b, &mut p)?;
    let parent = read_key(b, &mut p)?;
    let proposer = read_text(b, &mut p, "invalid proposer")?;
    let ts = read_u64(b, &mut p)?;
    let n = read_u32(b, &mut p)?;
    if n > 500 {
        return Err("block transaction count exceeds protocol limit".to_string());
    }
    let txs = txs_decode(b, &mut p, n)?;
    let tx_root = read_key(b, &mut p)?;
    let state = read_key(b, &mut p)?;
    let receipt = read_key(b, &mut p)?;
    let sig = read_sig(b, &mut p)?;
    let id = read_key(b, &mut p)?;
    if p != b.len() {
        return Err("trailing block bytes".to_string());
    }
    let out = Block::new(h, parent, proposer, ts, txs, state, receipt, sig);
    if !bytes_equal(out.tx_root.as_slice(), tx_root.as_slice())
        || !bytes_equal(out.id.as_slice(), id.as_slice()) {
        return Err("block commitment mismatch".to_string());
    }
    Ok(out)
}

// ---------------------------------------------------------------------------
// Votes
// ---------------------------------------------------------------------------

/// Content of a vote, the voter taken by its characters.
pub struct VoteModel {
    pub block: Seq<u8>,
    pub voter: Seq<char>,
    pub approve: bool,
    pub signature: Seq<u8>,
    pub public_key: Seq<u8>,
}

pub open spec fn vote_model(v: Vote) -> VoteModel {
    VoteModel {
        block: v.block@,
        voter: v.voter@,
        approve: v.approve,
        signature: v.signature@,
        public_key: v.public_key@,
    }
}

/// Wire form of a vote: block, voter, approval flag, signature, public key.
pub open spec fn vote_wire(v: VoteModel) -> Seq<u8> {
    v.block + lp(utf8(v.voter)) + seq![if v.approve { 1u8 } else { 0u8 }] + v.signature
        + v.public_key
}

/// What a vote that fills `b` denotes.
pub open spec fn vote_parse(b: Seq<u8>) -> Result<VoteModel, Seq<char>> {
    match w_fixed(b, 0, 32) {
        Err(e) => Err(e),
        Ok((block, q)) => match w_text(b, q, "invalid voter"@) {
            Err(e) => Err(e),
            Ok((voter, q)) => match w_u8(b, q) {
                Err(e) => Err(e),
                Ok((flag, q)) => if flag > 1 {
                    Err("invalid vote flag"@)
                } else {
                    match w_fixed(b, q, 64) {
                        Err(e) => Err(e),
                        Ok((signature, q)) => match w_fixed(b, q, 32) {
                            Err(e) => Err(e),
                            Ok((public_key, q)) => if q != b.len() {
                                Err("trailing vote bytes"@)
                            } else {
                                Ok(
                                    VoteModel {
                                        block,
                                        voter,
                                        approve: flag == 1,
                                        signature,
                                        public_key,
                                    },
                                )
                            },
                        },
                    }
                },
            },
        },
    }
}

/// Appends the wire form of a vote.
pub fn push_vote(o: &mut Vec<u8>, v: &Vote)
    ensures
        final(o)@ == old(o)@ + vote_wire(vote_model(*v)),
{
    push_bytes(o, v.block.as_slice());
    push_lp(o, v.voter.as_str().as_bytes());
    o.push(if v.approve { 1 } else { 0 });
    push_bytes(o, v.signature.as_slice());
    push_bytes(o, v.public_key.as_slice());
    assert(final(o)@ =~= old(o)@ + vote_wire(vote_model(*v)));
}

/// Reads the vote that fills `b`.
pub fn vote_decode(b: &[u8]) -> (r: Result<Vote, String>)
    ensures
        match vote_parse(b@) {
            Ok(m) => r matches Ok(v) && vote_model(v) == m,
            Err(m) => r matches Err(e) && e@ == m,
        },
{
    let mut p: usize = 0;
    let block = read_key(b, &mut p)?;
    let voter = read_text(b, &mut p, "invalid voter")?;
    let flag = read_u8(b, &mut p)?;
    if flag > 1 {
        return Err("invalid vote flag".to_string());
    }
    let signature = read_sig(b, &mut p)?;
    let public_key = read_key(b, &mut p)?;
    if p != b.len() {
        return Err("trailing vote bytes".to_string());
    }
    Ok(Vote { block, voter, approve: flag == 1, signature, public_key })
}

// ---------------------------------------------------------------------------
// Validator snapshots
// ---------------------------------------------------------------------------

/// Entries of a snapshot, each an address, its stake and its key, in `pairs`' order.
pub open spec fn snapshot_entries_wire(
    pairs: Seq<(Seq<char>, u64)>,
    keys: Map<Seq<char>, [u8; 32]>,
) -> Seq<u8>
    decreases pairs.len(),
{
    if pairs.len() == 0 {
        Seq::empty()
    } else {
        snapshot_entries_wire(pairs.drop_last(), keys) + lp(utf8(pairs.last().0)) + be64(
            pairs.last().1,
        ) + keys[pairs.last().0]@
    }
}

/// Encoding of a validator snapshot: refused where the maps differ in size, hold more
/// than `MAX_VALIDATORS_PER_SNAPSHOT` validators, or a validator has no key.
pub open spec fn snapshot_encoding(
    activation_height: u64,
    validators: OrdMap<String, u64>,
    keys: OrdMap<String, [u8; 32]>,
) -> Result<Seq<u8>, Seq<char>> {
    if validators@.len() != keys@.len() || validators@.len() > 4096 {
        Err("invalid validator snapshot size or key cardinality"@)
    } else if exists|i: int|
        0 <= i < validators.pairs().len() && !keys@.contains_key(
            (#[trigger] validators.pairs()[i]).0,
        ) {
        Err("validator snapshot missing public key"@)
    } else {
        Ok(
            be64(activation_height) + be32(validators@.len() as u32) + snapshot_entries_wire(
                validators.pairs(),
                keys@,
            ),
        )
    }
}

/// Whether an address occurs among the entries read so far.
pub open spec fn entries_have(es: Seq<(Seq<char>, u64, Seq<u8>)>, a: Seq<char>) -> bool {
    exists|i: int| 0 <= i < es.len() && (#[trigger] es[i]).0 == a
}

/// The `n` entries of a snapshot at `q`: each key must be a valid Ed25519 key, each
/// address non-empty and new, each stake positive.
pub open spec fn snapshot_entries_parse(b: Seq<u8>, q: int, n: nat) -> Result<
    (Seq<(Seq<char>, u64, Seq<u8>)>, int),
    Seq<char>,
>
    decreases n,
{
    if n == 0 {
        Ok((Seq::empty(), q))
    } else {
        match snapshot_entries_parse(b, q, (n - 1) as nat) {
            Err(e) => Err(e),
            Ok((es, q)) => match w_text(b, q, "invalid validator address"@) {
                Err(e) => Err(e),
                Ok((address, q)) => match w_u64(b, q) {
                    Err(e) => Err(e),
                    Ok((stake, q)) => match w_fixed(b, q, 32) {
                        Err(e) => Err(e),
                        Ok((key, q)) => if !ed25519_key_valid(key) {
                            Err("invalid validator public key"@)
                        } else if address.len() == 0 || stake == 0 || entries_have(es, address) {
                            Err("invalid or duplicate validator record"@)
                        } else {
                            Ok((es.push((address, stake, key)), q))
                        },
                    },
                },
            },
        }
    }
}

/// Stakes of the entries by address.
pub open spec fn entry_stakes(es: Seq<(Seq<char>, u64, Seq<u8>)>) -> Map<Seq<char>, u64>
    decreases es.len(),
{
    if es.len() == 0 {
        Map::empty()
    } else {
        entry_stakes(es.drop_last()).insert(es.last().0, es.last().1)
    }
}

/// Keys of the entries by address.
pub open spec fn entry_keys(es: Seq<(Seq<char>, u64, Seq<u8>)>) -> Map<Seq<char>, Seq<u8>>
    decreases es.len(),
{
    if es.len() == 0 {
        Map::empty()
    } else {
        entry_keys(es.drop_last()).insert(es.last().0, es.last().2)
    }
}

/// A snapshot at `q`: activation height, count (at most `MAX_VALIDATORS_PER_SNAPSHOT`),
/// entries.
pub open spec fn snapshot_parse(b: Seq<u8>, q: int) -> Result<
    (u64, Seq<(Seq<char>, u64, Seq<u8>)>, int),
    Seq<char>,
> {
    match w_u64(b, q) {
        Err(e) => Err(e),
        Ok((h, q)) => match w_u32(b, q) {
            Err(e) => Err(e),
            Ok((n, q)) => if n > 4096 {
                Err("validator snapshot exceeds protocol limit"@)
            } else {
                match snapshot_entries_parse(b, q, n as nat) {
                    Err(e) => Err(e),
                    Ok((es, q)) => Ok((h, es, q)),
                }
            },
        },
    }
}

/// The keys of a key map taken by their bytes.
pub open spec fn key_bytes(keys: Map<Seq<char>, [u8; 32]>) -> Map<Seq<char>, Seq<u8>> {
    keys.map_values(|k: [u8; 32]| k@)
}

/// Appends a validator snapshot.
pub fn push_snapshot(
    o: &mut Vec<u8>,
    activation_height: u64,
    validators: &OrdMap<String, u64>,
    keys: &OrdMap<String, [u8; 32]>,
) -> (r: Result<(), String>)
    requires
        validators.wf(),
        keys.wf(),
    ensures
        match snapshot_encoding(activation_height, *validators, *keys) {
            Ok(bytes) => r is Ok && final(o)@ == old(o)@ + bytes,
            Err(m) => r matches Err(e) && e@ == m,
        },
{
    let n = validators.len();
    if n != keys.len() || n > 4096 {
        return Err("invalid validator snapshot size or key cardinality".to_string());
    }
    let ghost o0 = o@;
    let ghost pairs = validators.pairs();
    push_u64(o, activation_height);
    push_u32(o, n as u32);
    let ghost mid = o@;
    let mut i: usize = 0;
    assert(pairs.take(0) =~= Seq::<(Seq<char>, u64)>::empty());
    while i < n
        invariant
            validators.wf(),
            keys.wf(),
            pairs == validators.pairs(),
            n == pairs.len(),
            n == validators@.len(),
            validators@.len() == keys@.len(),
            n <= 4096,
            i <= n,
            forall|j: int| 0 <= j < i ==> keys@.contains_key((#[trigger] pairs[j]).0),
            o@ == mid + snapshot_entries_wire(pairs.take(i as int), keys@),
        decreases n - i,
    {
        let address = validators.key_at(i);
        let stake = *validators.value_at(i);
        let key = match keys.get(address) {
            Some(k) => *k,
            None => {
                assert(!keys@.contains_key(validators.pairs()[i as int].0));
                return Err("validator snapshot missing public key".to_string());
            },
        };
        push_lp(o, address.as_str().as_bytes());
        push_u64(o, stake);
        push_bytes(o, key.as_slice());
        proof {
            assert(pairs.take(i + 1).drop_last() =~= pairs.take(i as int));
            assert(pairs.take(i + 1).last() == pairs[i as int]);
        }
        i = i + 1;
    }
    assert(pairs.take(n as int) =~= pairs);
    assert(o@ =~= o0 + be64(activation_height) + be32(validators@.len() as u32)
        + snapshot_entries_wire(validators.pairs(), keys@));
    Ok(())
}

/// Once reading the first `i` entries fails, reading more fails the same way.
pub proof fn lemma_snapshot_entries_err(b: Seq<u8>, q: int, i: nat, n: nat)
    requires
        i <= n,
        snapshot_entries_parse(b, q, i) is Err,
    ensures
        snapshot_entries_parse(b, q, n) == snapshot_entries_parse(b, q, i),
    decreases n,
{
    if n > i {
        lemma_snapshot_entries_err(b, q, i, (n - 1) as nat);
    }
}

/// Reads a validator snapshot at `*p`.
pub fn snapshot_decode(b: &[u8], p: &mut usize) -> (r: Result<
    (u64, OrdMap<String, u64>, OrdMap<String, [u8; 32]>),
    String,
>)
    ensures
        match snapshot_parse(b@, *old(p) as int) {
            Ok((h, es, q)) => r matches Ok((h2, v, k)) && h2 == h && v.wf() && k.wf() && v@
                == entry_stakes(es) && key_bytes(k@) == entry_keys(es) && *final(p) == q,
            Err(m) => r matches Err(e) && e@ == m,
        },
{
    let h = read_u64(b, p)?;
    let n = read_u32(b, p)?;
    if n > 4096 {
        return Err("validator snapshot exceeds protocol limit".to_string());
    }
    let ghost p0 = *p as int;
    let ghost ps = *old(p) as int;
    assert(snapshot_parse(b@, ps) == match snapshot_entries_parse(b@, p0, n as nat) {
        Err(e) => Err::<(u64, Seq<(Seq<char>, u64, Seq<u8>)>, int), Seq<char>>(e),
        Ok((es2, q)) => Ok((h, es2, q)),
    });
    let mut validators: OrdMap<String, u64> = OrdMap::new();
    let mut keys: OrdMap<String, [u8; 32]> = OrdMap::new();
    let ghost mut es: Seq<(Seq<char>, u64, Seq<u8>)> = Seq::empty();
    let mut i: u32 = 0;
    assert(key_bytes(keys@) =~= entry_keys(es));
    while i < n
        invariant
            i <= n,
            validators.wf(),
            keys.wf(),
            snapshot_entries_parse(b@, p0, i as nat) == Ok::<
                (Seq<(Seq<char>, u64, Seq<u8>)>, int),
                Seq<char>,
            >((es, *p as int)),
            validators@ == entry_stakes(es),
            key_bytes(keys@) == entry_keys(es),
            ps == *old(p) as int,
            snapshot_parse(b@, ps) == match snapshot_entries_parse(b@, p0, n as nat) {
                Err(e) => Err::<(u64, Seq<(Seq<char>, u64, Seq<u8>)>, int), Seq<char>>(e),
                Ok((es2, q)) => Ok((h, es2, q)),
            },
            forall|a: Seq<char>| validators@.contains_key(a) <==> entries_have(es, a),
        decreases n - i,
    {
        let address = match read_text(b, p, "invalid validator address") {
            Ok(a) => a,
            Err(e) => {
                proof {
                    lemma_snapshot_entries_err(b@, p0, (i + 1) as nat, n as nat);
                }
                return Err(e);
            },
        };
        let stake = match read_u64(b, p) {
            Ok(s) => s,
            Err(e) => {
                proof {
                    lemma_snapshot_entries_err(b@, p0, (i + 1) as nat, n as nat);
                }
                return Err(e);
            },
        };
        let key = match read_key(b, p) {
            Ok(k) => k,
            Err(e) => {
                proof {
                    lemma_snapshot_entries_err(b@, p0, (i + 1) as nat, n as nat);
                }
                return Err(e);
            },
        };
        if !ed25519_key_is_valid(&key) {
            proof {
                lemma_snapshot_entries_err(b@, p0, (i + 1) as nat, n as nat);
            }
            return Err("invalid validator public key".to_string());
        }
        if address.as_str().is_empty() || stake == 0 || validators.contains_key(&address) {
            proof {
                lemma_snapshot_entries_err(b@, p0, (i + 1) as nat, n as nat);
            }
            return Err("invalid or duplicate validator record".to_string());
        }
        let ghost entry = (address@, stake, key@);
        validators.insert(address.clone(), stake);
        keys.insert(address, key);
        proof {
            let old_es = es;
            es = es.push(entry);
            assert(es.drop_last() =~= old_es);
            assert(key_bytes(keys@) =~= entry_keys(es));
            assert forall|a: Seq<char>| validators@.contains_key(a) <==> entries_have(es, a) by {
                if entries_have(old_es, a) {
                    let j = choose|j: int| 0 <= j < old_es.len() && (#[trigger] old_es[j]).0 == a;
                    assert(es[j] == old_es[j]);
                }
                if a == entry.0 {
                    assert(es[old_es.len() as int] == entry);
                }
                if entries_have(es, a) && a != entry.0 {
                    let j = choose|j: int| 0 <= j < es.len() && (#[trigger] es[j]).0 == a;
                    assert(j < old_es.len());
                    assert(old_es[j] == es[j]);
                }
            }
        }
        i = i + 1;
    }
    Ok((h, validators, keys))
}

// ---------------------------------------------------------------------------
// Messages
// ---------------------------------------------------------------------------

#[derive(Clone, Debug, PartialEq, Eq)]
pub enum NetworkMessage {
    Hello { chain_id: u64, node_id: String, height: u64, best_block: [u8; 32] },
    Transaction(Transaction),
    Block(Block),
    Vote(Vote),
    BlockRequest { from_height: u64 },
    BlockWithValidatorSnapshot {
        block: Block,
        activation_height: u64,
        validators: OrdMap<String, u64>,
        validator_keys: OrdMap<String, [u8; 32]>,
    },
    StatusRequest,
    Status { height: u64, best_block: [u8; 32], finalized: Option<(u64, [u8; 32])> },
}

/// Content of a message, strings by their characters and maps by their contents.
pub enum MessageModel {
    Hello { chain_id: u64, node_id: Seq<char>, height: u64, best_block: Seq<u8> },
    Transaction(TxModel),
    Block(BlockModel),
    Vote(VoteModel),
    BlockRequest { from_height: u64 },
    BlockWithValidatorSnapshot {
        block: BlockModel,
        activation_height: u64,
        validators: Map<Seq<char>, u64>,
        validator_keys: Map<Seq<char>, Seq<u8>>,
    },
    StatusRequest,
    Status { height: u64, best_block: Seq<u8>, finalized: Option<(u64, Seq<u8>)> },
}

pub open spec fn finalized_model(f: Option<(u64, [u8; 32])>) -> Option<(u64, Seq<u8>)> {
    match f {
        Some((h, id)) => Some((h, id@)),
        None => None,
    }
}

impl View for NetworkMessage {
    type V = MessageModel;

    open spec fn view(&self) -> MessageModel {
        match self {
            NetworkMessage::Hello { chain_id, node_id, height, best_block } =>
                MessageModel::Hello {
                chain_id: *chain_id,
                node_id: node_id@,
                height: *height,
                best_block: best_block@,
            },
            NetworkMessage::Transaction(t) => MessageModel::Transaction(t@),
            NetworkMessage::Block(b) => MessageModel::Block(b@),
            NetworkMessage::Vote(v) => MessageModel::Vote(vote_model(*v)),
            NetworkMessage::BlockRequest { from_height } => MessageModel::BlockRequest {
                from_height: *from_height,
            },
            NetworkMessage::BlockWithValidatorSnapshot {
                block,
                activation_height,
                validators,
                validator_keys,
            } => MessageModel::BlockWithValidatorSnapshot {
                block: block@,
                activation_height: *activation_height,
                validators: validators@,
                validator_keys: key_bytes(validator_keys@),
            },
            NetworkMessage::StatusRequest => MessageModel::StatusRequest,
            NetworkMessage::Status { height, best_block, finalized } => MessageModel::Status {
                height: *height,
                best_block: best_block@,
                finalized: finalized_model(*finalized),
            },
        }
    }
}

impl NetworkMessage {
    /// The maps a message carries are well formed.
    pub open spec fn wf(&self) -> bool {
        match self {
            NetworkMessage::BlockWithValidatorSnapshot { validators, validator_keys, .. } =>
                validators.wf() && validator_keys.wf(),
            _ => true,
        }
    }
}

/// Wire form of the finality marker of a status: a flag, then height and block.
pub open spec fn finalized_wire(f: Option<(u64, [u8; 32])>) -> Seq<u8> {
    match f {
        Some((h, id)) => seq![1u8] + be64(h) + id@,
        None => seq![0u8],
    }
}

/// The payload a message is sent as: a tag, then its fields; refused only for a
/// snapshot that cannot be encoded.
pub open spec fn message_encoding(m: NetworkMessage) -> Result<Seq<u8>, Seq<char>> {
    match m {
        NetworkMessage::Hello { chain_id, node_id, height, best_block } => Ok(
            seq![0u8] + be64(chain_id) + lp(utf8(node_id@)) + be64(height) + best_block@,
        ),
        NetworkMessage::Transaction(t) => Ok(seq![1u8] + tx_wire(t@)),
        NetworkMessage::Block(b) => Ok(seq![2u8] + block_wire(b@)),
        NetworkMessage::Vote(v) => Ok(seq![3u8] + vote_wire(vote_model(v))),
        NetworkMessage::BlockRequest { from_height } => Ok(seq![4u8] + be64(from_height)),
        NetworkMessage::BlockWithValidatorSnapshot {
            block,
            activation_height,
            validators,
            validator_keys,
        } => match snapshot_encoding(activation_height, validators, validator_keys) {
            Err(e) => Err(e),
            Ok(snap) => Ok(seq![7u8] + lp(block_wire(block@)) + snap),
        },
        NetworkMessage::StatusRequest => Ok(seq![5u8]),
        NetworkMessage::Status { height, best_block, finalized } => Ok(
            seq![6u8] + be64(height) + best_block@ + finalized_wire(finalized),
        ),
    }
}

/// A message read up to `q`, refused where bytes follow.
pub open spec fn whole_message(b: Seq<u8>, r: Result<(MessageModel, int), Seq<char>>) -> Result<
    MessageModel,
    Seq<char>,
> {
    match r {
        Err(e) => Err(e),
        Ok((m, q)) => if q != b.len() {
            Err("trailing network message bytes"@)
        } else {
            Ok(m)
        },
    }
}

pub open spec fn hello_parse(b: Seq<u8>, q: int) -> Result<(MessageModel, int), Seq<char>> {
    match w_u64(b, q) {
        Err(e) => Err(e),
        Ok((chain_id, q)) => match w_text(b, q, "invalid node id"@) {
            Err(e) => Err(e),
            Ok((node_id, q)) => match w_u64(b, q) {
                Err(e) => Err(e),
                Ok((height, q)) => match w_fixed(b, q, 32) {
                    Err(e) => Err(e),
                    Ok((best_block, q)) => Ok(
                        (MessageModel::Hello { chain_id, node_id, height, best_block }, q),
                    ),
                },
            },
        },
    }
}

/// A status: height, best block, and a finality marker where the flag byte is one.
pub open spec fn status_parse(b: Seq<u8>, q: int) -> Result<(MessageModel, int), Seq<char>> {
    match w_u64(b, q) {
        Err(e) => Err(e),
        Ok((height, q)) => match w_fixed(b, q, 32) {
            Err(e) => Err(e),
            Ok((best_block, q)) => match w_u8(b, q) {
                Err(e) => Err(e),
                Ok((has, q)) => if has == 1 {
                    match w_u64(b, q) {
                        Err(e) => Err(e),
                        Ok((h, q)) => match w_fixed(b, q, 32) {
                            Err(e) => Err(e),
                            Ok((id, q)) => Ok(
                                (
                                    MessageModel::Status {
                                        height,
                                        best_block,
                                        finalized: Some((h, id)),
                                    },
                                    q,
                                ),
                            ),
                        },
                    }
                } else {
                    Ok((MessageModel::Status { height, best_block, finalized: None }, q))
                },
            },
        },
    }
}

/// A block with the validator snapshot it activates; bytes after the snapshot are
/// not looked at.
pub open spec fn block_snapshot_parse(b: Seq<u8>, q: int) -> Result<MessageModel, Seq<char>> {
    match w_field(b, q) {
        Err(e) => Err(e),
        Ok((raw, q)) => match block_parse(raw) {
            Err(e) => Err(e),
            Ok(block) => match snapshot_parse(b, q) {
                Err(e) => Err(e),
                Ok((h, es, _q)) => Ok(
                    MessageModel::BlockWithValidatorSnapshot {
                        block,
                        activation_height: h,
                        validators: entry_stakes(es),
                        validator_keys: entry_keys(es),
                    },
                ),
            },
        },
    }
}

/// What a payload denotes.
#[verifier::opaque]
pub open spec fn message_parse(b: Seq<u8>) -> Result<MessageModel, Seq<char>> {
    match w_u8(b, 0) {
        Err(e) => Err(e),
        Ok((ty, q)) => if ty == 0 {
            whole_message(b, hello_parse(b, q))
        } else if ty == 1 {
            match tx_parse(b, q) {
                Err(e) => Err(e),
                Ok((t, q)) => whole_message(b, Ok((MessageModel::Transaction(t), q))),
            }
        } else if ty == 2 {
            match block_parse(b.subrange(1, b.len() as int)) {
                Err(e) => Err(e),
                Ok(block) => Ok(MessageModel::Block(block)),
            }
        } else if ty == 3 {
            match vote_parse(b.subrange(1, b.len() as int)) {
                Err(e) => Err(e),
                Ok(v) => Ok(MessageModel::Vote(v)),
            }
        } else if ty == 4 {
            match w_u64(b, q) {
                Err(e) => Err(e),
                Ok((h, q)) => whole_message(b, Ok((MessageModel::BlockRequest { from_height: h }, q))),
            }
        } else if ty == 5 {
            whole_message(b, Ok((MessageModel::StatusRequest, q)))
        } else if ty == 7 {
            block_snapshot_parse(b, q)
        } else if ty == 6 {
            whole_message(b, status_parse(b, q))
        } else {
            Err("unknown network message"@)
        },
    }
}

/// The payload a message is sent as.
pub fn encode(m: &NetworkMessage) -> (r: Result<Vec<u8>, String>)
    requires
        m.wf(),
    ensures
        match message_encoding(*m) {
            Ok(bytes) => r matches Ok(o) && o@ == bytes,
            Err(e) => r matches Err(x) && x@ == e,
        },
{
    let mut o: Vec<u8> = Vec::new();
    match m {
        NetworkMessage::Hello { chain_id, node_id, height, best_block } => {
            o.push(0);
            push_u64(&mut o, *chain_id);
            push_lp(&mut o, node_id.as_str().as_bytes());
            push_u64(&mut o, *height);
            push_bytes(&mut o, best_block.as_slice());
        },
        NetworkMessage::Transaction(t) => {
            o.push(1);
            tx_encode(t, &mut o);
        },
        NetworkMessage::Block(b) => {
            o.push(2);
            push_block(&mut o, b);
        },
        NetworkMessage::Vote(v) => {
            o.push(3);
            push_vote(&mut o, v);
        },
        NetworkMessage::BlockRequest { from_height } => {
            o.push(4);
            push_u64(&mut o, *from_height);
        },
        NetworkMessage::BlockWithValidatorSnapshot {
            block,
            activation_height,
            validators,
            validator_keys,
        } => {
            o.push(7);
            let raw_block = block_encode(block);
            push_lp(&mut o, raw_block.as_slice());
            push_snapshot(&mut o, *activation_height, validators, validator_keys)?;
        },
        NetworkMessage::StatusRequest => {
            o.push(5);
        },
        NetworkMessage::Status { height, best_block, finalized } => {
            o.push(6);
            push_u64(&mut o, *height);
            push_bytes(&mut o, best_block.as_slice());
            match finalized {
                Some((h, id)) => {
                    o.push(1);
                    push_u64(&mut o, *h);
                    push_bytes(&mut o, id.as_slice());
                },
                None => {
                    o.push(0);
                },
            }
        },
    }
    assert(message_encoding(*m) matches Ok(bytes) ==> o@ =~= bytes);
    Ok(o)
}

/// Reads the message a payload holds.
#[verifier::spinoff_prover]
#[verifier::rlimit(40)]
pub fn decode(b: &[u8]) -> (r: Result<NetworkMessage, String>)
    ensures
        match message_parse(b@) {
            Ok(m) => r matches Ok(x) && x@ == m && x.wf(),
            Err(m) => r matches Err(e) && e@ == m,
        },
{
    reveal(message_parse);
    let mut p: usize = 0;
    let ty = read_u8(b, &mut p)?;
    let m = if ty == 0 {
        let chain_id = read_u64(b, &mut p)?;
        let node_id = read_text(b, &mut p, "invalid node id")?;
        let height = read_u64(b, &mut p)?;
        let best_block = read_key(b, &mut p)?;
        NetworkMessage::Hello { chain_id, node_id, height, best_block }
    } else if ty == 1 {
        NetworkMessage::Transaction(tx_decode(b, &mut p)?)
    } else if ty == 2 {
        let rest = slice_range(b, 1, b.len());
        return Ok(NetworkMessage::Block(block_decode(rest)?));
    } else if ty == 3 {
        let rest = slice_range(b, 1, b.len());
        return Ok(NetworkMessage::Vote(vote_decode(rest)?));
    } else if ty == 4 {
        NetworkMessage::BlockRequest { from_height: read_u64(b, &mut p)? }
    } else if ty == 5 {
        NetworkMessage::StatusRequest
    } else if ty == 7 {
        let raw_block = read_field(b, &mut p)?;
        let block = block_decode(raw_block)?;
        let (activation_height, validators, validator_keys) = snapshot_decode(b, &mut p)?;
        return Ok(
            NetworkMessage::BlockWithValidatorSnapshot {
                block,
                activation_height,
                validators,
                validator_keys,
            },
        );
    } else if ty == 6 {
        let height = read_u64(b, &mut p)?;
        let best_block = read_key(b, &mut p)?;
        let has = read_u8(b, &mut p)?;
        let finalized = if has == 1 {
            let h = read_u64(b, &mut p)?;
            let id = read_key(b, &mut p)?;
            Some((h, id))
        } else {
            None
        };
        NetworkMessage::Status { height, best_block, finalized }
    } else {
        return Err("unknown network message".to_string());
    };
    if p != b.len() {
        return Err("trailing network message bytes".to_string());
    }
    Ok(m)
}

// ---------------------------------------------------------------------------
// Frames and handshakes
// ---------------------------------------------------------------------------

/// Tag that opens every frame.
pub open spec fn frame_magic() -> Seq<u8> {
    utf8("ATCP"@)
}

/// A frame carrying `payload`: magic, protocol version, payload length, payload.
pub open spec fn frame_bytes(payload: Seq<u8>) -> Seq<u8> {
    frame_magic() + seq![2u8] + be32(payload.len() as u32) + payload
}

/// The frame a message is sent in: refused where the message cannot be encoded or
/// its payload exceeds `MAX_FRAME`.
pub open spec fn message_frame(m: NetworkMessage) -> Result<Seq<u8>, Seq<char>> {
    match message_encoding(m) {
        Err(e) => Err(e),
        Ok(payload) => if payload.len() > 8388608 {
            Err("network frame exceeds limit"@)
        } else {
            Ok(frame_bytes(payload))
        },
    }
}

/// The bytes `write_message` puts on the stream for a message.
pub fn frame_message(m: &NetworkMessage) -> (r: Result<Vec<u8>, String>)
    requires
        m.wf(),
    ensures
        match message_frame(*m) {
            Ok(bytes) => r matches Ok(o) && o@ == bytes,
            Err(e) => r matches Err(x) && x@ == e,
        },
{
    let payload = encode(m)?;
    if payload.len() > MAX_FRAME {
        return Err("network frame exceeds limit".to_string());
    }
    let mut o: Vec<u8> = Vec::new();
    push_bytes(&mut o, "ATCP".as_bytes());
    o.push(PROTOCOL_VERSION);
    push_u32(&mut o, payload.len() as u32);
    push_bytes(&mut o, payload.as_slice());
    assert(o@ =~= frame_bytes(payload@));
    Ok(o)
}

/// What a frame header (magic, version, length) announces: the payload length, or
/// why the frame is refused.
pub open spec fn header_check(h: Seq<u8>) -> Result<nat, Seq<char>> {
    if h.subrange(0, 4) != frame_magic() {
        Err("invalid network magic"@)
    } else if h[4] != 2 {
        Err("unsupported network protocol version"@)
    } else {
        match sp_num(h, 5, 4) {
            Some((n, _)) => if n > 8388608 {
                Err("network frame exceeds limit"@)
            } else {
                Ok(n)
            },
            None => Err("truncated fixed field"@),
        }
    }
}

/// Checks the nine header bytes that precede a payload and returns the payload length.
pub fn check_frame_header(h: &[u8]) -> (r: Result<usize, String>)
    requires
        h@.len() == 9,
    ensures
        match header_check(h@) {
            Ok(n) => r matches Ok(x) && x == n,
            Err(e) => r matches Err(x) && x@ == e,
        },
{
    let magic = slice_range(h, 0, 4);
    if !bytes_equal(magic, "ATCP".as_bytes()) {
        return Err("invalid network magic".to_string());
    }
    if h[4] != PROTOCOL_VERSION {
        return Err("unsupported network protocol version".to_string());
    }
    let mut p: usize = 5;
    proof {
        lemma_pow256_small();
    }
    let n = match take_num(h, &mut p, 4) {
        Some(n) => n,
        None => return Err("truncated fixed field".to_string()),
    };
    if n > 8388608 {
        return Err("network frame exceeds limit".to_string());
    }
    Ok(n as usize)
}

/// The greeting a node sends first on a connection.
pub fn hello(chain_id: u64, node_id: String, height: u64, best_block: [u8; 32]) -> (m: NetworkMessage)
    ensures
        m == (NetworkMessage::Hello { chain_id, node_id, height, best_block }),
{
    NetworkMessage::Hello { chain_id, node_id, height, best_block }
}

/// Text of the refusal of a greeting from another chain.
pub open spec fn chain_mismatch_text(local: u64, peer: u64) -> Seq<char> {
    "chain-id mismatch: local "@ + decimal(local as nat) + ", peer "@ + decimal(peer as nat)
}

/// The accepting side's verdict on the first message of a connection: a greeting on
/// the local chain gives the peer's node id, height and best block.
pub fn accept_greeting(chain_id: u64, first: Option<NetworkMessage>) -> (r: Result<
    (String, u64, [u8; 32]),
    String,
>)
    ensures
        match first {
            Some(NetworkMessage::Hello { chain_id: peer_chain, node_id, height, best_block }) =>
                if peer_chain != chain_id {
                r matches Err(e) && e@ == chain_mismatch_text(chain_id, peer_chain)
            } else {
                r matches Ok((n, h, b)) && n@ == node_id@ && h == height && b == best_block
            },
            _ => r matches Err(e) && e@ == "invalid peer handshake"@,
        },
{
    match first {
        Some(NetworkMessage::Hello { chain_id: peer_chain, node_id, height, best_block }) => {
            if peer_chain != chain_id {
                let mut s = "chain-id mismatch: local ".to_string();
                push_decimal(&mut s, chain_id);
                s.append(", peer ");
                push_decimal(&mut s, peer_chain);
                return Err(s);
            }
            Ok((node_id, height, best_block))
        },
        _ => Err("invalid peer handshake".to_string()),
    }
}

/// The connecting side's verdict on the peer's reply to its greeting: a greeting on
/// the local chain gives the peer's node id.
pub fn check_greeting_reply(chain_id: u64, reply: Option<NetworkMessage>) -> (r: Result<
    String,
    String,
>)
    ensures
        match reply {
            Some(NetworkMessage::Hello { chain_id: c, node_id, .. }) => if c == chain_id {
                r matches Ok(n) && n@ == node_id@
            } else {
                r matches Err(e) && e@ == "peer handshake rejected"@
            },
            Some(_) => r matches Err(e) && e@ == "peer handshake rejected"@,
            None => r matches Err(e) && e@ == "peer closed during handshake"@,
        },
{
    match reply {
        Some(NetworkMessage::Hello { chain_id: c, node_id, .. }) => {
            if c == chain_id {
                Ok(node_id)
            } else {
                Err("peer handshake rejected".to_string())
            }
        },
        Some(_) => Err("peer handshake rejected".to_string()),
        None => Err("peer closed during handshake".to_string()),
    }
}

/// Moves complete blocks, votes and transactions to peers.
pub trait PeerTransport: Send + Sync {
    fn broadcast(&self, message: NetworkMessage) -> Result<(), String>;

    fn send_to(&self, peer_id: &str, message: NetworkMessage) -> Result<(), String>;
}

/// A transport with no peers: every send succeeds and goes nowhere.
pub struct NullTransport;

impl PeerTransport for NullTransport {
    fn broadcast(&self, message: NetworkMessage) -> (r: Result<(), String>)
        ensures
            r is Ok,
    {
        Ok(())
    }

    fn send_to(&self, peer_id: &str, message: NetworkMessage) -> (r: Result<(), String>)
        ensures
            r is Ok,
    {
        Ok(())
    }
}

// ---------------------------------------------------------------------------
// Reading back what was written
// ---------------------------------------------------------------------------

pub proof fn lemma_w_u64_at(b: Seq<u8>, q: int, v: u64)
    requires
        holds_at(b, q, be64(v)),
    ensures
        w_u64(b, q) == Ok::<(u64, int), Seq<char>>((v, q + 8)),
{
    lemma_pow256_small();
    lemma_sp_num_at(b, q, v as nat, 8);
}

pub proof fn lemma_w_u32_at(b: Seq<u8>, q: int, v: u32)
    requires
        holds_at(b, q, be32(v)),
    ensures
        w_u32(b, q) == Ok::<(u32, int), Seq<char>>((v, q + 4)),
{
    lemma_pow256_small();
    lemma_sp_num_at(b, q, v as nat, 4);
}

proof fn lemma_w_u8_at(b: Seq<u8>, q: int, x: u8)
    requires
        holds_at(b, q, seq![x]),
    ensures
        w_u8(b, q) == Ok::<(u8, int), Seq<char>>((x, q + 1)),
{
    reveal(holds_at);
    assert(b.subrange(q, q + 1)[0] == x);
}

pub proof fn lemma_w_fixed_at(b: Seq<u8>, q: int, x: Seq<u8>)
    requires
        holds_at(b, q, x),
    ensures
        w_fixed(b, q, x.len()) == Ok::<(Seq<u8>, int), Seq<char>>((x, q + x.len())),
{
    reveal(holds_at);
}

pub proof fn lemma_w_field_at(b: Seq<u8>, q: int, x: Seq<u8>)
    requires
        holds_at(b, q, lp(x)),
        x.len() < 0x1_0000_0000,
    ensures
        w_field(b, q) == Ok::<(Seq<u8>, int), Seq<char>>((x, q + 4 + x.len())),
{
    lemma_sp_lp_at(b, q, x);
}

pub proof fn lemma_w_text_at(b: Seq<u8>, q: int, a: Seq<char>, err: Seq<char>)
    requires
        holds_at(b, q, lp(utf8(a))),
        utf8(a).len() < 0x1_0000_0000,
    ensures
        w_text(b, q, err) == Ok::<(Seq<char>, int), Seq<char>>((a, q + 4 + utf8(a).len())),
{
    lemma_w_field_at(b, q, utf8(a));
    vstd::utf8::encode_utf8_valid_utf8(a);
    vstd::utf8::encode_utf8_decode_utf8(a);
}

/// A transaction whose identifier is the one its fields commit to, whose variable
/// fields fit their length prefixes and whose fixed fields have their sizes.
pub open spec fn tx_wire_ready(t: TxModel) -> bool {
    &&& t.id == t.committed_id()
    &&& utf8(t.sender).len() < 0x1_0000_0000
    &&& (t.recipient matches Some(r) ==> utf8(r).len() < 0x1_0000_0000)
    &&& t.payload.len() < 0x1_0000_0000
    &&& t.signature.len() == 64
    &&& t.public_key.len() == 32
    &&& t.poh_hash.len() == 32
}

proof fn lemma_tx_type_number(t: TxType)
    ensures
        t.spec_number() < 4,
        tx_type_of(t.spec_number()) == t,
{
}

proof fn lemma_recipient_at(b: Seq<u8>, q: int, r: Option<Seq<char>>)
    requires
        holds_at(b, q, opt_str_bytes(r)),
        r matches Some(x) ==> utf8(x).len() < 0x1_0000_0000,
    ensures
        w_recipient(b, q) == Ok::<(Option<Seq<char>>, int), Seq<char>>(
            (r, q + opt_str_bytes(r).len()),
        ),
{
    broadcast use crate::codec::lemma_be_length;

    match r {
        Some(x) => {
            lemma_holds_at_split(b, q, seq![1u8], lp(utf8(x)));
            lemma_w_u8_at(b, q, 1u8);
            lemma_w_text_at(b, q + 1, x, "invalid recipient"@);
        },
        None => {
            lemma_w_u8_at(b, q, 0u8);
        },
    }
}

#[verifier::spinoff_prover]
proof fn lemma_tx_tail_at(b: Seq<u8>, q: int, t: TxModel)
    requires
        holds_at(
            b,
            q,
            be64(t.amount) + be64(t.gas_price) + be64(t.gas_limit) + be64(t.nonce) + be64(
                t.timestamp,
            ) + lp(t.payload) + t.signature + t.public_key + t.poh_hash,
        ),
        tx_wire_ready(t),
    ensures
        tx_tail_parse(b, q) == Ok::<(TxTail, int), Seq<char>>(
            (
                TxTail {
                    amount: t.amount,
                    gas_price: t.gas_price,
                    gas_limit: t.gas_limit,
                    nonce: t.nonce,
                    timestamp: t.timestamp,
                    payload: t.payload,
                    signature: t.signature,
                    public_key: t.public_key,
                    poh_hash: t.poh_hash,
                },
                q + 40 + 4 + t.payload.len() + 128,
            ),
        ),
{
    broadcast use crate::codec::lemma_be_length;

    let x1 = be64(t.amount);
    let x2 = x1 + be64(t.gas_price);
    let x3 = x2 + be64(t.gas_limit);
    let x4 = x3 + be64(t.nonce);
    let x5 = x4 + be64(t.timestamp);
    let x6 = x5 + lp(t.payload);
    let x7 = x6 + t.signature;
    let x8 = x7 + t.public_key;
    lemma_holds_at_split(b, q, x8, t.poh_hash);
    lemma_holds_at_split(b, q, x7, t.public_key);
    lemma_holds_at_split(b, q, x6, t.signature);
    lemma_holds_at_split(b, q, x5, lp(t.payload));
    lemma_holds_at_split(b, q, x4, be64(t.timestamp));
    lemma_holds_at_split(b, q, x3, be64(t.nonce));
    lemma_holds_at_split(b, q, x2, be64(t.gas_limit));
    lemma_holds_at_split(b, q, x1, be64(t.gas_price));
    lemma_w_u64_at(b, q, t.amount);
    lemma_w_u64_at(b, q + 8, t.gas_price);
    lemma_w_u64_at(b, q + 16, t.gas_limit);
    lemma_w_u64_at(b, q + 24, t.nonce);
    lemma_w_u64_at(b, q + 32, t.timestamp);
    lemma_w_field_at(b, q + 40, t.payload);
    let qp = q + 44 + t.payload.len();
    lemma_w_fixed_at(b, qp, t.signature);
    lemma_w_fixed_at(b, qp + 64, t.public_key);
    lemma_w_fixed_at(b, qp + 96, t.poh_hash);
}

/// Reading a transaction where its wire form stands gives it back.
#[verifier::spinoff_prover]
pub proof fn lemma_tx_at(b: Seq<u8>, q: int, t: TxModel)
    requires
        holds_at(b, q, tx_wire(t)),
        tx_wire_ready(t),
    ensures
        tx_parse(b, q) == Ok::<(TxModel, int), Seq<char>>((t, q + tx_wire(t).len())),
{
    broadcast use crate::codec::lemma_be_length;

    reveal(tx_parse);
    let ty = t.tx_type.spec_number();
    let x1 = be64(t.chain_id);
    let x2 = x1 + seq![ty];
    let x3 = x2 + lp(utf8(t.sender));
    let x4 = x3 + opt_str_bytes(t.recipient);
    let tail = be64(t.amount) + be64(t.gas_price) + be64(t.gas_limit) + be64(t.nonce) + be64(
        t.timestamp,
    ) + lp(t.payload) + t.signature + t.public_key + t.poh_hash;
    assert(tx_wire(t) =~= x4 + tail);
    lemma_holds_at_split(b, q, x4, tail);
    lemma_holds_at_split(b, q, x3, opt_str_bytes(t.recipient));
    lemma_holds_at_split(b, q, x2, lp(utf8(t.sender)));
    lemma_holds_at_split(b, q, x1, seq![ty]);
    lemma_w_u64_at(b, q, t.chain_id);
    lemma_w_u8_at(b, q + 8, ty);
    lemma_tx_type_number(t.tx_type);
    lemma_w_text_at(b, q + 9, t.sender, "invalid sender"@);
    lemma_recipient_at(b, q + x3.len(), t.recipient);
    lemma_tx_tail_at(b, q + x4.len(), t);
}

/// Transactions ready for the wire whose wire forms fit a length prefix.
pub open spec fn txs_wire_ready(txs: Seq<TxModel>) -> bool {
    forall|i: int|
        0 <= i < txs.len() ==> tx_wire_ready(#[trigger] txs[i]) && tx_wire(txs[i]).len()
            < 0x1_0000_0000
}

/// Reading transactions where their wire forms stand gives them back.
pub proof fn lemma_txs_at(b: Seq<u8>, q: int, txs: Seq<TxModel>)
    requires
        holds_at(b, q, txs_wire(txs)),
        txs_wire_ready(txs),
    ensures
        txs_parse(b, q, txs.len()) == Ok::<(Seq<TxModel>, int), Seq<char>>(
            (txs, q + txs_wire(txs).len()),
        ),
    decreases txs.len(),
{
    broadcast use crate::codec::lemma_be_length;

    if txs.len() > 0 {
        let init = txs.drop_last();
        let t = txs.last();
        assert(tx_wire_ready(txs[txs.len() - 1]));
        lemma_holds_at_split(b, q, txs_wire(init), lp(tx_wire(t)));
        assert forall|i: int| 0 <= i < init.len() implies tx_wire_ready(#[trigger] init[i])
            && tx_wire(init[i]).len() < 0x1_0000_0000 by {
            assert(init[i] == txs[i]);
        }
        lemma_txs_at(b, q, init);
        let q1 = q + txs_wire(init).len();
        lemma_w_field_at(b, q1, tx_wire(t));
        let raw = tx_wire(t);
        lemma_holds_at_whole(raw);
        lemma_tx_at(raw, 0, t);
        assert(init.push(t) =~= txs);
        assert(txs_wire(txs) == txs_wire(init) + lp(tx_wire(t)));
        assert(txs_parse(b, q, txs.len()) == match txs_parse(b, q, init.len()) {
            Err(e) => Err(e),
            Ok((ts, q1)) => match w_field(b, q1) {
                Err(e) => Err(e),
                Ok((raw, q2)) => match tx_parse(raw, 0) {
                    Err(e) => Err(e),
                    Ok((t, r)) => if r != raw.len() {
                        Err("trailing tx bytes"@)
                    } else {
                        Ok((ts.push(t), q2))
                    },
                },
            },
        });
    } else {
        assert(txs =~= Seq::<TxModel>::empty());
    }
}

/// A block whose fields can be written and read back: fixed fields of their sizes,
/// transactions ready for the wire and fewer than 2^32 of them, a proposer that fits a
/// length prefix, and commitments equal to the recomputed ones.
pub open spec fn block_fields_ready(b: BlockModel) -> bool {
    &&& b.parent_hash.len() == 32
    &&& b.tx_root.len() == 32
    &&& b.state_root.len() == 32
    &&& b.receipt_root.len() == 32
    &&& b.signature.len() == 64
    &&& b.id.len() == 32
    &&& utf8(b.proposer).len() < 0x1_0000_0000
    &&& b.transactions.len() < 0x1_0000_0000
    &&& txs_wire_ready(b.transactions)
    &&& b.tx_root == spec_tx_root(b.transactions)
    &&& b.id == spec_block_id(b)
}

/// A block ready for the wire: its fields can be read back and it holds at most
/// `MAX_TX_PER_BLOCK` transactions.
pub open spec fn block_wire_ready(b: BlockModel) -> bool {
    block_fields_ready(b) && b.transactions.len() <= 500
}

/// The header fields of a block.
pub open spec fn head_of(m: BlockModel) -> BlockHead {
    BlockHead {
        height: m.height,
        parent: m.parent_hash,
        proposer: m.proposer,
        timestamp: m.timestamp,
    }
}

/// The fields of a block after its transactions.
pub open spec fn tail_of(m: BlockModel) -> BlockTail {
    BlockTail {
        tx_root: m.tx_root,
        state_root: m.state_root,
        receipt_root: m.receipt_root,
        signature: m.signature,
        id: m.id,
    }
}

/// Length of the header fields of a block on the wire.
pub open spec fn head_len(m: BlockModel) -> int {
    52 + utf8(m.proposer).len() as int
}

/// Where the wire form of a block ready for the wire stands, each of its parts reads
/// back, and the block recomputed from them is the block.
#[verifier::spinoff_prover]
pub proof fn lemma_block_wire_at(b: Seq<u8>, q: int, m: BlockModel)
    requires
        holds_at(b, q, block_wire(m)),
        block_fields_ready(m),
    ensures
        block_head_parse(b, q) == Ok::<(BlockHead, int), Seq<char>>((head_of(m), q + head_len(m))),
        w_u32(b, q + head_len(m)) == Ok::<(u32, int), Seq<char>>(
            (m.transactions.len() as u32, q + head_len(m) + 4),
        ),
        (m.transactions.len() as u32) as nat == m.transactions.len(),
        txs_parse(b, q + head_len(m) + 4, m.transactions.len()) == Ok::<
            (Seq<TxModel>, int),
            Seq<char>,
        >((m.transactions, q + head_len(m) + 4 + txs_wire(m.transactions).len())),
        block_tail_parse(b, q + head_len(m) + 4 + txs_wire(m.transactions).len()) == Ok::<
            (BlockTail, int),
            Seq<char>,
        >((tail_of(m), q + block_wire(m).len())),
        block_from(head_of(m), m.transactions, tail_of(m)) == m,
{
    broadcast use crate::codec::lemma_be_length;

    let n = m.transactions.len();
    let x1 = be64(m.height);
    let x2 = x1 + m.parent_hash;
    let x3 = x2 + lp(utf8(m.proposer));
    let x4 = x3 + be64(m.timestamp);
    let x5 = x4 + be32(n as u32);
    let x6 = x5 + txs_wire(m.transactions);
    let x7 = x6 + m.tx_root;
    let x8 = x7 + m.state_root;
    let x9 = x8 + m.receipt_root;
    let x10 = x9 + m.signature;
    assert(block_wire(m) =~= x10 + m.id);
    lemma_holds_at_split(b, q, x10, m.id);
    lemma_holds_at_split(b, q, x9, m.signature);
    lemma_holds_at_split(b, q, x8, m.receipt_root);
    lemma_holds_at_split(b, q, x7, m.state_root);
    lemma_holds_at_split(b, q, x6, m.tx_root);
    lemma_holds_at_split(b, q, x5, txs_wire(m.transactions));
    lemma_holds_at_split(b, q, x4, be32(n as u32));
    lemma_holds_at_split(b, q, x3, be64(m.timestamp));
    lemma_holds_at_split(b, q, x2, lp(utf8(m.proposer)));
    lemma_holds_at_split(b, q, x1, m.parent_hash);
    lemma_w_u64_at(b, q, m.height);
    lemma_w_fixed_at(b, q + 8, m.parent_hash);
    lemma_w_text_at(b, q + 40, m.proposer, "invalid proposer"@);
    lemma_w_u64_at(b, q + x3.len(), m.timestamp);
    lemma_w_u32_at(b, q + x4.len(), n as u32);
    assert((n as u32) as nat == n);
    lemma_txs_at(b, q + x5.len(), m.transactions);
    lemma_w_fixed_at(b, q + x6.len(), m.tx_root);
    lemma_w_fixed_at(b, q + x7.len(), m.state_root);
    lemma_w_fixed_at(b, q + x8.len(), m.receipt_root);
    lemma_w_fixed_at(b, q + x9.len(), m.signature);
    lemma_w_fixed_at(b, q + x10.len(), m.id);
    assert(block_from(head_of(m), m.transactions, tail_of(m)) == m);
}

/// Decoding the wire form of a block ready for the wire gives it back.
#[verifier::spinoff_prover]
#[verifier::rlimit(30)]
pub proof fn lemma_block_roundtrip(m: BlockModel)
    requires
        block_wire_ready(m),
    ensures
        block_parse(block_wire(m)) == Ok::<BlockModel, Seq<char>>(m),
{
    reveal(block_parse);
    let b = block_wire(m);
    lemma_holds_at_whole(b);
    lemma_block_wire_at(b, 0, m);
}

/// The snapshot entries a list of (address, stake) pairs and a key map describe.
pub open spec fn snapshot_entries(
    pairs: Seq<(Seq<char>, u64)>,
    keys: Map<Seq<char>, [u8; 32]>,
) -> Seq<(Seq<char>, u64, Seq<u8>)> {
    Seq::new(pairs.len(), |i: int| (pairs[i].0, pairs[i].1, keys[pairs[i].0]@))
}

/// Pairs whose entries a snapshot reader accepts: distinct non-empty addresses that fit
/// a length prefix, positive stakes, and a valid Ed25519 key for each.
pub open spec fn snapshot_pairs_ready(
    pairs: Seq<(Seq<char>, u64)>,
    keys: Map<Seq<char>, [u8; 32]>,
) -> bool {
    &&& forall|i: int|
        0 <= i < pairs.len() ==> {
            &&& keys.contains_key(#[trigger] pairs[i].0)
            &&& ed25519_key_valid(keys[pairs[i].0]@)
            &&& pairs[i].0.len() > 0
            &&& pairs[i].1 > 0
            &&& utf8(pairs[i].0).len() < 0x1_0000_0000
        }
    &&& forall|i: int, j: int|
        0 <= i < j < pairs.len() ==> (#[trigger] pairs[i]).0 != (#[trigger] pairs[j]).0
}

proof fn lemma_entries_prefix(pairs: Seq<(Seq<char>, u64)>, keys: Map<Seq<char>, [u8; 32]>)
    requires
        pairs.len() > 0,
    ensures
        snapshot_entries(pairs.drop_last(), keys) =~= snapshot_entries(pairs, keys).drop_last(),
{
}

/// Reading snapshot entries where their wire form stands gives them back.
pub proof fn lemma_snapshot_entries_at(
    b: Seq<u8>,
    q: int,
    pairs: Seq<(Seq<char>, u64)>,
    keys: Map<Seq<char>, [u8; 32]>,
)
    requires
        holds_at(b, q, snapshot_entries_wire(pairs, keys)),
        snapshot_pairs_ready(pairs, keys),
    ensures
        snapshot_entries_parse(b, q, pairs.len()) == Ok::<
            (Seq<(Seq<char>, u64, Seq<u8>)>, int),
            Seq<char>,
        >((snapshot_entries(pairs, keys), q + snapshot_entries_wire(pairs, keys).len())),
    decreases pairs.len(),
{
    broadcast use crate::codec::lemma_be_length;

    if pairs.len() == 0 {
        assert(snapshot_entries(pairs, keys) =~= Seq::<(Seq<char>, u64, Seq<u8>)>::empty());
    } else {
        let init = pairs.drop_last();
        let (a, st) = pairs.last();
        let k = keys[a]@;
        assert(pairs[pairs.len() - 1] == (a, st));
        assert(k.len() == 32);
        let w0 = snapshot_entries_wire(init, keys);
        let x1 = w0 + lp(utf8(a));
        let x2 = x1 + be64(st);
        lemma_holds_at_split(b, q, x2, k);
        lemma_holds_at_split(b, q, x1, be64(st));
        lemma_holds_at_split(b, q, w0, lp(utf8(a)));
        assert(snapshot_pairs_ready(init, keys)) by {
            assert forall|i: int| 0 <= i < init.len() implies init[i] == pairs[i] by {}
        }
        lemma_snapshot_entries_at(b, q, init, keys);
        lemma_entries_prefix(pairs, keys);
        let es0 = snapshot_entries(init, keys);
        let q1 = q + w0.len();
        lemma_w_text_at(b, q1, a, "invalid validator address"@);
        lemma_w_u64_at(b, q1 + 4 + utf8(a).len(), st);
        lemma_w_fixed_at(b, q1 + 12 + utf8(a).len(), k);
        assert(!entries_have(es0, a)) by {
            if entries_have(es0, a) {
                let j = choose|j: int| 0 <= j < es0.len() && (#[trigger] es0[j]).0 == a;
                assert(pairs[j].0 != pairs[pairs.len() - 1].0);
            }
        }
        assert(es0.push((a, st, k)) =~= snapshot_entries(pairs, keys));
        assert(snapshot_entries_wire(pairs, keys) == x2 + k);
    }
}

proof fn lemma_entry_stakes(pairs: Seq<(Seq<char>, u64)>, keys: Map<Seq<char>, [u8; 32]>)
    ensures
        entry_stakes(snapshot_entries(pairs, keys)) == map_of(pairs),
        forall|a: Seq<char>|
            #[trigger] entry_keys(snapshot_entries(pairs, keys)).contains_key(a) ==> map_of(
                pairs,
            ).contains_key(a) && entry_keys(snapshot_entries(pairs, keys))[a] == keys[a]@,
        forall|a: Seq<char>|
            map_of(pairs).contains_key(a) ==> #[trigger] entry_keys(
                snapshot_entries(pairs, keys),
            ).contains_key(a),
    decreases pairs.len(),
{
    if pairs.len() > 0 {
        let init = pairs.drop_last();
        lemma_entry_stakes(init, keys);
        lemma_entries_prefix(pairs, keys);
        let es = snapshot_entries(pairs, keys);
        let (a0, s0) = pairs.last();
        assert(es.drop_last() == snapshot_entries(init, keys));
        assert(es.last() == (a0, s0, keys[a0]@));
        assert(entry_keys(es) == entry_keys(snapshot_entries(init, keys)).insert(a0, keys[a0]@));
        assert(entry_stakes(es) == entry_stakes(snapshot_entries(init, keys)).insert(a0, s0));
        assert(map_of(pairs) == map_of(init).insert(a0, s0));
    } else {
        assert(snapshot_entries(pairs, keys) =~= Seq::<(Seq<char>, u64, Seq<u8>)>::empty());
    }
}

/// A message ready for the wire: every variable field fits its length prefix, its
/// blocks and transactions are ready for the wire, and a snapshot has valid entries.
pub open spec fn message_wire_ready(m: NetworkMessage) -> bool {
    match m {
        NetworkMessage::Hello { node_id, .. } => utf8(node_id@).len() < 0x1_0000_0000,
        NetworkMessage::Transaction(t) => tx_wire_ready(t@),
        NetworkMessage::Block(b) => block_wire_ready(b@),
        NetworkMessage::Vote(v) => utf8(v.voter@).len() < 0x1_0000_0000,
        NetworkMessage::BlockWithValidatorSnapshot { block, validators, validator_keys, .. } => {
            &&& block_wire_ready(block@)
            &&& block_wire(block@).len() < 0x1_0000_0000
            &&& snapshot_pairs_ready(validators.pairs(), validator_keys@)
        },
        _ => true,
    }
}

/// Reading a snapshot where its encoding stands gives back its height and entries.
proof fn lemma_snapshot_at(
    b: Seq<u8>,
    q: int,
    h: u64,
    validators: OrdMap<String, u64>,
    keys: OrdMap<String, [u8; 32]>,
    snap: Seq<u8>,
)
    requires
        validators.wf(),
        keys.wf(),
        snapshot_pairs_ready(validators.pairs(), keys@),
        snapshot_encoding(h, validators, keys) == Ok::<Seq<u8>, Seq<char>>(snap),
        holds_at(b, q, snap),
    ensures
        snapshot_parse(b, q) == Ok::<(u64, Seq<(Seq<char>, u64, Seq<u8>)>, int), Seq<char>>(
            (h, snapshot_entries(validators.pairs(), keys@), q + snap.len()),
        ),
{
    broadcast use crate::codec::lemma_be_length;

    let pairs = validators.pairs();
    let n = validators@.len();
    validators.lemma_len();
    let x1 = be64(h);
    let x2 = x1 + be32(n as u32);
    let ew = snapshot_entries_wire(pairs, keys@);
    assert(snap == x2 + ew);
    lemma_holds_at_split(b, q, x2, ew);
    lemma_holds_at_split(b, q, x1, be32(n as u32));
    lemma_w_u64_at(b, q, h);
    lemma_w_u32_at(b, q + 8, n as u32);
    assert((n as u32) as nat == pairs.len());
    lemma_snapshot_entries_at(b, q + 12, pairs, keys@);
}

/// The maps read back from a snapshot's entries are the ones it was made from.
proof fn lemma_snapshot_maps(
    h: u64,
    validators: OrdMap<String, u64>,
    keys: OrdMap<String, [u8; 32]>,
    snap: Seq<u8>,
)
    requires
        validators.wf(),
        keys.wf(),
        snapshot_pairs_ready(validators.pairs(), keys@),
        snapshot_encoding(h, validators, keys) == Ok::<Seq<u8>, Seq<char>>(snap),
    ensures
        entry_stakes(snapshot_entries(validators.pairs(), keys@)) == validators@,
        entry_keys(snapshot_entries(validators.pairs(), keys@)) == key_bytes(keys@),
{
    let pairs = validators.pairs();
    let es = snapshot_entries(pairs, keys@);
    validators.lemma_len();
    keys.lemma_len();
    lemma_entry_stakes(pairs, keys@);
    // Every validator has a key, and there are as many keys as validators, so the
    // two maps have the same addresses.
    assert(validators@.dom().subset_of(keys@.dom())) by {
        assert forall|a: Seq<char>| validators@.contains_key(a) implies keys@.contains_key(a) by {
            validators.lemma_dom(a);
            let i = choose|i: int| 0 <= i < pairs.len() && (#[trigger] pairs[i]).0 == a;
            assert(keys@.contains_key(pairs[i].0));
        }
    }
    vstd::set_lib::lemma_subset_equality(validators@.dom(), keys@.dom());
    assert(entry_keys(es) =~= key_bytes(keys@)) by {
        assert forall|a: Seq<char>| #[trigger] entry_keys(es).contains_key(a) <==> key_bytes(
            keys@,
        ).contains_key(a) by {
            if key_bytes(keys@).contains_key(a) {
                assert(validators@.contains_key(a));
            }
        }
    }
}

proof fn lemma_hello_wire(chain_id: u64, node_id: Seq<char>, height: u64, best: Seq<u8>)
    requires
        utf8(node_id).len() < 0x1_0000_0000,
        best.len() == 32,
    ensures
        ({
            let b = seq![0u8] + be64(chain_id) + lp(utf8(node_id)) + be64(height) + best;
            hello_parse(b, 1) == Ok::<(MessageModel, int), Seq<char>>(
                (MessageModel::Hello { chain_id, node_id, height, best_block: best }, b.len() as int),
            )
        }),
{
    broadcast use crate::codec::lemma_be_length;

    let b = seq![0u8] + be64(chain_id) + lp(utf8(node_id)) + be64(height) + best;
    lemma_holds_at_whole(b);
    let x1 = seq![0u8] + be64(chain_id);
    let x2 = x1 + lp(utf8(node_id));
    let x3 = x2 + be64(height);
    lemma_holds_at_split(b, 0, x3, best);
    lemma_holds_at_split(b, 0, x2, be64(height));
    lemma_holds_at_split(b, 0, x1, lp(utf8(node_id)));
    lemma_holds_at_split(b, 0, seq![0u8], be64(chain_id));
    lemma_w_u64_at(b, 1, chain_id);
    lemma_w_text_at(b, 9, node_id, "invalid node id"@);
    lemma_w_u64_at(b, x2.len() as int, height);
    lemma_w_fixed_at(b, x3.len() as int, best);
}

proof fn lemma_vote_wire(vm: VoteModel)
    requires
        utf8(vm.voter).len() < 0x1_0000_0000,
        vm.block.len() == 32,
        vm.signature.len() == 64,
        vm.public_key.len() == 32,
    ensures
        vote_parse(vote_wire(vm)) == Ok::<VoteModel, Seq<char>>(vm),
{
    broadcast use crate::codec::lemma_be_length;

    let r = vote_wire(vm);
    let flag = if vm.approve { 1u8 } else { 0u8 };
    let y1 = vm.block + lp(utf8(vm.voter));
    let y2 = y1 + seq![flag];
    let y3 = y2 + vm.signature;
    lemma_holds_at_whole(r);
    lemma_holds_at_split(r, 0, y3, vm.public_key);
    lemma_holds_at_split(r, 0, y2, vm.signature);
    lemma_holds_at_split(r, 0, y1, seq![flag]);
    lemma_holds_at_split(r, 0, vm.block, lp(utf8(vm.voter)));
    lemma_w_fixed_at(r, 0, vm.block);
    lemma_w_text_at(r, 32, vm.voter, "invalid voter"@);
    lemma_w_u8_at(r, y1.len() as int, flag);
    lemma_w_fixed_at(r, y2.len() as int, vm.signature);
    lemma_w_fixed_at(r, y3.len() as int, vm.public_key);
}

proof fn lemma_status_wire(height: u64, best: [u8; 32], finalized: Option<(u64, [u8; 32])>)
    ensures
        ({
            let b = seq![6u8] + be64(height) + best@ + finalized_wire(finalized);
            status_parse(b, 1) == Ok::<(MessageModel, int), Seq<char>>(
                (
                    MessageModel::Status {
                        height,
                        best_block: best@,
                        finalized: finalized_model(finalized),
                    },
                    b.len() as int,
                ),
            )
        }),
{
    broadcast use crate::codec::lemma_be_length;

    let b = seq![6u8] + be64(height) + best@ + finalized_wire(finalized);
    lemma_holds_at_whole(b);
    let x1 = seq![6u8] + be64(height);
    let x2 = x1 + best@;
    lemma_holds_at_split(b, 0, x2, finalized_wire(finalized));
    lemma_holds_at_split(b, 0, x1, best@);
    lemma_holds_at_split(b, 0, seq![6u8], be64(height));
    lemma_w_u64_at(b, 1, height);
    lemma_w_fixed_at(b, 9, best@);
    match finalized {
        Some((h, id)) => {
            lemma_holds_at_split(b, 41, seq![1u8] + be64(h), id@);
            lemma_holds_at_split(b, 41, seq![1u8], be64(h));
            lemma_w_u8_at(b, 41, 1u8);
            lemma_w_u64_at(b, 42, h);
            lemma_w_fixed_at(b, 50, id@);
        },
        None => {
            lemma_w_u8_at(b, 41, 0u8);
        },
    }
}

proof fn lemma_block_snapshot_wire(
    block: Block,
    h: u64,
    validators: OrdMap<String, u64>,
    keys: OrdMap<String, [u8; 32]>,
    snap: Seq<u8>,
)
    requires
        validators.wf(),
        keys.wf(),
        block_wire_ready(block@),
        block_wire(block@).len() < 0x1_0000_0000,
        snapshot_pairs_ready(validators.pairs(), keys@),
        snapshot_encoding(h, validators, keys) == Ok::<Seq<u8>, Seq<char>>(snap),
    ensures
        block_snapshot_parse(seq![7u8] + lp(block_wire(block@)) + snap, 1) == Ok::<
            MessageModel,
            Seq<char>,
        >(
            MessageModel::BlockWithValidatorSnapshot {
                block: block@,
                activation_height: h,
                validators: validators@,
                validator_keys: key_bytes(keys@),
            },
        ),
{
    broadcast use crate::codec::lemma_be_length;

    let bw = block_wire(block@);
    let b = seq![7u8] + lp(bw) + snap;
    lemma_holds_at_whole(b);
    lemma_holds_at_split(b, 0, seq![7u8] + lp(bw), snap);
    lemma_holds_at_split(b, 0, seq![7u8], lp(bw));
    lemma_w_field_at(b, 1, bw);
    lemma_block_roundtrip(block@);
    lemma_snapshot_at(b, 1 + 4 + bw.len() as int, h, validators, keys, snap);
    lemma_snapshot_maps(h, validators, keys, snap);
}

/// Decoding the payload a message is sent as gives the message back, for every
/// message ready for the wire whose encoding succeeds.
#[verifier::spinoff_prover]
pub proof fn law_message_roundtrip(m: NetworkMessage)
    requires
        m.wf(),
        message_wire_ready(m),
        message_encoding(m) is Ok,
    ensures
        message_parse(message_encoding(m)->Ok_0) == Ok::<MessageModel, Seq<char>>(m@),
{
    broadcast use crate::codec::lemma_be_length;

    reveal(message_parse);
    let b = message_encoding(m)->Ok_0;
    lemma_holds_at_whole(b);
    assert(b.len() > 0 && b[0] == match m {
        NetworkMessage::Hello { .. } => 0u8,
        NetworkMessage::Transaction(_) => 1u8,
        NetworkMessage::Block(_) => 2u8,
        NetworkMessage::Vote(_) => 3u8,
        NetworkMessage::BlockRequest { .. } => 4u8,
        NetworkMessage::BlockWithValidatorSnapshot { .. } => 7u8,
        NetworkMessage::StatusRequest => 5u8,
        NetworkMessage::Status { .. } => 6u8,
    });
    match m {
        NetworkMessage::Hello { chain_id, node_id, height, best_block } => {
            lemma_hello_wire(chain_id, node_id@, height, best_block@);
        },
        NetworkMessage::Transaction(t) => {
            lemma_holds_at_split(b, 0, seq![1u8], tx_wire(t@));
            lemma_tx_at(b, 1, t@);
        },
        NetworkMessage::Block(blk) => {
            assert(b.subrange(1, b.len() as int) =~= block_wire(blk@));
            lemma_block_roundtrip(blk@);
        },
        NetworkMessage::Vote(v) => {
            assert(b.subrange(1, b.len() as int) =~= vote_wire(vote_model(v)));
            lemma_vote_wire(vote_model(v));
        },
        NetworkMessage::BlockRequest { from_height } => {
            lemma_holds_at_split(b, 0, seq![4u8], be64(from_height));
            lemma_w_u64_at(b, 1, from_height);
        },
        NetworkMessage::BlockWithValidatorSnapshot {
            block,
            activation_height,
            validators,
            validator_keys,
        } => {
            let snap = snapshot_encoding(activation_height, validators, validator_keys)->Ok_0;
            lemma_block_snapshot_wire(block, activation_height, validators, validator_keys, snap);
        },
        NetworkMessage::StatusRequest => {},
        NetworkMessage::Status { height, best_block, finalized } => {
            lemma_status_wire(height, best_block, finalized);
        },
    }
}

} // verus!
