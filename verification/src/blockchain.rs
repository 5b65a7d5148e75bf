//! Blocks, their commitments, and the canonical chain of blocks by height.
use crate::codec::{be64, lp, push_bytes, push_lp, push_u64};
use crate::hashing::{sha256_of, simple_hash};
use crate::mempool::{utf8, Transaction, TxModel};
use crate::ordmap::{bytes_equal, OrdMap};
use vstd::prelude::*;

verus! {

#[derive(Clone, Debug, PartialEq, Eq)]
pub struct Block {
    pub id: [u8; 32],
    pub height: u64,
    pub parent_hash: [u8; 32],
    pub proposer: String,
    pub timestamp: u64,
    pub transactions: Vec<Transaction>,
    pub tx_root: [u8; 32],
    pub state_root: [u8; 32],
    pub receipt_root: [u8; 32],
    pub signature: [u8; 64],
}

/// Mathematical content of a block.
pub struct BlockModel {
    pub id: Seq<u8>,
    pub height: u64,
    pub parent_hash: Seq<u8>,
    pub proposer: Seq<char>,
    pub timestamp: u64,
    pub transactions: Seq<TxModel>,
    pub tx_root: Seq<u8>,
    pub state_root: Seq<u8>,
    pub receipt_root: Seq<u8>,
    pub signature: Seq<u8>,
}

impl View for Block {
    type V = BlockModel;

    open spec fn view(&self) -> BlockModel {
        BlockModel {
            id: self.id@,
            height: self.height,
            parent_hash: self.parent_hash@,
            proposer: self.proposer@,
            timestamp: self.timestamp,
            transactions: self.transactions@.map_values(|t: Transaction| t@),
            tx_root: self.tx_root@,
            state_root: self.state_root@,
            receipt_root: self.receipt_root@,
            signature: self.signature@,
        }
    }
}

/// The identifiers of the transactions, one after the other.
pub open spec fn tx_ids(txs: Seq<TxModel>) -> Seq<u8>
    decreases txs.len(),
{
    if txs.len() == 0 {
        Seq::empty()
    } else {
        tx_ids(txs.drop_last()) + txs.last().id
    }
}

/// Commitment to the transactions of a block.
pub open spec fn spec_tx_root(txs: Seq<TxModel>) -> Seq<u8> {
    sha256_of(tx_ids(txs))
}

/// The bytes whose hash identifies a block: every header field and the signature.
pub open spec fn block_id_bytes(
    h: u64,
    parent: Seq<u8>,
    proposer: Seq<char>,
    t: u64,
    tr: Seq<u8>,
    state: Seq<u8>,
    receipt: Seq<u8>,
    sig: Seq<u8>,
) -> Seq<u8> {
    utf8("ATC-BLOCK-V1"@) + be64(h) + parent + lp(utf8(proposer)) + be64(t) + tr + state + receipt
        + sig
}

/// The identifier a block's header commits to.
pub open spec fn spec_block_id(b: BlockModel) -> Seq<u8> {
    sha256_of(
        block_id_bytes(
            b.height,
            b.parent_hash,
            b.proposer,
            b.timestamp,
            b.tx_root,
            b.state_root,
            b.receipt_root,
            b.signature,
        ),
    )
}

/// The bytes the proposer's signature covers: the header without the signature.
pub open spec fn block_sig_bytes(chain_id: u64, b: BlockModel) -> Seq<u8> {
    utf8("ATC-BLOCK-SIG-V1"@) + be64(chain_id) + be64(b.height) + b.parent_hash + lp(
        utf8(b.proposer),
    ) + be64(b.timestamp) + b.tx_root + b.state_root + b.receipt_root
}

pub fn block_signing_bytes(chain_id: u64, b: &Block) -> (o: Vec<u8>)
    ensures
        o@ == block_sig_bytes(chain_id, b@),
{
    let mut out: Vec<u8> = Vec::new();
    push_bytes(&mut out, "ATC-BLOCK-SIG-V1".as_bytes());
    push_u64(&mut out, chain_id);
    push_u64(&mut out, b.height);
    push_bytes(&mut out, b.parent_hash.as_slice());
    push_lp(&mut out, b.proposer.as_str().as_bytes());
    push_u64(&mut out, b.timestamp);
    push_bytes(&mut out, b.tx_root.as_slice());
    push_bytes(&mut out, b.state_root.as_slice());
    push_bytes(&mut out, b.receipt_root.as_slice());
    assert(out@ =~= block_sig_bytes(chain_id, b@));
    out
}

pub fn tx_root(txs: &[Transaction]) -> (r: [u8; 32])
    ensures
        r@ == spec_tx_root(txs@.map_values(|t: Transaction| t@)),
{
    let ghost ms = txs@.map_values(|t: Transaction| t@);
    let mut b: Vec<u8> = Vec::new();
    let mut i: usize = 0;
    assert(ms.take(0) =~= Seq::<TxModel>::empty());
    while i < txs.len()
        invariant
            ms == txs@.map_values(|t: Transaction| t@),
            i <= txs@.len(),
            b@ == tx_ids(ms.take(i as int)),
        decreases txs@.len() - i,
    {
        push_bytes(&mut b, txs[i].id.as_slice());
        proof {
            assert(ms.take(i as int + 1).drop_last() =~= ms.take(i as int));
        }
        i = i + 1;
    }
    assert(ms.take(txs@.len() as int) =~= ms);
    simple_hash(b.as_slice())
}

pub fn block_id(
    h: u64,
    parent: [u8; 32],
    proposer: &str,
    t: u64,
    tr: [u8; 32],
    state: [u8; 32],
    receipt: [u8; 32],
    sig: [u8; 64],
) -> (r: [u8; 32])
    ensures
        r@ == sha256_of(
            block_id_bytes(h, parent@, proposer@, t, tr@, state@, receipt@, sig@),
        ),
{
    let mut b: Vec<u8> = Vec::new();
    push_bytes(&mut b, "ATC-BLOCK-V1".as_bytes());
    push_u64(&mut b, h);
    push_bytes(&mut b, parent.as_slice());
    push_lp(&mut b, proposer.as_bytes());
    push_u64(&mut b, t);
    push_bytes(&mut b, tr.as_slice());
    push_bytes(&mut b, state.as_slice());
    push_bytes(&mut b, receipt.as_slice());
    push_bytes(&mut b, sig.as_slice());
    assert(b@ =~= block_id_bytes(h, parent@, proposer@, t, tr@, state@, receipt@, sig@));
    simple_hash(b.as_slice())
}

impl Block {
    /// A block over the given header fields and transactions, with its transaction
    /// root and identifier computed.
    pub fn new(
        h: u64,
        parent: [u8; 32],
        proposer: String,
        t: u64,
        txs: Vec<Transaction>,
        state: [u8; 32],
        receipt: [u8; 32],
        sig: [u8; 64],
    ) -> (b: Self)
        ensures
            b.height == h,
            b.parent_hash == parent,
            b.proposer@ == proposer@,
            b.timestamp == t,
            b.transactions@ == txs@,
            b.state_root == state,
            b.receipt_root == receipt,
            b.signature == sig,
            b@.tx_root == spec_tx_root(b@.transactions),
            b@.id == spec_block_id(b@),
    {
        let tr = tx_root(txs.as_slice());
        let id = block_id(h, parent, proposer.as_str(), t, tr, state, receipt, sig);
        Block {
            id,
            height: h,
            parent_hash: parent,
            proposer,
            timestamp: t,
            transactions: txs,
            tx_root: tr,
            state_root: state,
            receipt_root: receipt,
            signature: sig,
        }
    }

    /// An exact copy.
    pub fn duplicate(&self) -> (c: Self)
        ensures
            c@ == self@,
    {
        let mut txs: Vec<Transaction> = Vec::new();
        let mut i: usize = 0;
        while i < self.transactions.len()
            invariant
                i <= self.transactions@.len(),
                txs@.len() == i,
                forall|j: int| 0 <= j < i ==> (#[trigger] txs@[j])@ == self.transactions@[j]@,
            decreases self.transactions@.len() - i,
        {
            txs.push(self.transactions[i].duplicate());
            i = i + 1;
        }
        let c = Block {
            id: self.id,
            height: self.height,
            parent_hash: self.parent_hash,
            proposer: self.proposer.clone(),
            timestamp: self.timestamp,
            transactions: txs,
            tx_root: self.tx_root,
            state_root: self.state_root,
            receipt_root: self.receipt_root,
            signature: self.signature,
        };
        assert(c@.transactions =~= self@.transactions);
        c
    }
}


/// Whether 32 bytes are all zero.
pub open spec fn all_zero(s: Seq<u8>) -> bool {
    s.len() == 32 && forall|i: int| 0 <= i < 32 ==> s[i] == 0
}

fn is_zero_hash(h: &[u8; 32]) -> (r: bool)
    ensures
        r == all_zero(h@),
{
    let mut i: usize = 0;
    while i < 32
        invariant
            i <= 32,
            h@.len() == 32,
            forall|j: int| 0 <= j < i ==> h@[j] == 0,
        decreases 32 - i,
    {
        if h[i] != 0 {
            return false;
        }
        i = i + 1;
    }
    true
}

/// Receives each block once it is final.
pub trait IndexerSink: Send + Sync {
    fn ingest_finalized(&self, block: &Block) -> Result<(), String>;
}

/// Blocks by height, block heights by identifier, and the height of the tip.
pub struct ChainModel {
    pub blocks: Map<u64, BlockModel>,
    pub hashes: Map<Seq<u8>, u64>,
    pub height: u64,
}

/// Whether `parent` is what a block on top of the chain must name as its parent: the
/// tip's identifier, or zeros where the chain has no block at its height.
pub open spec fn extends_tip(m: ChainModel, parent: Seq<u8>) -> bool {
    if m.blocks.contains_key(m.height) {
        parent == m.blocks[m.height].id
    } else {
        all_zero(parent)
    }
}

/// Why a block cannot be appended to the chain, if it cannot.
pub open spec fn append_check(m: ChainModel, b: BlockModel) -> Result<(), Seq<char>> {
    let next: u64 = if m.height == u64::MAX {
        u64::MAX
    } else {
        (m.height + 1) as u64
    };
    if b.tx_root != spec_tx_root(b.transactions) {
        Err("transaction root mismatch"@)
    } else if b.id != spec_block_id(b) {
        Err("block id mismatch"@)
    } else if b.height != next {
        Err("non-sequential height"@)
    } else if m.hashes.contains_key(b.id) {
        Err("duplicate block"@)
    } else if !extends_tip(m, b.parent_hash) {
        Err("parent mismatch"@)
    } else {
        Ok(())
    }
}

/// The chain with `b` as its new tip.
pub open spec fn appended(m: ChainModel, b: BlockModel) -> ChainModel {
    ChainModel {
        blocks: m.blocks.insert(b.height, b),
        hashes: m.hashes.insert(b.id, b.height),
        height: b.height,
    }
}

/// Whether every block stands at its own height, is found by its identifier, and names
/// the block below it, where there is one, as its parent.
pub open spec fn linked(m: ChainModel) -> bool {
    forall|k: u64| #[trigger]
        m.blocks.contains_key(k) ==> {
            &&& k <= m.height
            &&& m.blocks[k].height == k
            &&& m.hashes.contains_key(m.blocks[k].id)
            &&& m.hashes[m.blocks[k].id] == k
            &&& (k > 0 && m.blocks.contains_key((k - 1) as u64) ==> m.blocks[k].parent_hash
                == m.blocks[(k - 1) as u64].id)
        }
}

pub open spec fn block_models(m: Map<u64, Block>) -> Map<u64, BlockModel> {
    m.map_values(|b: Block| b@)
}

/// The canonical chain.
pub struct BlockChain {
    blocks: OrdMap<u64, Block>,
    hashes: OrdMap<[u8; 32], u64>,
    height: u64,
}

impl View for BlockChain {
    type V = ChainModel;

    closed spec fn view(&self) -> ChainModel {
        ChainModel { blocks: block_models(self.blocks@), hashes: self.hashes@, height: self.height }
    }
}

impl BlockChain {
    pub closed spec fn wf(&self) -> bool {
        self.blocks.wf() && self.hashes.wf()
    }

    pub fn new() -> (c: Self)
        ensures
            c.wf(),
            c@.blocks == Map::<u64, BlockModel>::empty(),
            c@.hashes == Map::<Seq<u8>, u64>::empty(),
            c@.height == 0,
    {
        let c = BlockChain { blocks: OrdMap::new(), hashes: OrdMap::new(), height: 0 };
        assert(block_models(c.blocks@) =~= Map::<u64, BlockModel>::empty());
        c
    }

    /// Installs the genesis block: height zero, consistent commitments, no earlier genesis.
    pub fn genesis(&mut self, b: Block) -> (r: Result<(), String>)
        requires
            old(self).wf(),
        ensures
            final(self).wf(),
            (b.height != 0 || old(self)@.blocks.contains_key(0)) ==> (r matches Err(e) && e@
                == "invalid genesis"@) && final(self)@ == old(self)@,
            !(b.height != 0 || old(self)@.blocks.contains_key(0)) && (b@.tx_root != spec_tx_root(
                b@.transactions,
            ) || b@.id != spec_block_id(b@)) ==> (r matches Err(e) && e@
                == "invalid genesis commitment"@) && final(self)@ == old(self)@,
            !(b.height != 0 || old(self)@.blocks.contains_key(0)) && !(b@.tx_root != spec_tx_root(
                b@.transactions,
            ) || b@.id != spec_block_id(b@)) ==> r is Ok && final(self)@ == appended(old(self)@, b@),
    {
        if b.height != 0 || self.blocks.contains_key(&0) {
            return Err("invalid genesis".to_string());
        }
        let tr = tx_root(b.transactions.as_slice());
        let id = block_id(
            b.height,
            b.parent_hash,
            b.proposer.as_str(),
            b.timestamp,
            b.tx_root,
            b.state_root,
            b.receipt_root,
            b.signature,
        );
        if !bytes_equal(tr.as_slice(), b.tx_root.as_slice()) || !bytes_equal(
            id.as_slice(),
            b.id.as_slice(),
        ) {
            return Err("invalid genesis commitment".to_string());
        }
        let ghost m0 = self.blocks@;
        let ghost bv = b;
        self.hashes.insert(b.id, 0);
        self.blocks.insert(0, b);
        self.height = 0;
        proof {
            assert(block_models(self.blocks@) =~= block_models(m0).insert(0, bv@));
        }
        Ok(())
    }

    /// Checks that `b` can become the new tip.
    pub fn validate_append(&self, b: &Block) -> (r: Result<(), String>)
        requires
            self.wf(),
        ensures
            match append_check(self@, b@) {
                Ok(_) => r is Ok,
                Err(m) => r matches Err(e) && e@ == m,
            },
    {
        let tr = tx_root(b.transactions.as_slice());
        if !bytes_equal(tr.as_slice(), b.tx_root.as_slice()) {
            return Err("transaction root mismatch".to_string());
        }
        let id = block_id(
            b.height,
            b.parent_hash,
            b.proposer.as_str(),
            b.timestamp,
            b.tx_root,
            b.state_root,
            b.receipt_root,
            b.signature,
        );
        if !bytes_equal(id.as_slice(), b.id.as_slice()) {
            return Err("block id mismatch".to_string());
        }
        let h = self.height;
        if b.height != h.saturating_add(1) {
            return Err("non-sequential height".to_string());
        }
        if self.hashes.contains_key(&b.id) {
            return Err("duplicate block".to_string());
        }
        let extends = match self.blocks.get(&h) {
            Some(tip) => bytes_equal(b.parent_hash.as_slice(), tip.id.as_slice()),
            None => is_zero_hash(&b.parent_hash),
        };
        if !extends {
            return Err("parent mismatch".to_string());
        }
        Ok(())
    }

    /// Appends `b` as the new tip when it passes `validate_append`.
    pub fn append(&mut self, b: Block) -> (r: Result<(), String>)
        requires
            old(self).wf(),
        ensures
            final(self).wf(),
            match append_check(old(self)@, b@) {
                Ok(_) => r is Ok && final(self)@ == appended(old(self)@, b@),
                Err(m) => (r matches Err(e) && e@ == m) && final(self)@ == old(self)@,
            },
    {
        self.validate_append(&b)?;
        let ghost m0 = self.blocks@;
        let ghost bv = b;
        let h = b.height;
        self.hashes.insert(b.id, h);
        self.blocks.insert(h, b);
        self.height = h;
        proof {
            assert(block_models(self.blocks@) =~= block_models(m0).insert(h, bv@));
        }
        Ok(())
    }

    /// A copy of the tip block.
    pub fn last(&self) -> (r: Option<Block>)
        requires
            self.wf(),
        ensures
            match r {
                Some(b) => self@.blocks.contains_key(self@.height) && b@ == self@.blocks[self@.height],
                None => !self@.blocks.contains_key(self@.height),
            },
    {
        match self.blocks.get(&self.height) {
            Some(b) => Some(b.duplicate()),
            None => None,
        }
    }

    pub fn height(&self) -> (h: u64)
        ensures
            h == self@.height,
    {
        self.height
    }
}

impl Default for BlockChain {
    fn default() -> (c: Self)
        ensures
            c.wf(),
            c@.blocks == Map::<u64, BlockModel>::empty(),
            c@.height == 0,
    {
        BlockChain::new()
    }
}

/// Installing a genesis block into an empty chain gives a linked chain, and appending a
/// block that passes the checks keeps the chain linked: each block names the
/// previous tip as its parent, and heights grow one at a time.
pub proof fn law_append_keeps_chain_linked(m: ChainModel, b: BlockModel)
    requires
        linked(m),
        m.height < u64::MAX,
        append_check(m, b) is Ok,
    ensures
        linked(appended(m, b)),
        appended(m, b).height == m.height + 1,
        extends_tip(m, b.parent_hash),
{
    let t = appended(m, b);
    assert forall|k: u64| #[trigger] t.blocks.contains_key(k) implies {
        &&& k <= t.height
        &&& t.blocks[k].height == k
        &&& t.hashes.contains_key(t.blocks[k].id)
        &&& t.hashes[t.blocks[k].id] == k
        &&& (k > 0 && t.blocks.contains_key((k - 1) as u64) ==> t.blocks[k].parent_hash
            == t.blocks[(k - 1) as u64].id)
    } by {
        if k != b.height {
            assert(m.blocks.contains_key(k));
            assert(m.blocks[k].id != b.id);
            if k > 0 && t.blocks.contains_key((k - 1) as u64) {
                assert((k - 1) as u64 != b.height);
            }
        } else {
            if k > 0 && t.blocks.contains_key((k - 1) as u64) {
                assert(m.blocks.contains_key(m.height));
            }
        }
    }
}

/// A genesis block installed into an empty chain gives a linked chain.
pub proof fn law_genesis_starts_linked_chain(m: ChainModel, b: BlockModel)
    requires
        m.blocks == Map::<u64, BlockModel>::empty(),
        b.height == 0,
    ensures
        linked(appended(m, b)),
{
}

} // verus!

pub use crate::node::Node;
