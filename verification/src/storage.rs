//! Append-only block storage with crash recovery.
//!
//! Every journal is a sequence of lines, each the lowercase hex form of one record.
//! Committing appends a line; recovery replays the lines, skipping empty ones, and
//! refuses a journal that does not describe one canonical history.
use crate::blockchain::{block_models, spec_tx_root, Block, BlockModel};
use crate::codec::{
    be128, be32, be64, decimal, holds_at, lemma_holds_at_split, lemma_holds_at_start,
    lemma_holds_at_whole, lp,
    push_bytes, push_decimal, push_lp, push_u128, push_u32, push_u64, slice_range,
};
use crate::dao_state::starts_with;
use crate::mempool::{utf8, Transaction, TxModel};
use crate::state::Account;
use crate::economics::MAX_SUPPLY;
use crate::network::{
    block_fields_ready, block_from, block_head_parse, block_tail_parse, head_len, head_of,
    lemma_block_wire_at, lemma_txs_at, push_block, tail_of, txs_decode,
    txs_parse, txs_wire, txs_wire_ready, w_u32, w_u64, BlockHead, BlockTail,
};
use crate::ordmap::{bytes_equal, OrdMap};
use crate::crypto::{ed25519_key_is_valid, ed25519_key_valid};
use crate::network::{entries_have, entry_keys, entry_stakes, key_bytes, snapshot_entries_wire};
use vstd::prelude::*;

verus! {

// ---------------------------------------------------------------------------
// Hex lines
// ---------------------------------------------------------------------------

/// Value of a hexadecimal digit, either case.
pub open spec fn hex_digit_value(c: char) -> Option<u8> {
    if '0' <= c && c <= '9' {
        Some((c as u32 - '0' as u32) as u8)
    } else if 'a' <= c && c <= 'f' {
        Some((c as u32 - 'a' as u32 + 10) as u8)
    } else if 'A' <= c && c <= 'F' {
        Some((c as u32 - 'A' as u32 + 10) as u8)
    } else {
        None
    }
}

/// Whether a text is an even number of hexadecimal digits.
pub open spec fn hex_valid(s: Seq<char>) -> bool {
    s.len() % 2 == 0 && forall|i: int| 0 <= i < s.len() ==> (#[trigger] hex_digit_value(s[i])) is Some
}

/// The bytes a valid hex text spells, two digits per byte, high digit first.
pub open spec fn hex_bytes(s: Seq<char>) -> Seq<u8> {
    Seq::new(
        s.len() / 2,
        |i: int|
            (hex_digit_value(s[2 * i])->Some_0 * 16 + hex_digit_value(s[2 * i + 1])->Some_0) as u8,
    )
}

/// Lowercase hexadecimal digit of a value below sixteen.
pub open spec fn hex_digit(v: int) -> char {
    if v < 10 {
        (('0' as u32) + v) as char
    } else {
        (('a' as u32) + v - 10) as char
    }
}

/// Lowercase hex text of bytes, two digits per byte, high digit first.
pub open spec fn hex_text(b: Seq<u8>) -> Seq<char> {
    Seq::new(
        2 * b.len(),
        |i: int|
            if i % 2 == 0 {
                hex_digit(b[i / 2] as int / 16)
            } else {
                hex_digit(b[i / 2] as int % 16)
            },
    )
}

/// Names the text of the error `hex::decode` reports for an invalid hex text; it
/// depends on the text alone.
pub uninterp spec fn hex_error_text(s: Seq<char>) -> Seq<char>;

/// Calls `hex::decode`. Claimed, as the crate's source shows: it succeeds exactly on an
/// even number of hex digits of either case, giving two digits per byte, high digit
/// first; otherwise its error, as text, is `hex_error_text` of the input.
#[verifier::external_body]
fn hex_decode(s: &str) -> (r: Result<Vec<u8>, String>)
    ensures
        match r {
            Ok(v) => hex_valid(s@) && v@ == hex_bytes(s@),
            Err(e) => !hex_valid(s@) && e@ == hex_error_text(s@),
        },
{
    hex::decode(s).map_err(|e| e.to_string())
}

/// Calls `hex::encode`. Claimed, as the crate's source shows: two lowercase digits per
/// byte, high digit first.
#[verifier::external_body]
pub(crate) fn hex_encode(b: &[u8]) -> (s: String)
    ensures
        s@ == hex_text(b@),
{
    hex::encode(b)
}

/// Decoding the hex text of bytes gives them back.
pub proof fn lemma_hex_roundtrip(b: Seq<u8>)
    ensures
        hex_valid(hex_text(b)),
        hex_bytes(hex_text(b)) == b,
        hex_text(b).len() == 2 * b.len(),
{
    let s = hex_text(b);
    assert forall|i: int| 0 <= i < s.len() implies (#[trigger] hex_digit_value(s[i])) is Some by {
        let v: int = if i % 2 == 0 { b[i / 2] as int / 16 } else { b[i / 2] as int % 16 };
        assert(0 <= v < 16);
        assert(hex_digit_value(hex_digit(v)) == Some(v as u8));
    }
    assert(s.len() % 2 == 0);
    assert forall|i: int| 0 <= i < b.len() implies #[trigger] hex_bytes(s)[i] == b[i] by {
        let hi: int = b[i] as int / 16;
        let lo: int = b[i] as int % 16;
        assert((2 * i) / 2 == i && (2 * i) % 2 == 0);
        assert((2 * i + 1) / 2 == i && (2 * i + 1) % 2 == 1);
        assert(hex_digit_value(hex_digit(hi)) == Some(hi as u8));
        assert(hex_digit_value(hex_digit(lo)) == Some(lo as u8));
    }
    assert(hex_bytes(s) =~= b);
}

/// A journal line prefix naming the line's number, counted from one.
pub open spec fn line_label(kind: Seq<char>, n: nat) -> Seq<char> {
    kind + "line "@ + decimal(n)
}

fn push_line_label(s: &mut String, n: usize)
    ensures
        final(s)@ == old(s)@ + "line "@ + decimal(n as nat),
{
    s.append("line ");
    push_decimal(s, n as u64);
}

// ---------------------------------------------------------------------------
// Stored blocks
// ---------------------------------------------------------------------------

/// Tag that opens a stored block.
pub open spec fn block_magic() -> Seq<u8> {
    utf8("ATCB1"@)
}

/// The record a block is stored as: the tag, then its wire form.
pub open spec fn block_record(b: BlockModel) -> Seq<u8> {
    block_magic() + crate::network::block_wire(b)
}

/// What a stored block record denotes: the tag, the block's fields, nothing
/// trailing, and stored commitments equal to the recomputed ones.
pub open spec fn stored_block_parse(b: Seq<u8>) -> Result<BlockModel, Seq<char>> {
    let m = block_magic().len() as int;
    if !(m <= b.len() && b.subrange(0, m) == block_magic()) {
        Err("invalid storage magic"@)
    } else {
        match block_head_parse(b, m) {
            Err(e) => Err(e),
            Ok((head, q)) => match w_u32(b, q) {
                Err(_) => Err("truncated tx count"@),
                Ok((n, q)) => match txs_parse(b, q, n as nat) {
                    Err(e) => Err(e),
                    Ok((txs, q)) => match block_tail_parse(b, q) {
                        Err(e) => Err(e),
                        Ok((tail, q)) => if q != b.len() {
                            Err("trailing storage bytes"@)
                        } else {
                            let out = block_from(head, txs, tail);
                            if out.tx_root != tail.tx_root {
                                Err("transaction root mismatch"@)
                            } else if out.id != tail.id {
                                Err("block commitment mismatch"@)
                            } else {
                                Ok(out)
                            }
                        },
                    },
                },
            },
        }
    }
}

/// The record a block is stored as.
pub fn block_encode_record(b: &Block) -> (o: Vec<u8>)
    ensures
        o@ == block_record(b@),
{
    let mut o: Vec<u8> = Vec::new();
    push_bytes(&mut o, "ATCB1".as_bytes());
    push_block(&mut o, b);
    assert(o@ =~= block_record(b@));
    o
}

fn read_u64(b: &[u8], p: &mut usize) -> (r: Result<u64, String>)
    ensures
        match w_u64(b@, *old(p) as int) {
            Ok((v, q)) => r == Ok::<u64, String>(v) && *final(p) == q,
            Err(m) => r matches Err(e) && e@ == m,
        },
{
    proof {
        crate::codec::lemma_pow256_small();
    }
    match crate::codec::take_num(b, p, 8) {
        Some(v) => Ok(v as u64),
        None => Err("truncated fixed field".to_string()),
    }
}

fn read_key(b: &[u8], p: &mut usize) -> (r: Result<[u8; 32], String>)
    ensures
        match crate::network::w_fixed(b@, *old(p) as int, 32) {
            Ok((v, q)) => r matches Ok(k) && k@ == v && *final(p) == q,
            Err(m) => r matches Err(e) && e@ == m,
        },
{
    match crate::codec::take_array32(b, p) {
        Some(k) => Ok(k),
        None => Err("truncated fixed field".to_string()),
    }
}

fn read_sig(b: &[u8], p: &mut usize) -> (r: Result<[u8; 64], String>)
    ensures
        match crate::network::w_fixed(b@, *old(p) as int, 64) {
            Ok((v, q)) => r matches Ok(k) && k@ == v && *final(p) == q,
            Err(m) => r matches Err(e) && e@ == m,
        },
{
    match crate::codec::take_array64(b, p) {
        Some(k) => Ok(k),
        None => Err("truncated fixed field".to_string()),
    }
}

fn read_text(b: &[u8], p: &mut usize, err: &str) -> (r: Result<String, String>)
    ensures
        match crate::network::w_text(b@, *old(p) as int, err@) {
            Ok((v, q)) => r matches Ok(s) && s@ == v && *final(p) == q,
            Err(m) => r matches Err(e) && e@ == m,
        },
{
    proof {
        crate::codec::lemma_pow256_small();
    }
    let n = match crate::codec::take_num(b, p, 4) {
        Some(n) => n,
        None => return Err("truncated length".to_string()),
    };
    let bs = match crate::codec::take_bytes(b, p, n as usize) {
        Some(x) => x,
        None => return Err("truncated field".to_string()),
    };
    match crate::codec::utf8_string(bs) {
        Some(s) => Ok(s),
        None => Err(err.to_string()),
    }
}

/// Reads a stored block record.
pub fn block_decode_record(b: &[u8]) -> (r: Result<Block, String>)
    ensures
        match stored_block_parse(b@) {
            Ok(m) => r matches Ok(x) && x@ == m,
            Err(m) => r matches Err(e) && e@ == m,
        },
{
    let magic = "ATCB1".as_bytes();
    if !starts_with(b, magic) {
        return Err("invalid storage magic".to_string());
    }
    let mut p: usize = magic.len();
    let h = read_u64(b, &mut p)?;
    let parent = read_key(b, &mut p)?;
    let proposer = read_text(b, &mut p, "invalid proposer")?;
    let ts = read_u64(b, &mut p)?;
    proof {
        crate::codec::lemma_pow256_small();
    }
    let n = match crate::codec::take_num(b, &mut p, 4) {
        Some(n) => n as u32,
        None => return Err("truncated tx count".to_string()),
    };
    let txs = txs_decode(b, &mut p, n)?;
    let tx_root = read_key(b, &mut p)?;
    let state = read_key(b, &mut p)?;
    let receipt = read_key(b, &mut p)?;
    let sig = read_sig(b, &mut p)?;
    let id = read_key(b, &mut p)?;
    if p != b.len() {
        return Err("trailing storage bytes".to_string());
    }
    let block = Block::new(h, parent, proposer, ts, txs, state, receipt, sig);
    if !bytes_equal(block.tx_root.as_slice(), tx_root.as_slice()) {
        return Err("transaction root mismatch".to_string());
    }
    if !bytes_equal(block.id.as_slice(), id.as_slice()) {
        return Err("block commitment mismatch".to_string());
    }
    Ok(block)
}

// ---------------------------------------------------------------------------
// The storage
// ---------------------------------------------------------------------------

/// Which journal a line belongs to.
#[derive(Clone, Copy, Debug, PartialEq, Eq)]
pub enum JournalKind {
    Blocks,
    State,
    Validators,
    Finality,
    Slashing,
    Issuance,
}

/// The committed blocks by height, and the journals kept beside them: `None` for a
/// storage that keeps no journal, else the lines written so far.
pub struct ChainStorage {
    blocks: OrdMap<u64, Block>,
    state_roots: OrdMap<u64, [u8; 32]>,
    journal: Option<Vec<String>>,
    state_journal: Option<Vec<String>>,
    validator_journal: Option<Vec<String>>,
    finality_journal: Option<Vec<String>>,
    slashing_journal: Option<Vec<String>>,
    issuance_journal: Option<Vec<String>>,
}

/// Content of a storage.
pub struct StorageModel {
    pub blocks: Map<u64, BlockModel>,
    pub journal: Option<Seq<Seq<char>>>,
    pub state_journal: Option<Seq<Seq<char>>>,
    pub validator_journal: Option<Seq<Seq<char>>>,
    pub finality_journal: Option<Seq<Seq<char>>>,
    pub slashing_journal: Option<Seq<Seq<char>>>,
    pub issuance_journal: Option<Seq<Seq<char>>>,
}

/// The texts of some lines.
pub open spec fn line_texts(v: Seq<String>) -> Seq<Seq<char>> {
    v.map_values(|s: String| s@)
}

pub open spec fn journal_view(j: Option<Vec<String>>) -> Option<Seq<Seq<char>>> {
    match j {
        Some(v) => Some(line_texts(v@)),
        None => None,
    }
}

/// A journal with one more line, where there is a journal.
pub open spec fn appended(j: Option<Seq<Seq<char>>>, line: Seq<char>) -> Option<Seq<Seq<char>>> {
    match j {
        Some(lines) => Some(lines.push(line)),
        None => None,
    }
}

impl View for ChainStorage {
    type V = StorageModel;

    closed spec fn view(&self) -> StorageModel {
        StorageModel {
            blocks: block_models(self.blocks@),
            journal: journal_view(self.journal),
            state_journal: journal_view(self.state_journal),
            validator_journal: journal_view(self.validator_journal),
            finality_journal: journal_view(self.finality_journal),
            slashing_journal: journal_view(self.slashing_journal),
            issuance_journal: journal_view(self.issuance_journal),
        }
    }
}

/// The all-zero identifier.
pub open spec fn zero_id() -> Seq<u8> {
    Seq::new(32, |i: int| 0u8)
}

/// Whether an identifier is all zero bytes.
pub fn is_zero_id(a: &[u8; 32]) -> (r: bool)
    ensures
        r == (a@ == zero_id()),
{
    let mut i: usize = 0;
    while i < 32
        invariant
            i <= 32,
            forall|j: int| 0 <= j < i ==> a@[j] == 0,
        decreases 32 - i,
    {
        if a[i] != 0 {
            assert(a@[i as int] != zero_id()[i as int]);
            return false;
        }
        i = i + 1;
    }
    assert(a@ =~= zero_id());
    true
}

/// Whether a block may be committed over the given blocks: `Ok(true)` where it
/// extends them, `Ok(false)` where the same block is already committed.
pub open spec fn commit_check(blocks: Map<u64, BlockModel>, b: BlockModel) -> Result<bool, Seq<char>> {
    if blocks.contains_key(b.height) {
        if blocks[b.height].id == b.id {
            Ok(false)
        } else {
            Err("conflicting block at canonical height"@)
        }
    } else if b.height > 0 {
        if !blocks.contains_key((b.height - 1) as u64) {
            Err("cannot commit block without canonical parent"@)
        } else if b.parent_hash != blocks[(b.height - 1) as u64].id {
            Err("canonical parent mismatch"@)
        } else {
            Ok(true)
        }
    } else if b.parent_hash != zero_id() {
        Err("invalid genesis parent"@)
    } else {
        Ok(true)
    }
}

/// The storage after a block is appended: the block at its height, and its record
/// at the end of the block journal.
pub open spec fn with_block(s: StorageModel, b: BlockModel) -> StorageModel {
    StorageModel {
        blocks: s.blocks.insert(b.height, b),
        journal: appended(s.journal, hex_text(block_record(b))),
        ..s
    }
}

impl ChainStorage {
    pub closed spec fn wf(&self) -> bool {
        &&& self.blocks.wf()
        &&& self.state_roots.wf()
        &&& forall|h: u64| #[trigger]
            self.blocks@.contains_key(h) ==> self.blocks@[h].height == h
                && self.state_roots@.contains_key(h) && self.state_roots@[h]
                == self.blocks@[h].state_root
        &&& forall|h: u64| #[trigger]
            self.state_roots@.contains_key(h) ==> self.blocks@.contains_key(h)
    }

    /// A storage that keeps no journal.
    pub fn new() -> (s: Self)
        ensures
            s.wf(),
            s@.blocks == Map::<u64, BlockModel>::empty(),
            s@.journal is None && s@.state_journal is None && s@.validator_journal is None
                && s@.finality_journal is None && s@.slashing_journal is None
                && s@.issuance_journal is None,
    {
        let s = ChainStorage {
            blocks: OrdMap::new(),
            state_roots: OrdMap::new(),
            journal: None,
            state_journal: None,
            validator_journal: None,
            finality_journal: None,
            slashing_journal: None,
            issuance_journal: None,
        };
        assert(block_models(s.blocks@) =~= Map::<u64, BlockModel>::empty());
        s
    }

    /// The block committed at height `h`.
    pub fn block(&self, h: u64) -> (r: Option<Block>)
        requires
            self.wf(),
        ensures
            match r {
                Some(b) => self@.blocks.contains_key(h) && b@ == self@.blocks[h] && b.height == h,
                None => !self@.blocks.contains_key(h),
            },
    {
        match self.blocks.get(&h) {
            Some(b) => Some(b.duplicate()),
            None => None,
        }
    }

    /// The state root of the block committed at height `h`.
    pub fn state_root(&self, h: u64) -> (r: Option<[u8; 32]>)
        requires
            self.wf(),
        ensures
            match r {
                Some(x) => self@.blocks.contains_key(h) && x@ == self@.blocks[h].state_root,
                None => !self@.blocks.contains_key(h),
            },
    {
        match self.state_roots.get(&h) {
            Some(x) => Some(*x),
            None => None,
        }
    }

    /// The committed block with identifier `id`, the lowest such height first.
    pub fn find_block_by_id(&self, id: [u8; 32]) -> (r: Option<Block>)
        requires
            self.wf(),
        ensures
            match r {
                Some(b) => self@.blocks.contains_key(b.height) && b@ == self@.blocks[b.height]
                    && b.id == id,
                None => forall|h: u64| #[trigger]
                    self@.blocks.contains_key(h) ==> self@.blocks[h].id != id@,
            },
    {
        let n = self.blocks.len();
        let mut i: usize = 0;
        while i < n
            invariant
                self.wf(),
                n == self.blocks.pairs().len(),
                i <= n,
                forall|j: int| 0 <= j < i ==> (#[trigger] self.blocks.pairs()[j]).1.id != id,
            decreases n - i,
        {
            let b = self.blocks.value_at(i);
            if bytes_equal(b.id.as_slice(), id.as_slice()) {
                proof {
                    self.blocks.lemma_entry(i as int);
                    assert(b.id@ =~= id@);
                }
                return Some(b.duplicate());
            }
            i = i + 1;
        }
        proof {
            assert forall|h: u64| #[trigger] self@.blocks.contains_key(h) implies self@.blocks[
                h
            ].id != id@ by {
                self.blocks.lemma_dom(h);
                let j = choose|j: int|
                    0 <= j < self.blocks.pairs().len() && (#[trigger] self.blocks.pairs()[j]).0
                        == h;
                self.blocks.lemma_entry(j);
                if self.blocks@[h].id@ == id@ {
                    assert(self.blocks@[h].id =~= id);
                }
            }
        }
        None
    }

    /// The lines of a journal, where it is kept.
    pub fn journal_lines(&self, kind: JournalKind) -> (r: Option<&Vec<String>>)
        ensures
            journal_view(
                match r {
                    Some(v) => Some(*v),
                    None => None,
                },
            ) == match kind {
                JournalKind::Blocks => self@.journal,
                JournalKind::State => self@.state_journal,
                JournalKind::Validators => self@.validator_journal,
                JournalKind::Finality => self@.finality_journal,
                JournalKind::Slashing => self@.slashing_journal,
                JournalKind::Issuance => self@.issuance_journal,
            },
    {
        let j = match kind {
            JournalKind::Blocks => &self.journal,
            JournalKind::State => &self.state_journal,
            JournalKind::Validators => &self.validator_journal,
            JournalKind::Finality => &self.finality_journal,
            JournalKind::Slashing => &self.slashing_journal,
            JournalKind::Issuance => &self.issuance_journal,
        };
        match j {
            Some(v) => Some(v),
            None => None,
        }
    }

    /// Records a block: its line is appended to the block journal, where there is one,
    /// and it becomes the block at its height.
    fn append_block_record(&mut self, b: Block)
        requires
            old(self).wf(),
        ensures
            final(self).wf(),
            final(self)@ == with_block(old(self)@, b@),
    {
        let ghost s0 = self@;
        if self.journal.is_some() {
            let line = hex_encode(block_encode_record(&b).as_slice());
            let mut j = self.journal.take().unwrap();
            let ghost before = j@;
            j.push(line);
            assert(line_texts(j@) =~= line_texts(before).push(hex_text(block_record(b@))));
            self.journal = Some(j);
        }
        let h = b.height;
        let root = b.state_root;
        self.state_roots.insert(h, root);
        self.blocks.insert(h, b);
        proof {
            assert(block_models(self.blocks@) =~= s0.blocks.insert(h, b@));
        }
    }

    /// Commits a block that extends the canonical chain; committing the block already
    /// at its height again changes nothing.
    pub fn commit(&mut self, b: Block) -> (r: Result<(), String>)
        requires
            old(self).wf(),
        ensures
            final(self).wf(),
            match commit_check(old(self)@.blocks, b@) {
                Err(e) => (r matches Err(x) && x@ == e) && final(self)@ == old(self)@,
                Ok(false) => r is Ok && final(self)@ == old(self)@,
                Ok(true) => r is Ok && final(self)@ == with_block(old(self)@, b@),
            },
    {
        match self.check_commit(&b) {
            Err(e) => Err(e),
            Ok(false) => Ok(()),
            Ok(true) => {
                self.append_block_record(b);
                Ok(())
            },
        }
    }

    fn check_commit(&self, b: &Block) -> (r: Result<bool, String>)
        requires
            self.wf(),
        ensures
            match commit_check(self@.blocks, b@) {
                Err(e) => r matches Err(x) && x@ == e,
                Ok(v) => r == Ok::<bool, String>(v),
            },
    {
        match self.blocks.get(&b.height) {
            Some(existing) => {
                if bytes_equal(existing.id.as_slice(), b.id.as_slice()) {
                    return Ok(false);
                }
                return Err("conflicting block at canonical height".to_string());
            },
            None => {},
        }
        if b.height > 0 {
            let parent = match self.blocks.get(&(b.height - 1)) {
                Some(p) => p,
                None => return Err("cannot commit block without canonical parent".to_string()),
            };
            if !bytes_equal(b.parent_hash.as_slice(), parent.id.as_slice()) {
                return Err("canonical parent mismatch".to_string());
            }
        } else if !is_zero_id(&b.parent_hash) {
            return Err("invalid genesis parent".to_string());
        }
        Ok(true)
    }
}

impl Default for ChainStorage {
    fn default() -> (s: Self)
        ensures
            s.wf(),
            s@.blocks == Map::<u64, BlockModel>::empty(),
            s@.journal is None && s@.state_journal is None && s@.validator_journal is None
                && s@.finality_journal is None && s@.slashing_journal is None
                && s@.issuance_journal is None,
    {
        ChainStorage::new()
    }
}

// ---------------------------------------------------------------------------
// Replaying the block journal
// ---------------------------------------------------------------------------

/// Where a replay of the block journal stands: the height the next block must have,
/// the identifier of the last block taken, and the blocks so far.
pub struct BlockReplay {
    pub expected: u64,
    pub prev: Option<Seq<u8>>,
    pub blocks: Map<u64, BlockModel>,
}

pub open spec fn opt_id(o: Option<[u8; 32]>) -> Option<Seq<u8>> {
    match o {
        Some(x) => Some(x@),
        None => None,
    }
}

/// Taking a block that passed the height and parent checks: a block already held at
/// its height must be the same block, and is then skipped.
pub open spec fn block_line_take(s: BlockReplay, b: BlockModel, label: Seq<char>) -> Result<
    BlockReplay,
    Seq<char>,
> {
    if s.blocks.contains_key(b.height) {
        if s.blocks[b.height].id != b.id {
            Err(label + ": conflicting block at canonical height "@ + decimal(b.height as nat))
        } else {
            Ok(s)
        }
    } else {
        Ok(
            BlockReplay {
                expected: if s.expected == u64::MAX {
                    s.expected
                } else {
                    (s.expected + 1) as u64
                },
                prev: Some(b.id),
                blocks: s.blocks.insert(b.height, b),
            },
        )
    }
}

/// One non-empty line of the block journal, the `n`-th: a stored block at the next
/// height whose parent is the previous block, or a genesis block first.
#[verifier::opaque]
pub open spec fn block_line_step(s: BlockReplay, line: Seq<char>, n: nat) -> Result<
    BlockReplay,
    Seq<char>,
> {
    let label = line_label("journal "@, n);
    if !hex_valid(line) {
        Err(label + ": invalid hex: "@ + hex_error_text(line))
    } else {
        match stored_block_parse(hex_bytes(line)) {
            Err(e) => Err(label + ": "@ + e),
            Ok(b) => if b.height != s.expected {
                Err(
                    label + ": non-sequential block height: expected "@ + decimal(
                        s.expected as nat,
                    ) + ", got "@ + decimal(b.height as nat),
                )
            } else {
                match s.prev {
                    Some(p) => if b.parent_hash != p {
                        Err(label + ": canonical parent mismatch at height "@ + decimal(
                            b.height as nat,
                        ))
                    } else {
                        block_line_take(s, b, label)
                    },
                    None => if b.height != 0 || b.parent_hash != zero_id() {
                        Err(label + ": invalid genesis boundary"@)
                    } else {
                        block_line_take(s, b, label)
                    },
                }
            },
        }
    }
}

/// The replay of the first `n` lines of the block journal; empty lines are skipped.
pub open spec fn block_replay(lines: Seq<Seq<char>>, n: nat, init: BlockReplay) -> Result<
    BlockReplay,
    Seq<char>,
>
    decreases n,
{
    if n == 0 {
        Ok(init)
    } else {
        match block_replay(lines, (n - 1) as nat, init) {
            Err(e) => Err(e),
            Ok(s) => if lines[n - 1].len() == 0 {
                Ok(s)
            } else {
                block_line_step(s, lines[n - 1], n)
            },
        }
    }
}

/// Once a replay fails, replaying more lines fails the same way.
pub proof fn lemma_block_replay_err(lines: Seq<Seq<char>>, i: nat, n: nat, init: BlockReplay)
    requires
        i <= n,
        block_replay(lines, i, init) is Err,
    ensures
        block_replay(lines, n, init) == block_replay(lines, i, init),
    decreases n,
{
    if n > i {
        lemma_block_replay_err(lines, i, (n - 1) as nat, init);
    }
}

/// The text `kind` + "line " + `n`.
fn line_label_text(kind: &str, n: usize) -> (s: String)
    ensures
        s@ == line_label(kind@, n as nat),
{
    let mut s = kind.to_string();
    push_line_label(&mut s, n);
    s
}

/// `label` + `sep` + `msg`.
fn labeled(label: &String, sep: &str, msg: &str) -> (s: String)
    ensures
        s@ == label@ + sep@ + msg@,
{
    let mut s = label.clone();
    s.append(sep);
    s.append(msg);
    s
}

impl ChainStorage {
    fn replay_block_line(
        &mut self,
        expected: &mut u64,
        prev: &mut Option<[u8; 32]>,
        line: &str,
        n: usize,
    ) -> (r: Result<(), String>)
        requires
            old(self).wf(),
        ensures
            final(self).wf(),
            final(self)@ == (StorageModel { blocks: final(self)@.blocks, ..old(self)@ }),
            match block_line_step(
                BlockReplay {
                    expected: *old(expected),
                    prev: opt_id(*old(prev)),
                    blocks: old(self)@.blocks,
                },
                line@,
                n as nat,
            ) {
                Ok(st) => r is Ok && final(self)@.blocks == st.blocks && *final(expected)
                    == st.expected && opt_id(*final(prev)) == st.prev,
                Err(e) => r matches Err(x) && x@ == e,
            },
    {
        reveal(block_line_step);
        let label = line_label_text("journal ", n);
        let bytes = match hex_decode(line) {
            Ok(b) => b,
            Err(e) => return Err(labeled(&label, ": invalid hex: ", e.as_str())),
        };
        let b = match block_decode_record(bytes.as_slice()) {
            Ok(b) => b,
            Err(e) => return Err(labeled(&label, ": ", e.as_str())),
        };
        if b.height != *expected {
            let mut m = label.clone();
            m.append(": non-sequential block height: expected ");
            push_decimal(&mut m, *expected);
            m.append(", got ");
            push_decimal(&mut m, b.height);
            return Err(m);
        }
        match prev {
            Some(p) => {
                if !bytes_equal(b.parent_hash.as_slice(), p.as_slice()) {
                    let mut m = label.clone();
                    m.append(": canonical parent mismatch at height ");
                    push_decimal(&mut m, b.height);
                    return Err(m);
                }
            },
            None => {
                if b.height != 0 || !is_zero_id(&b.parent_hash) {
                    let mut m = label.clone();
                    m.append(": invalid genesis boundary");
                    return Err(m);
                }
            },
        }
        match self.blocks.get(&b.height) {
            Some(existing) => {
                if !bytes_equal(existing.id.as_slice(), b.id.as_slice()) {
                    let mut m = label.clone();
                    m.append(": conflicting block at canonical height ");
                    push_decimal(&mut m, b.height);
                    return Err(m);
                }
                return Ok(());
            },
            None => {},
        }
        *prev = Some(b.id);
        *expected = if *expected == u64::MAX {
            *expected
        } else {
            *expected + 1
        };
        let h = b.height;
        let root = b.state_root;
        let ghost bm = b@;
        let ghost s0 = self@.blocks;
        self.state_roots.insert(h, root);
        self.blocks.insert(h, b);
        proof {
            assert(block_models(self.blocks@) =~= s0.insert(h, bm));
        }
        Ok(())
    }

    /// Replays the block journal over the blocks held.
    fn recover(&mut self) -> (r: Result<(), String>)
        requires
            old(self).wf(),
        ensures
            final(self).wf(),
            final(self)@ == (StorageModel { blocks: final(self)@.blocks, ..old(self)@ }),
            match old(self)@.journal {
                None => r is Ok && final(self)@ == old(self)@,
                Some(lines) => match block_replay(
                    lines,
                    lines.len(),
                    BlockReplay { expected: 0, prev: None, blocks: old(self)@.blocks },
                ) {
                    Ok(st) => r is Ok && final(self)@.blocks == st.blocks,
                    Err(e) => r matches Err(x) && x@ == e,
                },
            },
    {
        let ghost s0 = self@;
        let lines = match self.journal.take() {
            Some(v) => v,
            None => return Ok(()),
        };
        let ghost texts = line_texts(lines@);
        assert(texts.len() == lines@.len());
        let ghost init = BlockReplay { expected: 0, prev: None, blocks: s0.blocks };
        let mut expected: u64 = 0;
        let mut prev: Option<[u8; 32]> = None;
        let mut i: usize = 0;
        while i < lines.len()
            invariant
                self.wf(),
                self.journal is None,
                s0 == old(self)@,
                init == (BlockReplay { expected: 0, prev: None, blocks: s0.blocks }),
                self@ == (StorageModel { blocks: self@.blocks, journal: None, ..s0 }),
                texts == line_texts(lines@),
                texts.len() == lines@.len(),
                s0.journal == Some(texts),
                i <= lines@.len(),
                block_replay(texts, i as nat, init) == Ok::<BlockReplay, Seq<char>>(
                    BlockReplay { expected, prev: opt_id(prev), blocks: self@.blocks },
                ),
            decreases lines@.len() - i,
        {
            let line = lines[i].as_str();
            assert(texts[i as int] == line@);
            if !line.is_empty() {
                let ghost pre = BlockReplay { expected, prev: opt_id(prev), blocks: self@.blocks };
                match self.replay_block_line(&mut expected, &mut prev, line, i + 1) {
                    Ok(()) => {},
                    Err(e) => {
                        proof {
                            assert(block_replay(texts, (i + 1) as nat, init) == block_line_step(
                                pre,
                                texts[i as int],
                                (i + 1) as nat,
                            ));
                            lemma_block_replay_err(texts, (i + 1) as nat, texts.len(), init);
                        }
                        self.journal = Some(lines);
                        return Err(e);
                    },
                }
            }
            i = i + 1;
        }
        self.journal = Some(lines);
        Ok(())
    }

    /// A storage over the given journals, one line per record, with the canonical
    /// blocks recovered from the block journal; the validator snapshot, finality and
    /// issuance journals must replay too, and the first that does not is refused with
    /// its error.
    pub fn open(
        blocks: Vec<String>,
        state: Vec<String>,
        validators: Vec<String>,
        finality: Vec<String>,
        slashing: Vec<String>,
        issuance: Vec<String>,
    ) -> (r: Result<Self, String>)
        ensures
            match block_replay(
                line_texts(blocks@),
                blocks@.len(),
                BlockReplay { expected: 0, prev: None, blocks: Map::empty() },
            ) {
                Ok(st) => {
                    let m = StorageModel {
                        blocks: st.blocks,
                        journal: Some(line_texts(blocks@)),
                        state_journal: Some(line_texts(state@)),
                        validator_journal: Some(line_texts(validators@)),
                        finality_journal: Some(line_texts(finality@)),
                        slashing_journal: Some(line_texts(slashing@)),
                        issuance_journal: Some(line_texts(issuance@)),
                    };
                    match journals_replay(m) {
                        Ok(()) => r matches Ok(s) && s.wf() && s@ == m,
                        Err(e) => r matches Err(x) && x@ == e,
                    }
                },
                Err(e) => r matches Err(x) && x@ == e,
            },
    {
        let mut s = ChainStorage {
            blocks: OrdMap::new(),
            state_roots: OrdMap::new(),
            journal: Some(blocks),
            state_journal: Some(state),
            validator_journal: Some(validators),
            finality_journal: Some(finality),
            slashing_journal: Some(slashing),
            issuance_journal: Some(issuance),
        };
        assert(block_models(s.blocks@) =~= Map::<u64, BlockModel>::empty());
        match s.recover() {
            Err(e) => return Err(e),
            Ok(()) => {},
        }
        match s.recover_validator_snapshots() {
            Err(e) => return Err(e),
            Ok(_) => {},
        }
        match s.recover_finalized() {
            Err(e) => return Err(e),
            Ok(_) => {},
        }
        match s.recover_issuance() {
            Err(e) => return Err(e),
            Ok(_) => {},
        }
        Ok(s)
    }
}

/// Whether the validator snapshot, finality and issuance journals replay, in that
/// order; the error of the first that does not.
pub open spec fn journals_replay(m: StorageModel) -> Result<(), Seq<char>> {
    match recovered_history(m) {
        Err(e) => Err(e),
        Ok(_) => match recovered_finality(m) {
            Err(e) => Err(e),
            Ok(_) => match recovered_issuance(m) {
                Err(e) => Err(e),
                Ok(_) => Ok(()),
            },
        },
    }
}

// ---------------------------------------------------------------------------
// Recovering what was committed
// ---------------------------------------------------------------------------

/// Reading the record of a block whose fields can be read back gives it back.
pub proof fn lemma_stored_block_roundtrip(m: BlockModel)
    requires
        block_fields_ready(m),
    ensures
        stored_block_parse(block_record(m)) == Ok::<BlockModel, Seq<char>>(m),
{
    let b = block_record(m);
    let mg = block_magic();
    lemma_holds_at_whole(b);
    lemma_holds_at_split(b, 0, mg, crate::network::block_wire(m));
    lemma_holds_at_start(b, mg);
    lemma_block_wire_at(b, mg.len() as int, m);
}

/// The replay of an empty history.
pub open spec fn empty_replay() -> BlockReplay {
    BlockReplay { expected: 0, prev: None, blocks: Map::empty() }
}

/// A replay state that describes a canonical chain: a block at every height below the
/// next expected one and nowhere else, and `prev` the identifier of the last block.
pub open spec fn replay_canonical(s: BlockReplay) -> bool {
    &&& forall|h: u64| #[trigger] s.blocks.contains_key(h) <==> h < s.expected
    &&& forall|h: u64| #[trigger] s.blocks.contains_key(h) ==> s.blocks[h].height == h
    &&& s.expected == 0 ==> s.prev is None
    &&& s.expected > 0 ==> s.prev == Some(s.blocks[(s.expected - 1) as u64].id)
}

/// A replay only looks at the lines it has reached.
proof fn lemma_block_replay_prefix(a: Seq<Seq<char>>, b: Seq<Seq<char>>, n: nat, init: BlockReplay)
    requires
        n <= a.len(),
        n <= b.len(),
        forall|i: int| 0 <= i < n ==> a[i] == b[i],
    ensures
        block_replay(a, n, init) == block_replay(b, n, init),
    decreases n,
{
    if n > 0 {
        lemma_block_replay_prefix(a, b, (n - 1) as nat, init);
        assert(a[n - 1] == b[n - 1]);
    }
}

/// A successful replay from nothing that has not reached the last height describes a
/// canonical chain.
proof fn lemma_block_replay_canonical(lines: Seq<Seq<char>>, n: nat)
    requires
        n <= lines.len(),
        block_replay(lines, n, empty_replay()) is Ok,
        block_replay(lines, n, empty_replay())->Ok_0.expected < u64::MAX,
    ensures
        replay_canonical(block_replay(lines, n, empty_replay())->Ok_0),
    decreases n,
{
    reveal(block_line_step);
    if n > 0 {
        let prev = block_replay(lines, (n - 1) as nat, empty_replay());
        let s = prev->Ok_0;
        let after = block_replay(lines, n, empty_replay())->Ok_0;
        assert(s.expected <= after.expected);
        lemma_block_replay_canonical(lines, (n - 1) as nat);
        if lines[n - 1].len() != 0 {
            let b = stored_block_parse(hex_bytes(lines[n - 1]))->Ok_0;
            if !s.blocks.contains_key(b.height) {
                assert forall|h: u64| #[trigger] after.blocks.contains_key(h) <==> h
                    < after.expected by {
                    if h == s.expected {
                        assert(after.blocks.contains_key(h));
                    }
                }
            }
        }
    } else {
        assert(replay_canonical(empty_replay()));
    }
}

/// Appending the record of a block that may be committed over a canonical replay
/// extends the replay by that block.
proof fn lemma_block_line_extends(s: BlockReplay, b: BlockModel, n: nat)
    requires
        replay_canonical(s),
        s.expected < u64::MAX,
        block_fields_ready(b),
        commit_check(s.blocks, b) == Ok::<bool, Seq<char>>(true),
    ensures
        block_line_step(s, hex_text(block_record(b)), n) == Ok::<BlockReplay, Seq<char>>(
            BlockReplay {
                expected: (s.expected + 1) as u64,
                prev: Some(b.id),
                blocks: s.blocks.insert(b.height, b),
            },
        ),
{
    reveal(block_line_step);
    lemma_hex_roundtrip(block_record(b));
    lemma_stored_block_roundtrip(b);
    if b.height > 0 {
        assert(s.blocks.contains_key((b.height - 1) as u64));
    } else {
        if s.expected > 0 {
            assert(s.blocks.contains_key(0));
        }
    }
    assert(b.height == s.expected);
}

/// The blocks a storage holds are the ones its block journal replays to, from
/// nothing, and that replay has not reached the last height.
pub open spec fn journal_recovers(s: StorageModel) -> bool {
    s.journal matches Some(lines) && block_replay(lines, lines.len(), empty_replay()) matches Ok(
        st,
    ) && st.blocks == s.blocks && st.expected < u64::MAX
}

/// Crash recovery gives back every committed block: where the block journal replays to
/// the blocks held, it still does after a block is committed, so reopening the storage
/// from its journal finds the same canonical chain.
pub proof fn law_commit_keeps_journal_recoverable(s: StorageModel, b: BlockModel)
    requires
        journal_recovers(s),
        block_fields_ready(b),
        commit_check(s.blocks, b) == Ok::<bool, Seq<char>>(true),
    ensures
        with_block(s, b).journal matches Some(lines) && block_replay(
            lines,
            lines.len(),
            empty_replay(),
        ) matches Ok(st) && st.blocks == with_block(s, b).blocks,
{
    let lines = s.journal->Some_0;
    let n = lines.len();
    let st = block_replay(lines, n, empty_replay())->Ok_0;
    let line = hex_text(block_record(b));
    let lines2 = lines.push(line);
    lemma_block_replay_canonical(lines, n);
    lemma_block_replay_prefix(lines, lines2, n, empty_replay());
    lemma_hex_roundtrip(block_record(b));
    assert(lines2[n as int] == line);
    assert(line.len() > 0) by {
        broadcast use crate::codec::lemma_be_length;

        assert(crate::network::block_wire(b).len() >= 8);
    }
    lemma_block_line_extends(st, b, n + 1);
}

// ---------------------------------------------------------------------------
// State snapshots
// ---------------------------------------------------------------------------

/// Accounts and the DAO snapshot recovered together.
pub type DaoStateSnapshot = (OrdMap<String, Account>, Vec<u8>);

/// Entries of a state record, one per account in `pairs`' order: the address, then
/// balance, stake and nonce.
pub open spec fn state_entries_wire(pairs: Seq<(Seq<char>, Account)>) -> Seq<u8>
    decreases pairs.len(),
{
    if pairs.len() == 0 {
        Seq::empty()
    } else {
        let (k, a) = pairs.last();
        state_entries_wire(pairs.drop_last()) + lp(utf8(k)) + be64(a.balance) + be64(a.staked)
            + be64(a.nonce)
    }
}

/// The record of a state snapshot: height, account count, accounts, DAO snapshot.
pub open spec fn state_record(h: u64, pairs: Seq<(Seq<char>, Account)>, dao: Seq<u8>) -> Seq<u8> {
    be64(h) + be32(pairs.len() as u32) + state_entries_wire(pairs) + lp(dao)
}

/// The `n` account entries of a state record at `q`; a later entry for an address
/// replaces an earlier one.
pub open spec fn state_entries_parse(b: Seq<u8>, q: int, n: nat) -> Result<
    (Map<Seq<char>, Account>, int),
    Seq<char>,
>
    decreases n,
{
    if n == 0 {
        Ok((Map::empty(), q))
    } else {
        match state_entries_parse(b, q, (n - 1) as nat) {
            Err(e) => Err(e),
            Ok((m, q)) => match crate::network::w_text(b, q, "invalid state key"@) {
                Err(e) => Err(e),
                Ok((k, q)) => match w_u64(b, q) {
                    Err(e) => Err(e),
                    Ok((balance, q)) => match w_u64(b, q) {
                        Err(e) => Err(e),
                        Ok((staked, q)) => match w_u64(b, q) {
                            Err(e) => Err(e),
                            Ok((nonce, q)) => Ok(
                                (m.insert(k, Account { balance, staked, nonce }), q),
                            ),
                        },
                    },
                },
            },
        }
    }
}

/// What a state record denotes: its height, accounts and DAO snapshot; a record that
/// ends after the accounts has an empty DAO snapshot.
pub open spec fn state_record_parse(b: Seq<u8>) -> Result<
    (u64, Map<Seq<char>, Account>, Seq<u8>),
    Seq<char>,
> {
    match w_u64(b, 0) {
        Err(e) => Err(e),
        Ok((h, q)) => match w_u32(b, q) {
            Err(e) => Err(e),
            Ok((n, q)) => match state_entries_parse(b, q, n as nat) {
                Err(e) => Err(e),
                Ok((m, q)) => if q < b.len() {
                    match crate::network::w_field(b, q) {
                        Err(e) => Err(e),
                        Ok((dao, q)) => if q != b.len() {
                            Err("trailing state bytes"@)
                        } else {
                            Ok((h, m, dao))
                        },
                    }
                } else if q != b.len() {
                    Err("trailing state bytes"@)
                } else {
                    Ok((h, m, Seq::empty()))
                },
            },
        },
    }
}

/// Where a replay of the state journal stands: the height of the last snapshot and
/// that snapshot.
pub struct StateReplay {
    pub previous: Option<u64>,
    pub latest: Option<(u64, Map<Seq<char>, Account>, Seq<u8>)>,
}

/// One non-empty line of the state journal: a snapshot of a committed block, above
/// the previous snapshot.
#[verifier::opaque]
pub open spec fn state_line_step(
    blocks: Map<u64, BlockModel>,
    s: StateReplay,
    line: Seq<char>,
) -> Result<StateReplay, Seq<char>> {
    if !hex_valid(line) {
        Err(hex_error_text(line))
    } else {
        match state_record_parse(hex_bytes(line)) {
            Err(e) => Err(e),
            Ok((h, m, dao)) => if !blocks.contains_key(h) {
                Err("state snapshot references missing block"@)
            } else if s.previous matches Some(p) && h < p {
                Err("state journal height regression"@)
            } else if s.previous matches Some(p) && h == p {
                Err("conflicting state snapshot at same height"@)
            } else {
                Ok(StateReplay { previous: Some(h), latest: Some((h, m, dao)) })
            },
        }
    }
}

/// The replay of the first `n` lines of the state journal; empty lines are skipped.
pub open spec fn state_replay(blocks: Map<u64, BlockModel>, lines: Seq<Seq<char>>, n: nat) -> Result<
    StateReplay,
    Seq<char>,
>
    decreases n,
{
    if n == 0 {
        Ok(StateReplay { previous: None, latest: None })
    } else {
        match state_replay(blocks, lines, (n - 1) as nat) {
            Err(e) => Err(e),
            Ok(s) => if lines[n - 1].len() == 0 {
                Ok(s)
            } else {
                state_line_step(blocks, s, lines[n - 1])
            },
        }
    }
}

pub proof fn lemma_state_replay_err(
    blocks: Map<u64, BlockModel>,
    lines: Seq<Seq<char>>,
    i: nat,
    n: nat,
)
    requires
        i <= n,
        state_replay(blocks, lines, i) is Err,
    ensures
        state_replay(blocks, lines, n) == state_replay(blocks, lines, i),
    decreases n,
{
    if n > i {
        lemma_state_replay_err(blocks, lines, i, (n - 1) as nat);
    }
}

/// Whether a state snapshot can be written so that it reads back: the number of
/// accounts, each address and the DAO snapshot fit a 32-bit length.
pub open spec fn state_fields_ready(pairs: Seq<(Seq<char>, Account)>, dao: Seq<u8>) -> bool {
    &&& pairs.len() < 0x1_0000_0000
    &&& dao.len() < 0x1_0000_0000
    &&& forall|i: int| 0 <= i < pairs.len() ==> utf8(#[trigger] pairs[i].0).len() < 0x1_0000_0000
}

proof fn lemma_state_entries_at(b: Seq<u8>, q: int, pairs: Seq<(Seq<char>, Account)>)
    requires
        holds_at(b, q, state_entries_wire(pairs)),
        forall|i: int| 0 <= i < pairs.len() ==> utf8(#[trigger] pairs[i].0).len() < 0x1_0000_0000,
    ensures
        state_entries_parse(b, q, pairs.len()) == Ok::<(Map<Seq<char>, Account>, int), Seq<char>>(
            (crate::ordmap::map_of(pairs), q + state_entries_wire(pairs).len()),
        ),
    decreases pairs.len(),
{
    broadcast use crate::codec::lemma_be_length;

    if pairs.len() > 0 {
        let init = pairs.drop_last();
        let (k, a) = pairs.last();
        assert(pairs[pairs.len() - 1] == (k, a));
        let w0 = state_entries_wire(init);
        let x1 = w0 + lp(utf8(k));
        let x2 = x1 + be64(a.balance);
        let x3 = x2 + be64(a.staked);
        assert(state_entries_wire(pairs) == x3 + be64(a.nonce));
        lemma_holds_at_split(b, q, x3, be64(a.nonce));
        lemma_holds_at_split(b, q, x2, be64(a.staked));
        lemma_holds_at_split(b, q, x1, be64(a.balance));
        lemma_holds_at_split(b, q, w0, lp(utf8(k)));
        assert forall|i: int| 0 <= i < init.len() implies utf8(#[trigger] init[i].0).len() < 0x1_0000_0000 by {
            assert(init[i] == pairs[i]);
        }
        lemma_state_entries_at(b, q, init);
        let q1 = q + w0.len();
        crate::network::lemma_w_text_at(b, q1, k, "invalid state key"@);
        crate::network::lemma_w_u64_at(b, q1 + 4 + utf8(k).len(), a.balance);
        crate::network::lemma_w_u64_at(b, q1 + 12 + utf8(k).len(), a.staked);
        crate::network::lemma_w_u64_at(b, q1 + 20 + utf8(k).len(), a.nonce);
        assert(Account { balance: a.balance, staked: a.staked, nonce: a.nonce } == a);
    }
}

/// A state record reads back as the height, accounts and DAO snapshot it was written
/// from.
pub proof fn lemma_state_record_roundtrip(h: u64, pairs: Seq<(Seq<char>, Account)>, dao: Seq<u8>)
    requires
        state_fields_ready(pairs, dao),
    ensures
        state_record_parse(state_record(h, pairs, dao)) == Ok::<
            (u64, Map<Seq<char>, Account>, Seq<u8>),
            Seq<char>,
        >((h, crate::ordmap::map_of(pairs), dao)),
{
    broadcast use crate::codec::lemma_be_length;

    let b = state_record(h, pairs, dao);
    let w = state_entries_wire(pairs);
    let x1 = be64(h);
    let x2 = x1 + be32(pairs.len() as u32);
    let x3 = x2 + w;
    lemma_holds_at_whole(b);
    lemma_holds_at_split(b, 0, x3, lp(dao));
    lemma_holds_at_split(b, 0, x2, w);
    lemma_holds_at_split(b, 0, x1, be32(pairs.len() as u32));
    crate::network::lemma_w_u64_at(b, 0, h);
    crate::network::lemma_w_u32_at(b, 8, pairs.len() as u32);
    assert((pairs.len() as u32) as nat == pairs.len());
    lemma_state_entries_at(b, 12, pairs);
    crate::network::lemma_w_field_at(b, 12 + w.len() as int, dao);
}

/// Replaying a state journal is not changed by more stored blocks, once it succeeds,
/// nor by lines added after the replayed ones.
proof fn lemma_state_replay_extends(
    blocks: Map<u64, BlockModel>,
    blocks2: Map<u64, BlockModel>,
    lines: Seq<Seq<char>>,
    lines2: Seq<Seq<char>>,
    n: nat,
)
    requires
        n <= lines.len(),
        n <= lines2.len(),
        forall|i: int| 0 <= i < n ==> lines2[i] == lines[i],
        forall|h: u64| #[trigger] blocks.contains_key(h) ==> blocks2.contains_key(h),
        state_replay(blocks, lines, n) is Ok,
    ensures
        state_replay(blocks2, lines2, n) == state_replay(blocks, lines, n),
        state_replay(blocks, lines, n)->Ok_0.previous matches Some(p) ==> blocks.contains_key(p),
    decreases n,
{
    if n > 0 {
        lemma_state_replay_extends(blocks, blocks2, lines, lines2, (n - 1) as nat);
        reveal(state_line_step);
    }
}

/// What recovering the latest state snapshot gives: nothing without a state journal.
pub open spec fn recovered_state(s: StorageModel) -> Result<
    Option<(u64, Map<Seq<char>, Account>, Seq<u8>)>,
    Seq<char>,
> {
    match s.state_journal {
        None => Ok(None),
        Some(lines) => match state_replay(s.blocks, lines, lines.len()) {
            Err(e) => Err(e),
            Ok(st) => Ok(st.latest),
        },
    }
}

pub open spec fn snapshot_view(o: Option<(u64, DaoStateSnapshot)>) -> Option<
    (u64, Map<Seq<char>, Account>, Seq<u8>),
> {
    match o {
        Some((h, (m, dao))) => Some((h, m@, dao@)),
        None => None,
    }
}

fn read_state_entries(b: &[u8], p: &mut usize, n: u32) -> (r: Result<OrdMap<String, Account>, String>)
    ensures
        match state_entries_parse(b@, *old(p) as int, n as nat) {
            Ok((m, q)) => r matches Ok(x) && x.wf() && x@ == m && *final(p) == q,
            Err(e) => r matches Err(x) && x@ == e,
        },
{
    let ghost p0 = *p as int;
    let mut map: OrdMap<String, Account> = OrdMap::new();
    let mut i: u32 = 0;
    assert(map@ =~= Map::<Seq<char>, Account>::empty());
    while i < n
        invariant
            i <= n,
            p0 == *old(p) as int,
            map.wf(),
            state_entries_parse(b@, p0, i as nat) == Ok::<(Map<Seq<char>, Account>, int), Seq<char>>(
                (map@, *p as int),
            ),
        decreases n - i,
    {
        let k = match read_text(b, p, "invalid state key") {
            Ok(k) => k,
            Err(e) => {
                proof {
                    lemma_state_entries_err(b@, p0, (i + 1) as nat, n as nat);
                }
                return Err(e);
            },
        };
        let balance = match read_u64(b, p) {
            Ok(v) => v,
            Err(e) => {
                proof {
                    lemma_state_entries_err(b@, p0, (i + 1) as nat, n as nat);
                }
                return Err(e);
            },
        };
        let staked = match read_u64(b, p) {
            Ok(v) => v,
            Err(e) => {
                proof {
                    lemma_state_entries_err(b@, p0, (i + 1) as nat, n as nat);
                }
                return Err(e);
            },
        };
        let nonce = match read_u64(b, p) {
            Ok(v) => v,
            Err(e) => {
                proof {
                    lemma_state_entries_err(b@, p0, (i + 1) as nat, n as nat);
                }
                return Err(e);
            },
        };
        map.insert(k, Account { balance, staked, nonce });
        i = i + 1;
    }
    Ok(map)
}

proof fn lemma_state_entries_err(b: Seq<u8>, q: int, i: nat, n: nat)
    requires
        i <= n,
        state_entries_parse(b, q, i) is Err,
    ensures
        state_entries_parse(b, q, n) == state_entries_parse(b, q, i),
    decreases n,
{
    if n > i {
        lemma_state_entries_err(b, q, i, (n - 1) as nat);
    }
}

fn read_u32(b: &[u8], p: &mut usize) -> (r: Result<u32, String>)
    ensures
        match w_u32(b@, *old(p) as int) {
            Ok((v, q)) => r == Ok::<u32, String>(v) && *final(p) == q,
            Err(m) => r matches Err(e) && e@ == m,
        },
{
    proof {
        crate::codec::lemma_pow256_small();
    }
    match crate::codec::take_num(b, p, 4) {
        Some(v) => Ok(v as u32),
        None => Err("truncated fixed field".to_string()),
    }
}

fn read_field_vec(b: &[u8], p: &mut usize) -> (r: Result<Vec<u8>, String>)
    ensures
        match crate::network::w_field(b@, *old(p) as int) {
            Ok((v, q)) => r matches Ok(x) && x@ == v && *final(p) == q,
            Err(m) => r matches Err(e) && e@ == m,
        },
{
    proof {
        crate::codec::lemma_pow256_small();
    }
    let n = match crate::codec::take_num(b, p, 4) {
        Some(n) => n,
        None => return Err("truncated length".to_string()),
    };
    match crate::codec::take_bytes(b, p, n as usize) {
        Some(x) => Ok(vstd::slice::slice_to_vec(x)),
        None => Err("truncated field".to_string()),
    }
}

/// Reads a state record.
pub fn state_record_decode(b: &[u8]) -> (r: Result<(u64, OrdMap<String, Account>, Vec<u8>), String>)
    ensures
        match state_record_parse(b@) {
            Ok((h, m, dao)) => r matches Ok((h2, x, d)) && h2 == h && x.wf() && x@ == m && d@
                == dao,
            Err(e) => r matches Err(x) && x@ == e,
        },
{
    let mut q: usize = 0;
    let h = read_u64(b, &mut q)?;
    let n = read_u32(b, &mut q)?;
    let map = read_state_entries(b, &mut q, n)?;
    let dao = if q < b.len() {
        read_field_vec(b, &mut q)?
    } else {
        let v: Vec<u8> = Vec::new();
        assert(v@ =~= Seq::<u8>::empty());
        v
    };
    if q != b.len() {
        return Err("trailing state bytes".to_string());
    }
    Ok((h, map, dao))
}

/// Appends the entries of a state record.
fn push_state_entries(o: &mut Vec<u8>, state: &OrdMap<String, Account>)
    requires
        state.wf(),
    ensures
        final(o)@ == old(o)@ + state_entries_wire(state.pairs()),
{
    let ghost o0 = o@;
    let ghost pairs = state.pairs();
    let n = state.len();
    let mut i: usize = 0;
    assert(pairs.take(0) =~= Seq::<(Seq<char>, Account)>::empty());
    while i < n
        invariant
            state.wf(),
            pairs == state.pairs(),
            n == pairs.len(),
            i <= n,
            o@ == o0 + state_entries_wire(pairs.take(i as int)),
        decreases n - i,
    {
        let k = state.key_at(i);
        let a = *state.value_at(i);
        push_lp(o, k.as_str().as_bytes());
        push_u64(o, a.balance);
        push_u64(o, a.staked);
        push_u64(o, a.nonce);
        proof {
            assert(pairs.take(i + 1).drop_last() =~= pairs.take(i as int));
            assert(pairs.take(i + 1).last() == pairs[i as int]);
        }
        i = i + 1;
    }
    assert(pairs.take(n as int) =~= pairs);
}

/// The record of a state snapshot.
pub fn state_record_encode(h: u64, state: &OrdMap<String, Account>, dao: &[u8]) -> (o: Vec<u8>)
    requires
        state.wf(),
    ensures
        o@ == state_record(h, state.pairs(), dao@),
{
    let mut o: Vec<u8> = Vec::new();
    push_u64(&mut o, h);
    push_u32(&mut o, state.len() as u32);
    push_state_entries(&mut o, state);
    push_lp(&mut o, dao);
    assert(o@ =~= state_record(h, state.pairs(), dao@));
    o
}

/// A journal with `line` appended, where it is kept.
fn push_line(j: &mut Option<Vec<String>>, line: String)
    ensures
        journal_view(*final(j)) == appended(journal_view(*old(j)), line@),
{
    match j {
        Some(v) => {
            let ghost before = v@;
            v.push(line);
            assert(line_texts(v@) =~= line_texts(before).push(line@));
        },
        None => {},
    }
}

impl ChainStorage {
    fn state_line(&self, s: &mut (Option<u64>, Option<(u64, DaoStateSnapshot)>), line: &str) -> (r: Result<(), String>)
        requires
            self.wf(),
        ensures
            match state_line_step(
                self@.blocks,
                StateReplay { previous: old(s).0, latest: snapshot_view(old(s).1) },
                line@,
            ) {
                Ok(st) => r is Ok && final(s).0 == st.previous && snapshot_view(final(s).1)
                    == st.latest && (final(s).1 matches Some((_, (m, _))) ==> m.wf()),
                Err(e) => r matches Err(x) && x@ == e,
            },
    {
        reveal(state_line_step);
        let bytes = hex_decode(line)?;
        let (h, map, dao) = state_record_decode(bytes.as_slice())?;
        if !self.blocks.contains_key(&h) {
            return Err("state snapshot references missing block".to_string());
        }
        match s.0 {
            Some(prev) => {
                if h < prev {
                    return Err("state journal height regression".to_string());
                }
                if h == prev {
                    return Err("conflicting state snapshot at same height".to_string());
                }
            },
            None => {},
        }
        s.0 = Some(h);
        s.1 = Some((h, (map, dao)));
        Ok(())
    }

    /// The latest durable state snapshot with the height of the block it belongs to.
    pub fn recover_state_with_dao_at_height(&self) -> (r: Result<Option<(u64, DaoStateSnapshot)>, String>)
        requires
            self.wf(),
        ensures
            match recovered_state(self@) {
                Ok(v) => r matches Ok(x) && snapshot_view(x) == v && (x matches Some((_, (m, _)))
                    ==> m.wf()),
                Err(e) => r matches Err(x) && x@ == e,
            },
    {
        let lines = match &self.state_journal {
            Some(v) => v,
            None => return Ok(None),
        };
        let ghost texts = line_texts(lines@);
        assert(texts.len() == lines@.len());
        let mut st: (Option<u64>, Option<(u64, DaoStateSnapshot)>) = (None, None);
        let mut i: usize = 0;
        while i < lines.len()
            invariant
                self.wf(),
                self@.state_journal == Some(texts),
                texts == line_texts(lines@),
                texts.len() == lines@.len(),
                i <= lines@.len(),
                state_replay(self@.blocks, texts, i as nat) == Ok::<StateReplay, Seq<char>>(
                    StateReplay { previous: st.0, latest: snapshot_view(st.1) },
                ),
                st.1 matches Some((_, (m, _))) ==> m.wf(),
            decreases lines@.len() - i,
        {
            let line = lines[i].as_str();
            assert(texts[i as int] == line@);
            if !line.is_empty() {
                let ghost pre = StateReplay { previous: st.0, latest: snapshot_view(st.1) };
                match self.state_line(&mut st, line) {
                    Ok(()) => {},
                    Err(e) => {
                        proof {
                            assert(state_replay(self@.blocks, texts, (i + 1) as nat)
                                == state_line_step(self@.blocks, pre, texts[i as int]));
                            lemma_state_replay_err(self@.blocks, texts, (i + 1) as nat, texts.len());
                        }
                        return Err(e);
                    },
                }
            }
            i = i + 1;
        }
        Ok(st.1)
    }

    /// The accounts of the latest durable state snapshot.
    pub fn recover_state(&self) -> (r: Result<Option<OrdMap<String, Account>>, String>)
        requires
            self.wf(),
        ensures
            match recovered_state(self@) {
                Ok(v) => r matches Ok(x) && match v {
                    Some((_, m, _)) => x matches Some(y) && y.wf() && y@ == m,
                    None => x is None,
                },
                Err(e) => r matches Err(x) && x@ == e,
            },
    {
        match self.recover_state_with_dao_at_height()? {
            Some((_, (m, _))) => Ok(Some(m)),
            None => Ok(None),
        }
    }

    /// The accounts of the latest durable state snapshot.
    pub fn recover_state_with_dao(&self) -> (r: Result<Option<OrdMap<String, Account>>, String>)
        requires
            self.wf(),
        ensures
            match recovered_state(self@) {
                Ok(v) => r matches Ok(x) && match v {
                    Some((_, m, _)) => x matches Some(y) && y.wf() && y@ == m,
                    None => x is None,
                },
                Err(e) => r matches Err(x) && x@ == e,
            },
    {
        self.recover_state()
    }

    fn append_state_snapshot(&mut self, h: u64, state: &OrdMap<String, Account>, dao: &[u8])
        requires
            old(self).wf(),
            state.wf(),
        ensures
            final(self).wf(),
            final(self)@ == (StorageModel {
                state_journal: appended(
                    old(self)@.state_journal,
                    hex_text(state_record(h, state.pairs(), dao@)),
                ),
                ..old(self)@
            }),
    {
        if self.state_journal.is_some() {
            let line = hex_encode(state_record_encode(h, state, dao).as_slice());
            push_line(&mut self.state_journal, line);
        }
    }

    /// Records a state snapshot with a DAO snapshot for a committed block.
    pub fn commit_state_with_dao(
        &mut self,
        height: u64,
        state: &OrdMap<String, Account>,
        dao: &[u8],
    ) -> (r: Result<(), String>)
        requires
            old(self).wf(),
            state.wf(),
        ensures
            final(self).wf(),
            !old(self)@.blocks.contains_key(height) ==> (r matches Err(e) && e@
                == "state snapshot references missing block"@) && final(self)@ == old(self)@,
            old(self)@.blocks.contains_key(height) ==> r is Ok && final(self)@ == (StorageModel {
                state_journal: appended(
                    old(self)@.state_journal,
                    hex_text(state_record(height, state.pairs(), dao@)),
                ),
                ..old(self)@
            }),
    {
        if !self.blocks.contains_key(&height) {
            return Err("state snapshot references missing block".to_string());
        }
        self.append_state_snapshot(height, state, dao);
        Ok(())
    }

    /// Records a state snapshot, with an empty DAO snapshot, for a committed block.
    pub fn commit_state(&mut self, height: u64, state: &OrdMap<String, Account>) -> (r: Result<(), String>)
        requires
            old(self).wf(),
            state.wf(),
        ensures
            final(self).wf(),
            !old(self)@.blocks.contains_key(height) ==> (r matches Err(e) && e@
                == "state snapshot references missing block"@) && final(self)@ == old(self)@,
            old(self)@.blocks.contains_key(height) ==> r is Ok && final(self)@ == (StorageModel {
                state_journal: appended(
                    old(self)@.state_journal,
                    hex_text(state_record(height, state.pairs(), Seq::empty())),
                ),
                ..old(self)@
            }),
    {
        let empty: Vec<u8> = Vec::new();
        assert(empty@ =~= Seq::<u8>::empty());
        self.commit_state_with_dao(height, state, empty.as_slice())
    }
}

// ---------------------------------------------------------------------------
// Issuance, finality and slashing records
// ---------------------------------------------------------------------------

/// Whether `b` begins with `magic`.
pub open spec fn has_magic(b: Seq<u8>, magic: Seq<u8>) -> bool {
    magic.len() <= b.len() && b.subrange(0, magic.len() as int) == magic
}

pub open spec fn issuance_magic() -> Seq<u8> {
    utf8("ATCI1"@)
}

pub open spec fn finality_magic() -> Seq<u8> {
    utf8("ATCF1"@)
}

pub open spec fn slashing_magic() -> Seq<u8> {
    utf8("ATCS1"@)
}

/// The record of the issued supply at a height.
pub open spec fn issuance_record(h: u64, issued: u128) -> Seq<u8> {
    issuance_magic() + be64(h) + be128(issued)
}

/// The record of a finalized block.
pub open spec fn finality_record(h: u64, id: Seq<u8>) -> Seq<u8> {
    finality_magic() + be64(h) + id
}

/// The record of a slashing.
pub open spec fn slashing_record(h: u64, validator: Seq<char>, evidence: Seq<u8>, penalty: u64) -> Seq<u8> {
    slashing_magic() + be64(h) + lp(utf8(validator)) + evidence + be64(penalty)
}

pub open spec fn w_u128(b: Seq<u8>, q: int) -> Result<(u128, int), Seq<char>> {
    match crate::codec::sp_num(b, q, 16) {
        Some((v, q1)) => Ok((v as u128, q1)),
        None => Err("truncated fixed field"@),
    }
}

fn read_u128(b: &[u8], p: &mut usize) -> (r: Result<u128, String>)
    ensures
        match w_u128(b@, *old(p) as int) {
            Ok((v, q)) => r == Ok::<u128, String>(v) && *final(p) == q,
            Err(m) => r matches Err(e) && e@ == m,
        },
{
    proof {
        crate::codec::lemma_pow256_small();
    }
    match crate::codec::take_num(b, p, 16) {
        Some(v) => Ok(v),
        None => Err("truncated fixed field".to_string()),
    }
}

/// Where a replay of the issuance journal stands.
pub struct IssuanceReplay {
    pub previous: Option<u64>,
    pub latest: Option<(u64, u128)>,
}

/// One non-empty line of the issuance journal: a record of a committed block, above
/// the previous record, within the supply cap, with nothing trailing.
#[verifier::opaque]
pub open spec fn issuance_line_step(
    blocks: Map<u64, BlockModel>,
    s: IssuanceReplay,
    line: Seq<char>,
) -> Result<IssuanceReplay, Seq<char>> {
    if !hex_valid(line) {
        Err(hex_error_text(line))
    } else {
        let b = hex_bytes(line);
        if !has_magic(b, issuance_magic()) {
            Err("invalid issuance magic"@)
        } else {
            match w_u64(b, issuance_magic().len() as int) {
                Err(_) => Err("invalid issuance record"@),
                Ok((h, q)) => match w_u128(b, q) {
                    Err(_) => Err("invalid issuance record"@),
                    Ok((issued, q)) => if issued > MAX_SUPPLY || q != b.len() {
                        Err("invalid issuance record"@)
                    } else if s.previous matches Some(p) && h < p {
                        Err("issuance height regression"@)
                    } else if s.previous matches Some(p) && h == p {
                        Err("conflicting issuance record at same height"@)
                    } else if !blocks.contains_key(h) {
                        Err("issuance record references missing block"@)
                    } else {
                        Ok(IssuanceReplay { previous: Some(h), latest: Some((h, issued)) })
                    },
                },
            }
        }
    }
}

pub open spec fn issuance_replay(blocks: Map<u64, BlockModel>, lines: Seq<Seq<char>>, n: nat) -> Result<
    IssuanceReplay,
    Seq<char>,
>
    decreases n,
{
    if n == 0 {
        Ok(IssuanceReplay { previous: None, latest: None })
    } else {
        match issuance_replay(blocks, lines, (n - 1) as nat) {
            Err(e) => Err(e),
            Ok(s) => if lines[n - 1].len() == 0 {
                Ok(s)
            } else {
                issuance_line_step(blocks, s, lines[n - 1])
            },
        }
    }
}

pub proof fn lemma_issuance_replay_err(
    blocks: Map<u64, BlockModel>,
    lines: Seq<Seq<char>>,
    i: nat,
    n: nat,
)
    requires
        i <= n,
        issuance_replay(blocks, lines, i) is Err,
    ensures
        issuance_replay(blocks, lines, n) == issuance_replay(blocks, lines, i),
    decreases n,
{
    if n > i {
        lemma_issuance_replay_err(blocks, lines, i, (n - 1) as nat);
    }
}

/// What recovering the issued supply gives: nothing without an issuance journal.
pub open spec fn recovered_issuance(s: StorageModel) -> Result<Option<(u64, u128)>, Seq<char>> {
    match s.issuance_journal {
        None => Ok(None),
        Some(lines) => match issuance_replay(s.blocks, lines, lines.len()) {
            Err(e) => Err(e),
            Ok(st) => Ok(st.latest),
        },
    }
}

/// Where a replay of the finality journal stands: the last marker.
pub struct FinalityReplay {
    pub latest: Option<(u64, Seq<u8>)>,
}

/// One non-empty line of the finality journal, the `n`-th: a marker of a canonical
/// block, never below the previous marker nor another block at its height.
#[verifier::opaque]
pub open spec fn finality_line_step(
    blocks: Map<u64, BlockModel>,
    s: FinalityReplay,
    line: Seq<char>,
    n: nat,
) -> Result<FinalityReplay, Seq<char>> {
    let label = line_label("finality journal "@, n);
    if !hex_valid(line) {
        Err(label + ": invalid hex: "@ + hex_error_text(line))
    } else {
        let b = hex_bytes(line);
        if !has_magic(b, finality_magic()) {
            Err(label + ": invalid magic"@)
        } else {
            match w_u64(b, finality_magic().len() as int) {
                Err(e) => Err(label + ": "@ + e),
                Ok((h, q)) => match crate::network::w_fixed(b, q, 32) {
                    Err(e) => Err(label + ": "@ + e),
                    Ok((id, q)) => if q != b.len() {
                        Err("trailing finality bytes"@)
                    } else if s.latest matches Some((p, _)) && h < p {
                        Err("finalized height regression"@)
                    } else if s.latest matches Some((p, pid)) && h == p && id != pid {
                        Err("conflicting finalized block at same height"@)
                    } else if !blocks.contains_key(h) {
                        Err("finality marker references missing block"@)
                    } else if blocks[h].id != id {
                        Err("finality marker does not match canonical block"@)
                    } else {
                        Ok(FinalityReplay { latest: Some((h, id)) })
                    },
                },
            }
        }
    }
}

pub open spec fn finality_replay(blocks: Map<u64, BlockModel>, lines: Seq<Seq<char>>, n: nat) -> Result<
    FinalityReplay,
    Seq<char>,
>
    decreases n,
{
    if n == 0 {
        Ok(FinalityReplay { latest: None })
    } else {
        match finality_replay(blocks, lines, (n - 1) as nat) {
            Err(e) => Err(e),
            Ok(s) => if lines[n - 1].len() == 0 {
                Ok(s)
            } else {
                finality_line_step(blocks, s, lines[n - 1], n)
            },
        }
    }
}

pub proof fn lemma_finality_replay_err(
    blocks: Map<u64, BlockModel>,
    lines: Seq<Seq<char>>,
    i: nat,
    n: nat,
)
    requires
        i <= n,
        finality_replay(blocks, lines, i) is Err,
    ensures
        finality_replay(blocks, lines, n) == finality_replay(blocks, lines, i),
    decreases n,
{
    if n > i {
        lemma_finality_replay_err(blocks, lines, i, (n - 1) as nat);
    }
}

/// What recovering the finality marker gives: nothing without a finality journal.
pub open spec fn recovered_finality(s: StorageModel) -> Result<Option<(u64, Seq<u8>)>, Seq<char>> {
    match s.finality_journal {
        None => Ok(None),
        Some(lines) => match finality_replay(s.blocks, lines, lines.len()) {
            Err(e) => Err(e),
            Ok(st) => Ok(st.latest),
        },
    }
}

/// One non-empty line of the slashing journal, the `n`-th: a slashing of a named
/// validator with a positive penalty, nothing trailing.
#[verifier::opaque]
pub open spec fn slashing_line_step(line: Seq<char>, n: nat) -> Result<
    (u64, Seq<char>, Seq<u8>, u64),
    Seq<char>,
> {
    let label = line_label("slashing journal "@, n);
    if !hex_valid(line) {
        Err(label + ": invalid hex: "@ + hex_error_text(line))
    } else {
        let b = hex_bytes(line);
        if !has_magic(b, slashing_magic()) {
            Err(label + ": invalid magic"@)
        } else {
            match w_u64(b, slashing_magic().len() as int) {
                Err(e) => Err(e),
                Ok((h, q)) => match crate::network::w_text(b, q, "invalid slashing validator"@) {
                    Err(e) => Err(e),
                    Ok((v, q)) => match crate::network::w_fixed(b, q, 32) {
                        Err(e) => Err(e),
                        Ok((id, q)) => match w_u64(b, q) {
                            Err(e) => Err(e),
                            Ok((penalty, q)) => if v.len() == 0 || penalty == 0 || q != b.len() {
                                Err("invalid slashing record"@)
                            } else {
                                Ok((h, v, id, penalty))
                            },
                        },
                    },
                },
            }
        }
    }
}

pub open spec fn slashing_replay(lines: Seq<Seq<char>>, n: nat) -> Result<
    Seq<(u64, Seq<char>, Seq<u8>, u64)>,
    Seq<char>,
>
    decreases n,
{
    if n == 0 {
        Ok(Seq::empty())
    } else {
        match slashing_replay(lines, (n - 1) as nat) {
            Err(e) => Err(e),
            Ok(s) => if lines[n - 1].len() == 0 {
                Ok(s)
            } else {
                match slashing_line_step(lines[n - 1], n) {
                    Err(e) => Err(e),
                    Ok(r) => Ok(s.push(r)),
                }
            },
        }
    }
}

pub proof fn lemma_slashing_replay_err(lines: Seq<Seq<char>>, i: nat, n: nat)
    requires
        i <= n,
        slashing_replay(lines, i) is Err,
    ensures
        slashing_replay(lines, n) == slashing_replay(lines, i),
    decreases n,
{
    if n > i {
        lemma_slashing_replay_err(lines, i, (n - 1) as nat);
    }
}

/// What recovering the slashing records gives: none without a slashing journal.
pub open spec fn recovered_slashing(s: StorageModel) -> Result<
    Seq<(u64, Seq<char>, Seq<u8>, u64)>,
    Seq<char>,
> {
    match s.slashing_journal {
        None => Ok(Seq::empty()),
        Some(lines) => slashing_replay(lines, lines.len()),
    }
}

/// A slashing record with its validator taken by its characters.
pub open spec fn slashing_view(r: (u64, String, [u8; 32], u64)) -> (u64, Seq<char>, Seq<u8>, u64) {
    (r.0, r.1@, r.2@, r.3)
}

impl ChainStorage {
    fn issuance_line(&self, s: &mut (Option<u64>, Option<(u64, u128)>), line: &str) -> (r: Result<(), String>)
        requires
            self.wf(),
        ensures
            match issuance_line_step(
                self@.blocks,
                IssuanceReplay { previous: old(s).0, latest: old(s).1 },
                line@,
            ) {
                Ok(st) => r is Ok && final(s).0 == st.previous && final(s).1 == st.latest,
                Err(e) => r matches Err(x) && x@ == e,
            },
    {
        reveal(issuance_line_step);
        let b = hex_decode(line)?;
        let magic = "ATCI1".as_bytes();
        if !starts_with(b.as_slice(), magic) {
            return Err("invalid issuance magic".to_string());
        }
        let mut q: usize = magic.len();
        let h = match read_u64(b.as_slice(), &mut q) {
            Ok(h) => h,
            Err(_) => return Err("invalid issuance record".to_string()),
        };
        let issued = match read_u128(b.as_slice(), &mut q) {
            Ok(v) => v,
            Err(_) => return Err("invalid issuance record".to_string()),
        };
        if issued > MAX_SUPPLY || q != b.len() {
            return Err("invalid issuance record".to_string());
        }
        match s.0 {
            Some(prev) => {
                if h < prev {
                    return Err("issuance height regression".to_string());
                }
                if h == prev {
                    return Err("conflicting issuance record at same height".to_string());
                }
            },
            None => {},
        }
        if !self.blocks.contains_key(&h) {
            return Err("issuance record references missing block".to_string());
        }
        s.0 = Some(h);
        s.1 = Some((h, issued));
        Ok(())
    }

    /// The latest durable issued supply with its height.
    pub fn recover_issuance(&self) -> (r: Result<Option<(u64, u128)>, String>)
        requires
            self.wf(),
        ensures
            match recovered_issuance(self@) {
                Ok(v) => r == Ok::<Option<(u64, u128)>, String>(v),
                Err(e) => r matches Err(x) && x@ == e,
            },
    {
        let lines = match &self.issuance_journal {
            Some(v) => v,
            None => return Ok(None),
        };
        let ghost texts = line_texts(lines@);
        assert(texts.len() == lines@.len());
        let mut st: (Option<u64>, Option<(u64, u128)>) = (None, None);
        let mut i: usize = 0;
        while i < lines.len()
            invariant
                self.wf(),
                self@.issuance_journal == Some(texts),
                texts == line_texts(lines@),
                texts.len() == lines@.len(),
                i <= lines@.len(),
                issuance_replay(self@.blocks, texts, i as nat) == Ok::<IssuanceReplay, Seq<char>>(
                    IssuanceReplay { previous: st.0, latest: st.1 },
                ),
            decreases lines@.len() - i,
        {
            let line = lines[i].as_str();
            assert(texts[i as int] == line@);
            if !line.is_empty() {
                let ghost pre = IssuanceReplay { previous: st.0, latest: st.1 };
                match self.issuance_line(&mut st, line) {
                    Ok(()) => {},
                    Err(e) => {
                        proof {
                            assert(issuance_replay(self@.blocks, texts, (i + 1) as nat)
                                == issuance_line_step(self@.blocks, pre, texts[i as int]));
                            lemma_issuance_replay_err(self@.blocks, texts, (i + 1) as nat, texts.len());
                        }
                        return Err(e);
                    },
                }
            }
            i = i + 1;
        }
        Ok(st.1)
    }

    fn append_issuance_record(&mut self, h: u64, issued: u128) -> (r: Result<(), String>)
        requires
            old(self).wf(),
        ensures
            final(self).wf(),
            old(self)@.issuance_journal is None ==> r is Ok && final(self)@ == old(self)@,
            old(self)@.issuance_journal is Some && issued > MAX_SUPPLY ==> (r matches Err(e) && e@
                == "issued supply cap exceeded"@) && final(self)@ == old(self)@,
            old(self)@.issuance_journal is Some && issued <= MAX_SUPPLY ==> r is Ok && final(self)@
                == (StorageModel {
                issuance_journal: appended(
                    old(self)@.issuance_journal,
                    hex_text(issuance_record(h, issued)),
                ),
                ..old(self)@
            }),
    {
        if self.issuance_journal.is_none() {
            return Ok(());
        }
        if issued > MAX_SUPPLY {
            return Err("issued supply cap exceeded".to_string());
        }
        let mut o: Vec<u8> = Vec::new();
        push_bytes(&mut o, "ATCI1".as_bytes());
        push_u64(&mut o, h);
        push_u128(&mut o, issued);
        assert(o@ =~= issuance_record(h, issued));
        let line = hex_encode(o.as_slice());
        push_line(&mut self.issuance_journal, line);
        Ok(())
    }

    /// Records the issued supply at a committed block.
    pub fn commit_issuance(&mut self, height: u64, issued_base_units: u128) -> (r: Result<(), String>)
        requires
            old(self).wf(),
        ensures
            final(self).wf(),
            !old(self)@.blocks.contains_key(height) ==> (r matches Err(e) && e@
                == "issuance record references missing block"@) && final(self)@ == old(self)@,
            old(self)@.blocks.contains_key(height) && old(self)@.issuance_journal is None ==> r is Ok
                && final(self)@ == old(self)@,
            old(self)@.blocks.contains_key(height) && old(self)@.issuance_journal is Some
                && issued_base_units > MAX_SUPPLY ==> (r matches Err(e) && e@
                == "issued supply cap exceeded"@) && final(self)@ == old(self)@,
            old(self)@.blocks.contains_key(height) && old(self)@.issuance_journal is Some
                && issued_base_units <= MAX_SUPPLY ==> r is Ok && final(self)@ == (StorageModel {
                issuance_journal: appended(
                    old(self)@.issuance_journal,
                    hex_text(issuance_record(height, issued_base_units)),
                ),
                ..old(self)@
            }),
    {
        if !self.blocks.contains_key(&height) {
            return Err("issuance record references missing block".to_string());
        }
        self.append_issuance_record(height, issued_base_units)
    }

    fn finality_line(&self, s: &mut Option<(u64, [u8; 32])>, line: &str, n: usize) -> (r: Result<(), String>)
        requires
            self.wf(),
        ensures
            match finality_line_step(
                self@.blocks,
                FinalityReplay { latest: crate::network::finalized_model(*old(s)) },
                line@,
                n as nat,
            ) {
                Ok(st) => r is Ok && crate::network::finalized_model(*final(s)) == st.latest,
                Err(e) => r matches Err(x) && x@ == e,
            },
    {
        reveal(finality_line_step);
        let label = line_label_text("finality journal ", n);
        let b = match hex_decode(line) {
            Ok(b) => b,
            Err(e) => return Err(labeled(&label, ": invalid hex: ", e.as_str())),
        };
        let magic = "ATCF1".as_bytes();
        if !starts_with(b.as_slice(), magic) {
            let mut m = label.clone();
            m.append(": invalid magic");
            return Err(m);
        }
        let mut q: usize = magic.len();
        let h = match read_u64(b.as_slice(), &mut q) {
            Ok(h) => h,
            Err(e) => return Err(labeled(&label, ": ", e.as_str())),
        };
        let id = match read_key(b.as_slice(), &mut q) {
            Ok(id) => id,
            Err(e) => return Err(labeled(&label, ": ", e.as_str())),
        };
        if q != b.len() {
            return Err("trailing finality bytes".to_string());
        }
        match s {
            Some((prev, prev_id)) => {
                if h < *prev {
                    return Err("finalized height regression".to_string());
                }
                if h == *prev && !bytes_equal(id.as_slice(), prev_id.as_slice()) {
                    return Err("conflicting finalized block at same height".to_string());
                }
            },
            None => {},
        }
        let canonical = match self.blocks.get(&h) {
            Some(c) => c,
            None => return Err("finality marker references missing block".to_string()),
        };
        if !bytes_equal(canonical.id.as_slice(), id.as_slice()) {
            return Err("finality marker does not match canonical block".to_string());
        }
        *s = Some((h, id));
        Ok(())
    }

    /// The latest durable finality marker.
    pub fn recover_finalized(&self) -> (r: Result<Option<(u64, [u8; 32])>, String>)
        requires
            self.wf(),
        ensures
            match recovered_finality(self@) {
                Ok(v) => r matches Ok(x) && crate::network::finalized_model(x) == v,
                Err(e) => r matches Err(x) && x@ == e,
            },
    {
        let lines = match &self.finality_journal {
            Some(v) => v,
            None => return Ok(None),
        };
        let ghost texts = line_texts(lines@);
        assert(texts.len() == lines@.len());
        let mut st: Option<(u64, [u8; 32])> = None;
        let mut i: usize = 0;
        while i < lines.len()
            invariant
                self.wf(),
                self@.finality_journal == Some(texts),
                texts == line_texts(lines@),
                texts.len() == lines@.len(),
                i <= lines@.len(),
                finality_replay(self@.blocks, texts, i as nat) == Ok::<FinalityReplay, Seq<char>>(
                    FinalityReplay { latest: crate::network::finalized_model(st) },
                ),
            decreases lines@.len() - i,
        {
            let line = lines[i].as_str();
            assert(texts[i as int] == line@);
            if !line.is_empty() {
                let ghost pre = FinalityReplay { latest: crate::network::finalized_model(st) };
                match self.finality_line(&mut st, line, i + 1) {
                    Ok(()) => {},
                    Err(e) => {
                        proof {
                            assert(finality_replay(self@.blocks, texts, (i + 1) as nat)
                                == finality_line_step(self@.blocks, pre, texts[i as int], (i + 1) as nat));
                            lemma_finality_replay_err(self@.blocks, texts, (i + 1) as nat, texts.len());
                        }
                        return Err(e);
                    },
                }
            }
            i = i + 1;
        }
        Ok(st)
    }

    /// Records that the canonical block at `height` is final. Finality never moves
    /// back, and a height is finalized at most once.
    pub fn commit_finalized(&mut self, height: u64, block: [u8; 32]) -> (r: Result<(), String>)
        requires
            old(self).wf(),
        ensures
            final(self).wf(),
            match finality_commit_check(old(self)@, height, block@) {
                Err(e) => (r matches Err(x) && x@ == e) && final(self)@ == old(self)@,
                Ok(false) => r is Ok && final(self)@ == old(self)@,
                Ok(true) => r is Ok && final(self)@ == (StorageModel {
                    finality_journal: appended(
                        old(self)@.finality_journal,
                        hex_text(finality_record(height, block@)),
                    ),
                    ..old(self)@
                }),
            },
    {
        let canonical = match self.blocks.get(&height) {
            Some(c) => c,
            None => return Err("finality marker references missing block".to_string()),
        };
        if !bytes_equal(canonical.id.as_slice(), block.as_slice()) {
            return Err("finality marker does not match canonical block".to_string());
        }
        match self.recover_finalized()? {
            Some((previous_height, previous_block)) => {
                if height < previous_height {
                    return Err("finalized height regression".to_string());
                }
                if height == previous_height {
                    if bytes_equal(block.as_slice(), previous_block.as_slice()) {
                        return Ok(());
                    }
                    return Err("conflicting finalized block at same height".to_string());
                }
            },
            None => {},
        }
        if self.finality_journal.is_none() {
            return Ok(());
        }
        let mut o: Vec<u8> = Vec::new();
        push_bytes(&mut o, "ATCF1".as_bytes());
        push_u64(&mut o, height);
        push_bytes(&mut o, block.as_slice());
        assert(o@ =~= finality_record(height, block@));
        let line = hex_encode(o.as_slice());
        push_line(&mut self.finality_journal, line);
        Ok(())
    }

    /// Records a slashing, where a slashing journal is kept.
    pub fn commit_slashing(
        &mut self,
        height: u64,
        validator: &str,
        evidence_id: [u8; 32],
        penalty: u64,
    ) -> (r: Result<(), String>)
        requires
            old(self).wf(),
        ensures
            final(self).wf(),
            r is Ok,
            final(self)@ == (StorageModel {
                slashing_journal: appended(
                    old(self)@.slashing_journal,
                    hex_text(slashing_record(height, validator@, evidence_id@, penalty)),
                ),
                ..old(self)@
            }),
    {
        if self.slashing_journal.is_none() {
            return Ok(());
        }
        let mut o: Vec<u8> = Vec::new();
        push_bytes(&mut o, "ATCS1".as_bytes());
        push_u64(&mut o, height);
        push_lp(&mut o, validator.as_bytes());
        push_bytes(&mut o, evidence_id.as_slice());
        push_u64(&mut o, penalty);
        assert(o@ =~= slashing_record(height, validator@, evidence_id@, penalty));
        let line = hex_encode(o.as_slice());
        push_line(&mut self.slashing_journal, line);
        Ok(())
    }

    fn slashing_line(line: &str, n: usize) -> (r: Result<(u64, String, [u8; 32], u64), String>)
        ensures
            match slashing_line_step(line@, n as nat) {
                Ok(v) => r matches Ok(x) && slashing_view(x) == v,
                Err(e) => r matches Err(x) && x@ == e,
            },
    {
        reveal(slashing_line_step);
        let label = line_label_text("slashing journal ", n);
        let b = match hex_decode(line) {
            Ok(b) => b,
            Err(e) => return Err(labeled(&label, ": invalid hex: ", e.as_str())),
        };
        let magic = "ATCS1".as_bytes();
        if !starts_with(b.as_slice(), magic) {
            let mut m = label.clone();
            m.append(": invalid magic");
            return Err(m);
        }
        let mut q: usize = magic.len();
        let h = read_u64(b.as_slice(), &mut q)?;
        let validator = read_text(b.as_slice(), &mut q, "invalid slashing validator")?;
        let id = read_key(b.as_slice(), &mut q)?;
        let penalty = read_u64(b.as_slice(), &mut q)?;
        if validator.as_str().is_empty() || penalty == 0 || q != b.len() {
            return Err("invalid slashing record".to_string());
        }
        Ok((h, validator, id, penalty))
    }

    /// Every durable slashing record, in journal order.
    pub fn recover_slashing(&self) -> (r: Result<Vec<(u64, String, [u8; 32], u64)>, String>)
        requires
            self.wf(),
        ensures
            match recovered_slashing(self@) {
                Ok(v) => r matches Ok(x) && x@.map_values(|e: (u64, String, [u8; 32], u64)| slashing_view(e)) == v,
                Err(e) => r matches Err(x) && x@ == e,
            },
    {
        let mut out: Vec<(u64, String, [u8; 32], u64)> = Vec::new();
        let lines = match &self.slashing_journal {
            Some(v) => v,
            None => {
                assert(out@.map_values(|e: (u64, String, [u8; 32], u64)| slashing_view(e)) =~= Seq::<(u64, Seq<char>, Seq<u8>, u64)>::empty());
                return Ok(out);
            },
        };
        let ghost texts = line_texts(lines@);
        assert(texts.len() == lines@.len());
        let mut i: usize = 0;
        assert(out@.map_values(|e: (u64, String, [u8; 32], u64)| slashing_view(e)) =~= Seq::<(u64, Seq<char>, Seq<u8>, u64)>::empty());
        while i < lines.len()
            invariant
                self@.slashing_journal == Some(texts),
                texts == line_texts(lines@),
                texts.len() == lines@.len(),
                i <= lines@.len(),
                slashing_replay(texts, i as nat) == Ok::<Seq<(u64, Seq<char>, Seq<u8>, u64)>, Seq<char>>(
                    out@.map_values(|e: (u64, String, [u8; 32], u64)| slashing_view(e)),
                ),
            decreases lines@.len() - i,
        {
            let line = lines[i].as_str();
            assert(texts[i as int] == line@);
            if !line.is_empty() {
                match Self::slashing_line(line, i + 1) {
                    Ok(rec) => {
                        let ghost before = out@.map_values(|e: (u64, String, [u8; 32], u64)| slashing_view(e));
                        let ghost rv = slashing_view(rec);
                        out.push(rec);
                        assert(out@.map_values(|e: (u64, String, [u8; 32], u64)| slashing_view(e)) =~= before.push(rv));
                    },
                    Err(e) => {
                        proof {
                            lemma_slashing_replay_err(texts, (i + 1) as nat, texts.len());
                        }
                        return Err(e);
                    },
                }
            }
            i = i + 1;
        }
        Ok(out)
    }
}

/// Whether a finality marker may be recorded: the block must be the canonical one at
/// its height, the durable markers must read back, and a new marker must not be below
/// the last; `Ok(false)` where the same marker is already the last.
pub open spec fn finality_commit_check(s: StorageModel, h: u64, id: Seq<u8>) -> Result<bool, Seq<char>> {
    if !s.blocks.contains_key(h) {
        Err("finality marker references missing block"@)
    } else if s.blocks[h].id != id {
        Err("finality marker does not match canonical block"@)
    } else {
        match recovered_finality(s) {
            Err(e) => Err(e),
            Ok(latest) => if latest matches Some((ph, _)) && h < ph {
                Err("finalized height regression"@)
            } else if latest matches Some((ph, _)) && h == ph {
                if id == latest->Some_0.1 {
                    Ok(false)
                } else {
                    Err("conflicting finalized block at same height"@)
                }
            } else {
                Ok(s.finality_journal is Some)
            },
        }
    }
}

// ---------------------------------------------------------------------------
// Validator snapshots
// ---------------------------------------------------------------------------

pub open spec fn validator_magic() -> Seq<u8> {
    utf8("ATCV2"@)
}

/// Tag of validator snapshots written before public keys were recorded.
pub open spec fn legacy_validator_magic() -> Seq<u8> {
    utf8("ATCV1"@)
}

/// Every validator has a key and there are as many keys as validators.
pub open spec fn validators_complete(validators: OrdMap<String, u64>, keys: OrdMap<String, [u8; 32]>) -> bool {
    validators@.len() == keys@.len() && forall|a: Seq<char>| #[trigger]
        validators@.contains_key(a) ==> keys@.contains_key(a)
}

/// The record of a validator snapshot: tag, activation height, count, and for each
/// validator in address order its address, stake and key.
pub open spec fn validator_record(
    h: u64,
    validators: OrdMap<String, u64>,
    keys: OrdMap<String, [u8; 32]>,
) -> Seq<u8> {
    validator_magic() + be64(h) + be32(validators@.len() as u32) + snapshot_entries_wire(
        validators.pairs(),
        keys@,
    )
}

/// The `n` entries of a validator record at `q`: valid keys, non-empty addresses,
/// positive stakes, no address twice.
pub open spec fn validator_entries_parse(b: Seq<u8>, q: int, n: nat) -> Result<
    (Seq<(Seq<char>, u64, Seq<u8>)>, int),
    Seq<char>,
>
    decreases n,
{
    if n == 0 {
        Ok((Seq::empty(), q))
    } else {
        match validator_entries_parse(b, q, (n - 1) as nat) {
            Err(e) => Err(e),
            Ok((es, q)) => match crate::network::w_text(b, q, "invalid validator address"@) {
                Err(e) => Err(e),
                Ok((address, q)) => match w_u64(b, q) {
                    Err(e) => Err(e),
                    Ok((stake, q)) => match crate::network::w_fixed(b, q, 32) {
                        Err(e) => Err(e),
                        Ok((key, q)) => if !ed25519_key_valid(key) {
                            Err("invalid validator public key"@)
                        } else if address.len() == 0 || stake == 0 {
                            Err("invalid validator record"@)
                        } else if entries_have(es, address) {
                            Err("duplicate validator record"@)
                        } else {
                            Ok((es.push((address, stake, key)), q))
                        },
                    },
                },
            },
        }
    }
}

proof fn lemma_validator_entries_err(b: Seq<u8>, q: int, i: nat, n: nat)
    requires
        i <= n,
        validator_entries_parse(b, q, i) is Err,
    ensures
        validator_entries_parse(b, q, n) == validator_entries_parse(b, q, i),
    decreases n,
{
    if n > i {
        lemma_validator_entries_err(b, q, i, (n - 1) as nat);
    }
}

/// The `n`-th line of the validator journal: a current snapshot record, its height and
/// entries; `legacy` is the refusal of a snapshot without keys.
#[verifier::opaque]
pub open spec fn validator_line_parse(line: Seq<char>, n: nat, legacy: Seq<char>) -> Result<
    (u64, Seq<(Seq<char>, u64, Seq<u8>)>),
    Seq<char>,
> {
    let label = line_label("validator journal "@, n);
    if !hex_valid(line) {
        Err(label + ": invalid hex: "@ + hex_error_text(line))
    } else {
        let b = hex_bytes(line);
        if has_magic(b, legacy_validator_magic()) {
            Err(label + legacy)
        } else if !has_magic(b, validator_magic()) {
            Err(label + ": invalid magic"@)
        } else {
            match w_u64(b, validator_magic().len() as int) {
                Err(e) => Err(e),
                Ok((h, q)) => match w_u32(b, q) {
                    Err(e) => Err(e),
                    Ok((count, q)) => match validator_entries_parse(b, q, count as nat) {
                        Err(e) => Err(e),
                        Ok((es, q)) => if q != b.len() {
                            Err("trailing validator bytes"@)
                        } else {
                            Ok((h, es))
                        },
                    },
                },
            }
        }
    }
}

/// Refusal of a keyless snapshot when recovering the latest validator set.
pub open spec fn legacy_latest_text() -> Seq<char> {
    ": legacy validator snapshot has no public keys;                      migration is required before restart"@
}

/// Refusal of a keyless snapshot when recovering the snapshot history.
pub open spec fn legacy_history_text() -> Seq<char> {
    ": legacy validator snapshot has no public keys; migration is required before restart"@
}

/// Stakes and keys of entries, by address.
pub open spec fn entry_records(es: Seq<(Seq<char>, u64, Seq<u8>)>) -> Map<Seq<char>, (u64, Seq<u8>)>
    decreases es.len(),
{
    if es.len() == 0 {
        Map::empty()
    } else {
        entry_records(es.drop_last()).insert(es.last().0, (es.last().1, es.last().2))
    }
}

/// The latest snapshot of the first `n` lines of the validator journal.
pub open spec fn validators_replay(lines: Seq<Seq<char>>, n: nat) -> Result<
    Option<(u64, Map<Seq<char>, (u64, Seq<u8>)>)>,
    Seq<char>,
>
    decreases n,
{
    if n == 0 {
        Ok(None)
    } else {
        match validators_replay(lines, (n - 1) as nat) {
            Err(e) => Err(e),
            Ok(s) => if lines[n - 1].len() == 0 {
                Ok(s)
            } else {
                match validator_line_parse(lines[n - 1], n, legacy_latest_text()) {
                    Err(e) => Err(e),
                    Ok((h, es)) => Ok(Some((h, entry_records(es)))),
                }
            },
        }
    }
}

pub proof fn lemma_validators_replay_err(lines: Seq<Seq<char>>, i: nat, n: nat)
    requires
        i <= n,
        validators_replay(lines, i) is Err,
    ensures
        validators_replay(lines, n) == validators_replay(lines, i),
    decreases n,
{
    if n > i {
        lemma_validators_replay_err(lines, i, (n - 1) as nat);
    }
}

/// Validator snapshots by activation height, and the height of the latest one.
pub struct SnapshotHistory {
    pub snapshots: Map<u64, (Map<Seq<char>, u64>, Map<Seq<char>, Seq<u8>>)>,
    pub last: Option<u64>,
}

/// The snapshot history of the first `n` lines of the validator journal: a snapshot
/// may not activate below the latest one; a later one at the same height replaces it.
pub open spec fn history_replay(lines: Seq<Seq<char>>, n: nat) -> Result<SnapshotHistory, Seq<char>>
    decreases n,
{
    if n == 0 {
        Ok(SnapshotHistory { snapshots: Map::empty(), last: None })
    } else {
        match history_replay(lines, (n - 1) as nat) {
            Err(e) => Err(e),
            Ok(s) => if lines[n - 1].len() == 0 {
                Ok(s)
            } else {
                match validator_line_parse(lines[n - 1], n, legacy_history_text()) {
                    Err(e) => Err(e),
                    Ok((h, es)) => if s.last matches Some(l) && h < l {
                        Err("validator snapshot height regressed"@)
                    } else {
                        Ok(
                            SnapshotHistory {
                                snapshots: s.snapshots.insert(h, (entry_stakes(es), entry_keys(es))),
                                last: Some(h),
                            },
                        )
                    },
                }
            },
        }
    }
}

pub proof fn lemma_history_replay_err(lines: Seq<Seq<char>>, i: nat, n: nat)
    requires
        i <= n,
        history_replay(lines, i) is Err,
    ensures
        history_replay(lines, n) == history_replay(lines, i),
    decreases n,
{
    if n > i {
        lemma_history_replay_err(lines, i, (n - 1) as nat);
    }
}

/// What recovering the latest validator snapshot gives: nothing without a journal.
pub open spec fn recovered_validators(s: StorageModel) -> Result<
    Option<(u64, Map<Seq<char>, (u64, Seq<u8>)>)>,
    Seq<char>,
> {
    match s.validator_journal {
        None => Ok(None),
        Some(lines) => validators_replay(lines, lines.len()),
    }
}

/// What recovering the validator snapshot history gives: none without a journal.
pub open spec fn recovered_history(s: StorageModel) -> Result<
    Map<u64, (Map<Seq<char>, u64>, Map<Seq<char>, Seq<u8>>)>,
    Seq<char>,
> {
    match s.validator_journal {
        None => Ok(Map::empty()),
        Some(lines) => match history_replay(lines, lines.len()) {
            Err(e) => Err(e),
            Ok(h) => Ok(h.snapshots),
        },
    }
}

pub open spec fn records_view(m: OrdMap<String, (u64, [u8; 32])>) -> Map<Seq<char>, (u64, Seq<u8>)> {
    m@.map_values(|v: (u64, [u8; 32])| (v.0, v.1@))
}

pub open spec fn latest_view(o: Option<(u64, OrdMap<String, (u64, [u8; 32])>)>) -> Option<
    (u64, Map<Seq<char>, (u64, Seq<u8>)>),
> {
    match o {
        Some((h, m)) => Some((h, records_view(m))),
        None => None,
    }
}

pub open spec fn history_view(
    m: OrdMap<u64, (OrdMap<String, u64>, OrdMap<String, [u8; 32]>)>,
) -> Map<u64, (Map<Seq<char>, u64>, Map<Seq<char>, Seq<u8>>)> {
    m@.map_values(|v: (OrdMap<String, u64>, OrdMap<String, [u8; 32]>)| (v.0@, key_bytes(v.1@)))
}

/// Reads the entries of a validator record into stake and key maps, and into one map
/// of both.
fn read_validator_entries(b: &[u8], p: &mut usize, n: u32) -> (r: Result<
    (OrdMap<String, u64>, OrdMap<String, [u8; 32]>, OrdMap<String, (u64, [u8; 32])>),
    String,
>)
    ensures
        match validator_entries_parse(b@, *old(p) as int, n as nat) {
            Ok((es, q)) => r matches Ok((v, k, both)) && v.wf() && k.wf() && both.wf() && v@
                == entry_stakes(es) && key_bytes(k@) == entry_keys(es) && records_view(both)
                == entry_records(es) && *final(p) == q,
            Err(e) => r matches Err(x) && x@ == e,
        },
{
    let ghost p0 = *p as int;
    let mut validators: OrdMap<String, u64> = OrdMap::new();
    let mut keys: OrdMap<String, [u8; 32]> = OrdMap::new();
    let mut both: OrdMap<String, (u64, [u8; 32])> = OrdMap::new();
    let ghost mut es: Seq<(Seq<char>, u64, Seq<u8>)> = Seq::empty();
    let mut i: u32 = 0;
    assert(key_bytes(keys@) =~= entry_keys(es));
    assert(records_view(both) =~= entry_records(es));
    while i < n
        invariant
            i <= n,
            p0 == *old(p) as int,
            validators.wf(),
            keys.wf(),
            both.wf(),
            validator_entries_parse(b@, p0, i as nat) == Ok::<
                (Seq<(Seq<char>, u64, Seq<u8>)>, int),
                Seq<char>,
            >((es, *p as int)),
            validators@ == entry_stakes(es),
            key_bytes(keys@) == entry_keys(es),
            records_view(both) == entry_records(es),
            forall|a: Seq<char>| validators@.contains_key(a) <==> entries_have(es, a),
        decreases n - i,
    {
        let address = match read_text(b, p, "invalid validator address") {
            Ok(a) => a,
            Err(e) => {
                proof {
                    lemma_validator_entries_err(b@, p0, (i + 1) as nat, n as nat);
                }
                return Err(e);
            },
        };
        let stake = match read_u64(b, p) {
            Ok(s) => s,
            Err(e) => {
                proof {
                    lemma_validator_entries_err(b@, p0, (i + 1) as nat, n as nat);
                }
                return Err(e);
            },
        };
        let key = match read_key(b, p) {
            Ok(k) => k,
            Err(e) => {
                proof {
                    lemma_validator_entries_err(b@, p0, (i + 1) as nat, n as nat);
                }
                return Err(e);
            },
        };
        if !ed25519_key_is_valid(&key) {
            proof {
                lemma_validator_entries_err(b@, p0, (i + 1) as nat, n as nat);
            }
            return Err("invalid validator public key".to_string());
        }
        if address.as_str().is_empty() || stake == 0 {
            proof {
                lemma_validator_entries_err(b@, p0, (i + 1) as nat, n as nat);
            }
            return Err("invalid validator record".to_string());
        }
        if validators.contains_key(&address) {
            proof {
                lemma_validator_entries_err(b@, p0, (i + 1) as nat, n as nat);
            }
            return Err("duplicate validator record".to_string());
        }
        let ghost entry = (address@, stake, key@);
        validators.insert(address.clone(), stake);
        keys.insert(address.clone(), key);
        both.insert(address, (stake, key));
        proof {
            let old_es = es;
            es = es.push(entry);
            assert(es.drop_last() =~= old_es);
            assert(key_bytes(keys@) =~= entry_keys(es));
            assert(records_view(both) =~= entry_records(es));
            assert forall|a: Seq<char>| validators@.contains_key(a) <==> entries_have(es, a) by {
                if entries_have(old_es, a) {
                    let j = choose|j: int| 0 <= j < old_es.len() && (#[trigger] old_es[j]).0 == a;
                    assert(es[j] == old_es[j]);
                }
                if a == entry.0 {
                    assert(es[old_es.len() as int] == entry);
                }
                if entries_have(es, a) && a != entry.0 {
                    let j = choose|j: int| 0 <= j < es.len() && (#[trigger] es[j]).0 == a;
                    assert(j < old_es.len());
                    assert(old_es[j] == es[j]);
                }
            }
        }
        i = i + 1;
    }
    Ok((validators, keys, both))
}

/// Reads the `n`-th line of the validator journal.
fn validator_line(line: &str, n: usize, legacy: &str) -> (r: Result<
    (u64, OrdMap<String, u64>, OrdMap<String, [u8; 32]>, OrdMap<String, (u64, [u8; 32])>),
    String,
>)
    ensures
        match validator_line_parse(line@, n as nat, legacy@) {
            Ok((h, es)) => r matches Ok((h2, v, k, both)) && h2 == h && v.wf() && k.wf()
                && both.wf() && v@ == entry_stakes(es) && key_bytes(k@) == entry_keys(es)
                && records_view(both) == entry_records(es),
            Err(e) => r matches Err(x) && x@ == e,
        },
{
    reveal(validator_line_parse);
    let label = line_label_text("validator journal ", n);
    let b = match hex_decode(line) {
        Ok(b) => b,
        Err(e) => return Err(labeled(&label, ": invalid hex: ", e.as_str())),
    };
    if starts_with(b.as_slice(), "ATCV1".as_bytes()) {
        let mut m = label.clone();
        m.append(legacy);
        return Err(m);
    }
    let magic = "ATCV2".as_bytes();
    if !starts_with(b.as_slice(), magic) {
        let mut m = label.clone();
        m.append(": invalid magic");
        return Err(m);
    }
    let mut q: usize = magic.len();
    let h = read_u64(b.as_slice(), &mut q)?;
    let count = read_u32(b.as_slice(), &mut q)?;
    let (v, k, both) = read_validator_entries(b.as_slice(), &mut q, count)?;
    if q != b.len() {
        return Err("trailing validator bytes".to_string());
    }
    Ok((h, v, k, both))
}

/// Checks that every validator has a key and there are as many keys as validators.
fn check_complete(validators: &OrdMap<String, u64>, keys: &OrdMap<String, [u8; 32]>) -> (r: bool)
    requires
        validators.wf(),
        keys.wf(),
    ensures
        r == validators_complete(*validators, *keys),
{
    if validators.len() != keys.len() {
        return false;
    }
    let n = validators.len();
    let mut i: usize = 0;
    while i < n
        invariant
            validators.wf(),
            keys.wf(),
            n == validators.pairs().len(),
            i <= n,
            forall|j: int| 0 <= j < i ==> keys@.contains_key(#[trigger] validators.pairs()[j].0),
        decreases n - i,
    {
        if !keys.contains_key(validators.key_at(i)) {
            proof {
                validators.lemma_entry(i as int);
            }
            return false;
        }
        i = i + 1;
    }
    proof {
        assert forall|a: Seq<char>| #[trigger] validators@.contains_key(a) implies keys@.contains_key(a) by {
            validators.lemma_dom(a);
            let j = choose|j: int| 0 <= j < validators.pairs().len() && (#[trigger] validators.pairs()[j]).0 == a;
            assert(keys@.contains_key(validators.pairs()[j].0));
        }
    }
    true
}

/// The record of a complete validator snapshot.
fn validator_record_encode(
    h: u64,
    validators: &OrdMap<String, u64>,
    keys: &OrdMap<String, [u8; 32]>,
) -> (o: Vec<u8>)
    requires
        validators.wf(),
        keys.wf(),
        validators_complete(*validators, *keys),
    ensures
        o@ == validator_record(h, *validators, *keys),
{
    let mut o: Vec<u8> = Vec::new();
    push_bytes(&mut o, "ATCV2".as_bytes());
    let ghost o0 = o@;
    let ghost pairs = validators.pairs();
    let n = validators.len();
    push_u64(&mut o, h);
    push_u32(&mut o, n as u32);
    let ghost mid = o@;
    let mut i: usize = 0;
    assert(pairs.take(0) =~= Seq::<(Seq<char>, u64)>::empty());
    while i < n
        invariant
            validators.wf(),
            keys.wf(),
            validators_complete(*validators, *keys),
            pairs == validators.pairs(),
            n == pairs.len(),
            i <= n,
            o@ == mid + snapshot_entries_wire(pairs.take(i as int), keys@),
        decreases n - i,
    {
        let address = validators.key_at(i);
        let stake = *validators.value_at(i);
        proof {
            validators.lemma_entry(i as int);
        }
        let key = match keys.get(address) {
            Some(k) => *k,
            None => {
                assert(false);
                [0u8; 32]
            },
        };
        push_lp(&mut o, address.as_str().as_bytes());
        push_u64(&mut o, stake);
        push_bytes(&mut o, key.as_slice());
        proof {
            assert(pairs.take(i + 1).drop_last() =~= pairs.take(i as int));
            assert(pairs.take(i + 1).last() == pairs[i as int]);
        }
        i = i + 1;
    }
    assert(pairs.take(n as int) =~= pairs);
    assert(o@ =~= validator_record(h, *validators, *keys));
    o
}

impl ChainStorage {
    /// Records a complete validator snapshot activating at `height`: every validator
    /// needs a key.
    pub fn commit_validators(
        &mut self,
        height: u64,
        validators: &OrdMap<String, u64>,
        validator_keys: &OrdMap<String, [u8; 32]>,
    ) -> (r: Result<(), String>)
        requires
            old(self).wf(),
            validators.wf(),
            validator_keys.wf(),
        ensures
            final(self).wf(),
            !validators_complete(*validators, *validator_keys) ==> (r matches Err(e) && e@
                == "validator snapshot is incomplete: every validator needs a public key"@)
                && final(self)@ == old(self)@,
            validators_complete(*validators, *validator_keys) ==> r is Ok && final(self)@
                == (StorageModel {
                validator_journal: appended(
                    old(self)@.validator_journal,
                    hex_text(validator_record(height, *validators, *validator_keys)),
                ),
                ..old(self)@
            }),
    {
        if !check_complete(validators, validator_keys) {
            return Err(
                "validator snapshot is incomplete: every validator needs a public key".to_string(),
            );
        }
        if self.validator_journal.is_none() {
            return Ok(());
        }
        let line = hex_encode(validator_record_encode(height, validators, validator_keys).as_slice());
        push_line(&mut self.validator_journal, line);
        Ok(())
    }

    /// The latest durable validator snapshot: its activation height and each
    /// validator's stake and key.
    pub fn recover_validators(&self) -> (r: Result<Option<(u64, OrdMap<String, (u64, [u8; 32])>)>, String>)
        requires
            self.wf(),
        ensures
            match recovered_validators(self@) {
                Ok(v) => r matches Ok(x) && latest_view(x) == v && (x matches Some((_, m)) ==> m.wf()),
                Err(e) => r matches Err(x) && x@ == e,
            },
    {
        let lines = match &self.validator_journal {
            Some(v) => v,
            None => return Ok(None),
        };
        let ghost texts = line_texts(lines@);
        assert(texts.len() == lines@.len());
        let mut latest: Option<(u64, OrdMap<String, (u64, [u8; 32])>)> = None;
        let mut i: usize = 0;
        while i < lines.len()
            invariant
                self@.validator_journal == Some(texts),
                texts == line_texts(lines@),
                texts.len() == lines@.len(),
                i <= lines@.len(),
                validators_replay(texts, i as nat) == Ok::<
                    Option<(u64, Map<Seq<char>, (u64, Seq<u8>)>)>,
                    Seq<char>,
                >(latest_view(latest)),
                latest matches Some((_, m)) ==> m.wf(),
            decreases lines@.len() - i,
        {
            let line = lines[i].as_str();
            assert(texts[i as int] == line@);
            if !line.is_empty() {
                let legacy = ": legacy validator snapshot has no public keys;                      migration is required before restart";
                match validator_line(line, i + 1, legacy) {
                    Ok((h, _, _, both)) => {
                        latest = Some((h, both));
                    },
                    Err(e) => {
                        proof {
                            lemma_validators_replay_err(texts, (i + 1) as nat, texts.len());
                        }
                        return Err(e);
                    },
                }
            }
            i = i + 1;
        }
        Ok(latest)
    }

    /// Every durable validator snapshot by activation height; snapshots may not
    /// regress in height, and the latest revision at a height wins.
    pub fn recover_validator_snapshots(&self) -> (r: Result<
        OrdMap<u64, (OrdMap<String, u64>, OrdMap<String, [u8; 32]>)>,
        String,
    >)
        requires
            self.wf(),
        ensures
            match recovered_history(self@) {
                Ok(v) => r matches Ok(x) && x.wf() && history_view(x) == v && forall|h: u64| #[trigger]
                    x@.contains_key(h) ==> x@[h].0.wf() && x@[h].1.wf(),
                Err(e) => r matches Err(x) && x@ == e,
            },
    {
        let mut snapshots: OrdMap<u64, (OrdMap<String, u64>, OrdMap<String, [u8; 32]>)> = OrdMap::new();
        assert(history_view(snapshots) =~= Map::<u64, (Map<Seq<char>, u64>, Map<Seq<char>, Seq<u8>>)>::empty());
        let lines = match &self.validator_journal {
            Some(v) => v,
            None => return Ok(snapshots),
        };
        let ghost texts = line_texts(lines@);
        assert(texts.len() == lines@.len());
        let mut last: Option<u64> = None;
        let mut i: usize = 0;
        while i < lines.len()
            invariant
                self@.validator_journal == Some(texts),
                texts == line_texts(lines@),
                texts.len() == lines@.len(),
                i <= lines@.len(),
                snapshots.wf(),
                forall|h: u64| #[trigger]
                    snapshots@.contains_key(h) ==> snapshots@[h].0.wf() && snapshots@[h].1.wf(),
                history_replay(texts, i as nat) == Ok::<SnapshotHistory, Seq<char>>(
                    SnapshotHistory { snapshots: history_view(snapshots), last },
                ),
            decreases lines@.len() - i,
        {
            let line = lines[i].as_str();
            assert(texts[i as int] == line@);
            if !line.is_empty() {
                let legacy = ": legacy validator snapshot has no public keys; migration is required before restart";
                match validator_line(line, i + 1, legacy) {
                    Ok((h, v, k, _)) => {
                        match last {
                            Some(l) => {
                                if h < l {
                                    proof {
                                        lemma_history_replay_err(texts, (i + 1) as nat, texts.len());
                                    }
                                    return Err("validator snapshot height regressed".to_string());
                                }
                            },
                            None => {},
                        }
                        let ghost before = history_view(snapshots);
                        let ghost vv = (v@, key_bytes(k@));
                        snapshots.insert(h, (v, k));
                        assert(history_view(snapshots) =~= before.insert(h, vv));
                        last = Some(h);
                    },
                    Err(e) => {
                        proof {
                            lemma_history_replay_err(texts, (i + 1) as nat, texts.len());
                        }
                        return Err(e);
                    },
                }
            }
            i = i + 1;
        }
        Ok(snapshots)
    }

    /// Records a validator snapshot and reads back the latest one, as a restart would.
    pub fn validator_snapshot_round_trip_for_restart(
        &mut self,
        height: u64,
        validators: &OrdMap<String, u64>,
        validator_keys: &OrdMap<String, [u8; 32]>,
    ) -> (r: Result<Option<(u64, OrdMap<String, (u64, [u8; 32])>)>, String>)
        requires
            old(self).wf(),
            validators.wf(),
            validator_keys.wf(),
        ensures
            final(self).wf(),
            !validators_complete(*validators, *validator_keys) ==> (r matches Err(e) && e@
                == "validator snapshot is incomplete: every validator needs a public key"@)
                && final(self)@ == old(self)@,
            validators_complete(*validators, *validator_keys) ==> final(self)@ == (StorageModel {
                validator_journal: appended(
                    old(self)@.validator_journal,
                    hex_text(validator_record(height, *validators, *validator_keys)),
                ),
                ..old(self)@
            }) && match recovered_validators(final(self)@) {
                Ok(v) => r matches Ok(x) && latest_view(x) == v,
                Err(e) => r matches Err(x) && x@ == e,
            },
    {
        self.commit_validators(height, validators, validator_keys)?;
        self.recover_validators()
    }
}

// ---------------------------------------------------------------------------
// Committing a block with its state
// ---------------------------------------------------------------------------

/// The storage after a block is committed with its state and issued supply: the state
/// snapshot and the issuance record are written before the block record, which is the
/// durable commit point.
pub open spec fn with_block_state(
    s: StorageModel,
    b: BlockModel,
    pairs: Seq<(Seq<char>, Account)>,
    dao: Seq<u8>,
    issued: u128,
) -> StorageModel {
    with_block(
        StorageModel {
            state_journal: appended(s.state_journal, hex_text(state_record(b.height, pairs, dao))),
            issuance_journal: appended(
                s.issuance_journal,
                hex_text(issuance_record(b.height, issued)),
            ),
            ..s
        },
        b,
    )
}

/// Replaying an issuance journal is not changed by more stored blocks, once it
/// succeeds, nor by lines added after the replayed ones.
proof fn lemma_issuance_replay_extends(
    blocks: Map<u64, BlockModel>,
    blocks2: Map<u64, BlockModel>,
    lines: Seq<Seq<char>>,
    lines2: Seq<Seq<char>>,
    n: nat,
)
    requires
        n <= lines.len(),
        n <= lines2.len(),
        forall|i: int| 0 <= i < n ==> lines2[i] == lines[i],
        forall|h: u64| #[trigger] blocks.contains_key(h) ==> blocks2.contains_key(h),
        issuance_replay(blocks, lines, n) is Ok,
    ensures
        issuance_replay(blocks2, lines2, n) == issuance_replay(blocks, lines, n),
        issuance_replay(blocks, lines, n)->Ok_0.previous matches Some(p) ==> blocks.contains_key(p),
    decreases n,
{
    if n > 0 {
        lemma_issuance_replay_extends(blocks, blocks2, lines, lines2, (n - 1) as nat);
        reveal(issuance_line_step);
    }
}

/// An issuance record within the supply cap reads back as the height and supply it
/// was written from.
proof fn lemma_issuance_record_roundtrip(h: u64, issued: u128)
    requires
        issued <= MAX_SUPPLY,
    ensures
        has_magic(issuance_record(h, issued), issuance_magic()),
        w_u64(issuance_record(h, issued), issuance_magic().len() as int) == Ok::<(u64, int), Seq<char>>(
            (h, issuance_magic().len() + 8int),
        ),
        w_u128(issuance_record(h, issued), issuance_magic().len() + 8int) == Ok::<(u128, int), Seq<char>>(
            (issued, issuance_record(h, issued).len() as int),
        ),
{
    broadcast use crate::codec::lemma_be_length;

    let b = issuance_record(h, issued);
    let mg = issuance_magic();
    let x1 = mg + be64(h);
    lemma_holds_at_whole(b);
    lemma_holds_at_split(b, 0, x1, be128(issued));
    lemma_holds_at_split(b, 0, mg, be64(h));
    lemma_holds_at_start(b, mg);
    crate::network::lemma_w_u64_at(b, mg.len() as int, h);
    crate::codec::lemma_pow256_small();
    crate::codec::lemma_sp_num_at(b, mg.len() + 8int, issued as nat, 16);
}

/// Restart recovery gives back what a block commit wrote: where the state and
/// issuance journals replay and the block stands above every stored block, committing
/// it with the state after it and the issued supply makes recovery read back exactly
/// that state and supply, at the block's height.
pub proof fn law_commit_state_recoverable(
    s: StorageModel,
    b: BlockModel,
    pairs: Seq<(Seq<char>, Account)>,
    dao: Seq<u8>,
    issued: u128,
)
    requires
        s.state_journal is Some,
        s.issuance_journal is Some,
        recovered_state(s) is Ok,
        recovered_issuance(s) is Ok,
        forall|h: u64| #[trigger] s.blocks.contains_key(h) ==> h < b.height,
        state_fields_ready(pairs, dao),
        issued <= MAX_SUPPLY,
    ensures
        recovered_state(with_block_state(s, b, pairs, dao, issued)) == Ok::<
            Option<(u64, Map<Seq<char>, Account>, Seq<u8>)>,
            Seq<char>,
        >(Some((b.height, crate::ordmap::map_of(pairs), dao))),
        recovered_issuance(with_block_state(s, b, pairs, dao, issued)) == Ok::<
            Option<(u64, u128)>,
            Seq<char>,
        >(Some((b.height, issued))),
{
    lemma_state_after_commit(s, b, pairs, dao, issued);
    lemma_issuance_after_commit(s, b, pairs, dao, issued);
}

proof fn lemma_state_after_commit(
    s: StorageModel,
    b: BlockModel,
    pairs: Seq<(Seq<char>, Account)>,
    dao: Seq<u8>,
    issued: u128,
)
    requires
        s.state_journal is Some,
        recovered_state(s) is Ok,
        forall|h: u64| #[trigger] s.blocks.contains_key(h) ==> h < b.height,
        state_fields_ready(pairs, dao),
    ensures
        recovered_state(with_block_state(s, b, pairs, dao, issued)) == Ok::<
            Option<(u64, Map<Seq<char>, Account>, Seq<u8>)>,
            Seq<char>,
        >(Some((b.height, crate::ordmap::map_of(pairs), dao))),
{
    let s2 = with_block_state(s, b, pairs, dao, issued);
    let blocks2 = s2.blocks;
    assert(blocks2 == s.blocks.insert(b.height, b));
    let lines = s.state_journal->Some_0;
    let n = lines.len();
    let rec = state_record(b.height, pairs, dao);
    let line = hex_text(rec);
    let lines2 = lines.push(line);
    assert(s2.state_journal == Some(lines2));
    lemma_state_replay_extends(s.blocks, blocks2, lines, lines2, n);
    lemma_hex_roundtrip(rec);
    lemma_state_record_roundtrip(b.height, pairs, dao);
    assert(lines2[n as int] == line);
    assert(rec.len() > 0) by {
        broadcast use crate::codec::lemma_be_length;

    }
    let st = state_replay(s.blocks, lines, n)->Ok_0;
    assert(state_line_step(blocks2, st, line) == Ok::<StateReplay, Seq<char>>(
        StateReplay { previous: Some(b.height), latest: Some((b.height, crate::ordmap::map_of(pairs), dao)) },
    )) by {
        reveal(state_line_step);
    }
}

proof fn lemma_issuance_after_commit(
    s: StorageModel,
    b: BlockModel,
    pairs: Seq<(Seq<char>, Account)>,
    dao: Seq<u8>,
    issued: u128,
)
    requires
        s.issuance_journal is Some,
        recovered_issuance(s) is Ok,
        forall|h: u64| #[trigger] s.blocks.contains_key(h) ==> h < b.height,
        issued <= MAX_SUPPLY,
    ensures
        recovered_issuance(with_block_state(s, b, pairs, dao, issued)) == Ok::<
            Option<(u64, u128)>,
            Seq<char>,
        >(Some((b.height, issued))),
{
    let s2 = with_block_state(s, b, pairs, dao, issued);
    let blocks2 = s2.blocks;
    assert(blocks2 == s.blocks.insert(b.height, b));
    let ilines = s.issuance_journal->Some_0;
    let m = ilines.len();
    let rec = issuance_record(b.height, issued);
    let iline = hex_text(rec);
    let ilines2 = ilines.push(iline);
    assert(s2.issuance_journal == Some(ilines2));
    lemma_issuance_replay_extends(s.blocks, blocks2, ilines, ilines2, m);
    lemma_hex_roundtrip(rec);
    lemma_issuance_record_roundtrip(b.height, issued);
    assert(ilines2[m as int] == iline);
    assert(rec.len() > 0) by {
        broadcast use crate::codec::lemma_be_length;

    }
    let st = issuance_replay(s.blocks, ilines, m)->Ok_0;
    assert(issuance_line_step(blocks2, st, iline) == Ok::<IssuanceReplay, Seq<char>>(
        IssuanceReplay { previous: Some(b.height), latest: Some((b.height, issued)) },
    )) by {
        reveal(issuance_line_step);
    }
}

impl ChainStorage {
    /// Commits a block together with the state after it and the issued supply, as one
    /// ordered durable step; the same block again changes nothing.
    pub fn commit_block_state_issuance(
        &mut self,
        block: Block,
        state: &OrdMap<String, Account>,
        dao: &[u8],
        issued_base_units: u128,
    ) -> (r: Result<(), String>)
        requires
            old(self).wf(),
            state.wf(),
        ensures
            final(self).wf(),
            issued_base_units > MAX_SUPPLY ==> (r matches Err(e) && e@
                == "issued supply cap exceeded"@) && final(self)@ == old(self)@,
            issued_base_units <= MAX_SUPPLY ==> match commit_check(old(self)@.blocks, block@) {
                Err(e) => (r matches Err(x) && x@ == e) && final(self)@ == old(self)@,
                Ok(false) => r is Ok && final(self)@ == old(self)@,
                Ok(true) => r is Ok && final(self)@ == with_block_state(
                    old(self)@,
                    block@,
                    state.pairs(),
                    dao@,
                    issued_base_units,
                ),
            },
    {
        if issued_base_units > MAX_SUPPLY {
            return Err("issued supply cap exceeded".to_string());
        }
        match self.check_commit(&block) {
            Err(e) => return Err(e),
            Ok(false) => return Ok(()),
            Ok(true) => {},
        }
        self.append_state_snapshot(block.height, state, dao);
        let _ = self.append_issuance_record(block.height, issued_base_units);
        self.append_block_record(block);
        Ok(())
    }

    /// Commits a block with its state, issued supply and the validator snapshot it
    /// brings, written before the block record; the same block again changes nothing.
    pub fn commit_block_state_issuance_with_validator_snapshot(
        &mut self,
        block: Block,
        state: &OrdMap<String, Account>,
        dao: &[u8],
        issued_base_units: u128,
        activation_height: u64,
        validators: &OrdMap<String, u64>,
        validator_keys: &OrdMap<String, [u8; 32]>,
    ) -> (r: Result<(), String>)
        requires
            old(self).wf(),
            state.wf(),
            validators.wf(),
            validator_keys.wf(),
        ensures
            final(self).wf(),
            !validators_complete(*validators, *validator_keys) ==> (r matches Err(e) && e@
                == "validator snapshot is incomplete"@) && final(self)@ == old(self)@,
            validators_complete(*validators, *validator_keys) && activation_height > block.height
                ==> (r matches Err(e) && e@
                == "validator snapshot activates after synchronized block"@) && final(self)@
                == old(self)@,
            validators_complete(*validators, *validator_keys) && activation_height <= block.height
                ==> match commit_check(old(self)@.blocks, block@) {
                Err(e) => (r matches Err(x) && x@ == e) && final(self)@ == old(self)@,
                Ok(false) => r is Ok && final(self)@ == old(self)@,
                Ok(true) => if issued_base_units > MAX_SUPPLY {
                    (r matches Err(e) && e@ == "issued supply cap exceeded"@) && final(self)@
                        == old(self)@
                } else {
                    r is Ok && final(self)@ == with_block(
                        StorageModel {
                            state_journal: appended(
                                old(self)@.state_journal,
                                hex_text(state_record(block.height, state.pairs(), dao@)),
                            ),
                            issuance_journal: appended(
                                old(self)@.issuance_journal,
                                hex_text(issuance_record(block.height, issued_base_units)),
                            ),
                            validator_journal: appended(
                                old(self)@.validator_journal,
                                hex_text(
                                    validator_record(activation_height, *validators, *validator_keys),
                                ),
                            ),
                            ..old(self)@
                        },
                        block@,
                    )
                },
            },
    {
        if !check_complete(validators, validator_keys) {
            return Err("validator snapshot is incomplete".to_string());
        }
        if activation_height > block.height {
            return Err("validator snapshot activates after synchronized block".to_string());
        }
        match self.check_commit(&block) {
            Err(e) => return Err(e),
            Ok(false) => return Ok(()),
            Ok(true) => {},
        }
        if issued_base_units > MAX_SUPPLY {
            return Err("issued supply cap exceeded".to_string());
        }
        self.append_state_snapshot(block.height, state, dao);
        let _ = self.append_issuance_record(block.height, issued_base_units);
        let _ = self.commit_validators(activation_height, validators, validator_keys);
        self.append_block_record(block);
        Ok(())
    }
}

} // verus!
