//! Wallet core: balances, history, addresses, and the transactions a wallet builds
//! and checks. Key material stays outside this module.
use crate::codec::{be128, be32, be64, lp, push_bytes, push_lp, push_u128, push_u64, slice_range};
use crate::crypto::{
    ed25519_accepts, ed25519_public_key, ed25519_public_of, ed25519_sign, ed25519_signature_of,
    ed25519_verify,
};
use crate::hashing::{sha256_of, simple_hash};
use crate::mempool::{opt_str_bytes, opt_str_view, push_opt_str, utf8};
use crate::ordmap::bytes_equal;
use ripemd::Digest;
use vstd::prelude::*;

verus! {

// ---------------------------------------------------------------------------
// Balances
// ---------------------------------------------------------------------------

#[derive(Debug, Clone, Copy, PartialEq, Eq, Default)]
pub struct Balance {
    pub confirmed: u64,
    pub spendable: u64,
    pub locked: u64,
}

#[derive(Debug, Clone, Copy, PartialEq, Eq, Structural)]
pub enum BalanceError {
    InsufficientFunds,
    Overflow,
}

/// What can be spent: the spendable amount above the locked amount.
pub open spec fn available_of(b: Balance) -> u64 {
    if b.spendable >= b.locked {
        (b.spendable - b.locked) as u64
    } else {
        0
    }
}

/// Whether a debit of `amount` goes through: the spendable funds have not fallen
/// below the locked amount and cover `amount`.
pub open spec fn debit_allowed(b: Balance, amount: u64) -> bool {
    b.spendable >= b.locked && b.spendable >= amount
}

impl Balance {
    pub fn available(&self) -> (r: u64)
        ensures
            r == available_of(*self),
    {
        self.spendable.saturating_sub(self.locked)
    }

    pub fn can_spend(&self, amount: u64) -> (r: bool)
        ensures
            r == (available_of(*self) >= amount),
    {
        self.available() >= amount
    }

    /// Spends `amount` from the spendable funds. A debit goes through while the
    /// spendable funds still reach the locked amount and cover `amount`; the debit that
    /// brings them below the locked amount is the last one allowed.
    pub fn debit(&mut self, amount: u64) -> (r: Result<(), BalanceError>)
        ensures
            !debit_allowed(*old(self), amount) ==> r == Err::<(), BalanceError>(
                BalanceError::InsufficientFunds,
            ) && *final(self) == *old(self),
            debit_allowed(*old(self), amount) ==> r is Ok && *final(self) == (Balance {
                spendable: (old(self).spendable - amount) as u64,
                ..*old(self)
            }),
    {
        if self.spendable < self.locked || self.spendable < amount {
            return Err(BalanceError::InsufficientFunds);
        }
        self.spendable = self.spendable - amount;
        Ok(())
    }

    /// Receives `amount`, confirmed and spendable; an overflow of the spendable amount
    /// leaves the confirmed amount raised.
    pub fn credit(&mut self, amount: u64) -> (r: Result<(), BalanceError>)
        ensures
            old(self).confirmed + amount > u64::MAX ==> r == Err::<(), BalanceError>(
                BalanceError::Overflow,
            ) && *final(self) == *old(self),
            old(self).confirmed + amount <= u64::MAX && old(self).spendable + amount > u64::MAX
                ==> r == Err::<(), BalanceError>(BalanceError::Overflow) && *final(self) == (Balance {
                confirmed: (old(self).confirmed + amount) as u64,
                ..*old(self)
            }),
            old(self).confirmed + amount <= u64::MAX && old(self).spendable + amount <= u64::MAX
                ==> r is Ok && *final(self) == (Balance {
                confirmed: (old(self).confirmed + amount) as u64,
                spendable: (old(self).spendable + amount) as u64,
                ..*old(self)
            }),
    {
        self.confirmed = match self.confirmed.checked_add(amount) {
            Some(v) => v,
            None => return Err(BalanceError::Overflow),
        };
        self.spendable = match self.spendable.checked_add(amount) {
            Some(v) => v,
            None => return Err(BalanceError::Overflow),
        };
        Ok(())
    }
}

/// A debit never spends locked funds: after a successful debit the spendable amount
/// still covers the locked amount whenever it did before.
pub proof fn law_debit_respects_lock(b: Balance, amount: u64)
    requires
        b.spendable >= b.locked,
        available_of(b) >= amount,
    ensures
        b.spendable - amount >= b.locked,
{
}

// ---------------------------------------------------------------------------
// History
// ---------------------------------------------------------------------------

#[derive(Debug, Clone, Copy, PartialEq, Eq)]
pub enum TxStatus {
    Pending,
    Confirmed { height: u64 },
    Rejected,
}

#[derive(Debug, Clone, Copy, PartialEq, Eq)]
pub struct HistoryEntry {
    pub tx_id: [u8; 32],
    pub nonce: u64,
    pub amount: u64,
    pub status: TxStatus,
}

/// The wallet's transactions in the order they were recorded.
#[derive(Debug)]
pub struct History {
    entries: Vec<HistoryEntry>,
}

/// The first entry with a given transaction identifier.
pub open spec fn first_with_id(s: Seq<HistoryEntry>, id: Seq<u8>, i: nat) -> Option<int>
    decreases s.len() - i,
{
    if i >= s.len() {
        None
    } else if s[i as int].tx_id@ == id {
        Some(i as int)
    } else {
        first_with_id(s, id, i + 1)
    }
}

impl History {
    pub closed spec fn entry_list(&self) -> Seq<HistoryEntry> {
        self.entries@
    }

    pub fn new() -> (h: Self)
        ensures
            h.entry_list() == Seq::<HistoryEntry>::empty(),
    {
        History { entries: Vec::new() }
    }

    pub fn push(&mut self, entry: HistoryEntry)
        ensures
            final(self).entry_list() == old(self).entry_list().push(entry),
    {
        self.entries.push(entry);
    }

    pub fn entries(&self) -> (r: &[HistoryEntry])
        ensures
            r@ == self.entry_list(),
    {
        self.entries.as_slice()
    }

    /// Marks the first entry with the identifier confirmed at `height`; false where
    /// there is none.
    pub fn confirm(&mut self, tx_id: &[u8; 32], height: u64) -> (r: bool)
        ensures
            match first_with_id(old(self).entry_list(), tx_id@, 0) {
                Some(i) => r && final(self).entry_list() == old(self).entry_list().update(
                    i,
                    HistoryEntry {
                        status: TxStatus::Confirmed { height },
                        ..old(self).entry_list()[i]
                    },
                ),
                None => !r && final(self).entry_list() == old(self).entry_list(),
            },
    {
        let ghost s = self.entries@;
        let mut i: usize = 0;
        while i < self.entries.len()
            invariant
                s == self.entries@,
                s == old(self).entry_list(),
                i <= s.len(),
                first_with_id(s, tx_id@, 0) == first_with_id(s, tx_id@, i as nat),
            decreases s.len() - i,
        {
            if bytes_equal(self.entries[i].tx_id.as_slice(), tx_id.as_slice()) {
                let mut e = self.entries[i];
                e.status = TxStatus::Confirmed { height };
                self.entries.set(i, e);
                return true;
            }
            i = i + 1;
        }
        false
    }
}

impl Default for History {
    fn default() -> (h: Self)
        ensures
            h.entry_list() == Seq::<HistoryEntry>::empty(),
    {
        History::new()
    }
}

/// What a wallet screen shows; no key material.
#[derive(Debug)]
pub struct WalletView {
    pub address: String,
    pub balance: Balance,
    pub history_count: usize,
}

/// The view of a wallet: its address, balance and number of history entries.
pub fn snapshot(address: String, balance: Balance, history: &History) -> (v: WalletView)
    ensures
        v.address@ == address@ && v.balance == balance && v.history_count
            == history.entry_list().len(),
{
    WalletView { address, balance, history_count: history.entries().len() }
}

// ---------------------------------------------------------------------------
// Addresses
// ---------------------------------------------------------------------------

#[derive(Debug, Clone, Copy, PartialEq, Eq, Structural)]
pub enum AddressError {
    InvalidLength,
    InvalidChecksum,
    InvalidVersion,
    InvalidEncoding,
}

/// Names the RIPEMD-160 digest of some bytes.
pub uninterp spec fn ripemd160_of(data: Seq<u8>) -> Seq<u8>;

/// Names the Base58 text (Bitcoin alphabet) of some bytes.
pub uninterp spec fn base58_text(data: Seq<u8>) -> Seq<char>;

/// Names what decoding a Base58 text gives: the bytes, or nothing where the text is
/// not Base58.
pub uninterp spec fn base58_bytes(text: Seq<char>) -> Option<Seq<u8>>;

/// Calls `ripemd::Ripemd160::digest`. Claimed: 20 bytes that depend on the input alone.
#[verifier::external_body]
fn ripemd160(data: &[u8]) -> (r: [u8; 20])
    ensures
        r@ == ripemd160_of(data@),
{
    ripemd::Ripemd160::digest(data).into()
}

/// Calls `bs58::encode(..).into_string()`. Claimed: the text depends on the bytes
/// alone, and `bs58::decode` gives the bytes back from it.
#[verifier::external_body]
fn base58_encode(data: &[u8]) -> (s: String)
    ensures
        s@ == base58_text(data@),
        base58_bytes(s@) == Some(data@),
{
    bs58::encode(data).into_string()
}

/// Calls `bs58::decode(..).into_vec()`. Claimed: the outcome depends on the text alone.
#[verifier::external_body]
fn base58_decode(text: &str) -> (r: Option<Vec<u8>>)
    ensures
        match r {
            Some(v) => base58_bytes(text@) == Some(v@),
            None => base58_bytes(text@) is None,
        },
{
    bs58::decode(text).into_vec().ok()
}

/// The address payload of a public key: RIPEMD-160 of its SHA-256.
pub open spec fn payload_of(public_key: Seq<u8>) -> Seq<u8> {
    ripemd160_of(sha256_of(public_key))
}

/// The checksum of an address body: the first four bytes of SHA-256 applied twice.
pub open spec fn checksum_of(body: Seq<u8>) -> Seq<u8> {
    sha256_of(sha256_of(body)).subrange(0, 4)
}

/// The bytes an address spells: version, payload, checksum.
pub open spec fn address_bytes(public_key: Seq<u8>, version: u8) -> Seq<u8> {
    let body = seq![version] + payload_of(public_key);
    body + checksum_of(body)
}

/// What decoding an address for a version gives.
pub open spec fn address_decode(address: Seq<char>, version: u8) -> Result<Seq<u8>, AddressError> {
    match base58_bytes(address) {
        None => Err(AddressError::InvalidEncoding),
        Some(raw) => if raw.len() != 25 {
            Err(AddressError::InvalidLength)
        } else if raw[0] != version {
            Err(AddressError::InvalidVersion)
        } else if raw.subrange(21, 25) != checksum_of(raw.subrange(0, 21)) {
            Err(AddressError::InvalidChecksum)
        } else {
            Ok(raw.subrange(1, 21))
        },
    }
}

/// The address payload of a public key.
pub fn payload_from_public_key(public_key: &[u8; 32]) -> (r: [u8; 20])
    ensures
        r@ == payload_of(public_key@),
{
    let sha = simple_hash(public_key.as_slice());
    ripemd160(sha.as_slice())
}

/// The Base58 address of a public key under a network version byte.
pub fn encode(public_key: &[u8; 32], version: u8) -> (s: String)
    ensures
        s@ == base58_text(address_bytes(public_key@, version)),
        base58_bytes(s@) == Some(address_bytes(public_key@, version)),
{
    let payload = payload_from_public_key(public_key);
    let mut body: Vec<u8> = Vec::new();
    body.push(version);
    push_bytes(&mut body, payload.as_slice());
    let first = simple_hash(body.as_slice());
    let second = simple_hash(first.as_slice());
    let mut full: Vec<u8> = Vec::new();
    push_bytes(&mut full, body.as_slice());
    push_bytes(&mut full, slice_range(second.as_slice(), 0, 4));
    assert(body@ =~= seq![version] + payload_of(public_key@));
    assert(full@ =~= address_bytes(public_key@, version));
    base58_encode(full.as_slice())
}

/// The payload of an address, checked for its version and checksum.
pub fn decode(address: &str, expected_version: u8) -> (r: Result<[u8; 20], AddressError>)
    ensures
        match address_decode(address@, expected_version) {
            Ok(p) => r matches Ok(x) && x@ == p,
            Err(e) => r == Err::<[u8; 20], AddressError>(e),
        },
{
    let raw = match base58_decode(address) {
        Some(v) => v,
        None => return Err(AddressError::InvalidEncoding),
    };
    if raw.len() != 25 {
        return Err(AddressError::InvalidLength);
    }
    if raw[0] != expected_version {
        return Err(AddressError::InvalidVersion);
    }
    let first = simple_hash(slice_range(raw.as_slice(), 0, 21));
    let second = simple_hash(first.as_slice());
    if !bytes_equal(slice_range(raw.as_slice(), 21, 25), slice_range(second.as_slice(), 0, 4)) {
        return Err(AddressError::InvalidChecksum);
    }
    let mut out = [0u8; 20];
    let mut i: usize = 0;
    while i < 20
        invariant
            raw@.len() == 25,
            i <= 20,
            forall|j: int| 0 <= j < i ==> out@[j] == raw@[j + 1],
        decreases 20 - i,
    {
        out[i] = raw[i + 1];
        i = i + 1;
    }
    assert(out@ =~= raw@.subrange(1, 21));
    Ok(out)
}

/// An address decodes, under its own version, to the payload of the key it was made
/// from: given 20-byte payloads, digests of at least four bytes, and Base58 decoding
/// giving back what it encoded (as `encode` states of the text it returns).
pub proof fn law_address_roundtrip(public_key: Seq<u8>, version: u8)
    requires
        ripemd160_of(sha256_of(public_key)).len() == 20,
        sha256_of(sha256_of(seq![version] + payload_of(public_key))).len() >= 4,
        base58_bytes(base58_text(address_bytes(public_key, version))) == Some(
            address_bytes(public_key, version),
        ),
    ensures
        address_decode(base58_text(address_bytes(public_key, version)), version) == Ok::<
            Seq<u8>,
            AddressError,
        >(payload_of(public_key)),
{
    let body = seq![version] + payload_of(public_key);
    let raw = address_bytes(public_key, version);
    assert(raw.len() == 25);
    assert(raw.subrange(0, 21) =~= body);
    assert(raw.subrange(21, 25) =~= checksum_of(body));
    assert(raw.subrange(1, 21) =~= payload_of(public_key));
}

// ---------------------------------------------------------------------------
// Transactions
// ---------------------------------------------------------------------------

/// Domain tag of the bytes a wallet signs.
pub const TX_DOMAIN_V2: &'static str = "ATC-TX-DOMAIN-V2";

#[derive(Debug, Clone, Copy, PartialEq, Eq, Structural)]
pub enum TxType {
    Transfer,
    Stake,
    Unstake,
    Contract,
}

/// Wire number of a transaction type.
pub open spec fn type_number(t: TxType) -> u8 {
    match t {
        TxType::Transfer => 0,
        TxType::Stake => 1,
        TxType::Unstake => 2,
        TxType::Contract => 3,
    }
}

/// The wire number of a transaction type.
pub fn tx_type_number(tx_type: TxType) -> (n: u8)
    ensures
        n == type_number(tx_type),
{
    match tx_type {
        TxType::Transfer => 0,
        TxType::Stake => 1,
        TxType::Unstake => 2,
        TxType::Contract => 3,
    }
}

#[derive(Debug, Clone, PartialEq, Eq)]
pub struct Transaction {
    pub chain_id: u64,
    pub tx_type: TxType,
    pub sender_did: String,
    pub recipient_did: Option<String>,
    pub amount: u128,
    pub gas_price: u64,
    pub gas_limit: u64,
    pub nonce: u64,
    pub timestamp: u64,
    pub payload: Vec<u8>,
    pub poh_hash: [u8; 32],
}

#[derive(Debug, Clone, Copy, PartialEq, Eq, Structural)]
pub enum TxError {
    InvalidChainId,
    EmptySender,
    InvalidSignature,
}

/// Every field of a transaction after the domain tag, in order.
pub open spec fn wallet_tx_fields(t: Transaction) -> Seq<u8> {
    be64(t.chain_id) + seq![type_number(t.tx_type)] + lp(utf8(t.sender_did@)) + opt_str_bytes(
        opt_str_view(t.recipient_did),
    ) + be128(t.amount) + be64(t.gas_price) + be64(t.gas_limit) + be64(t.nonce) + be64(t.timestamp)
        + lp(t.payload@) + t.poh_hash@
}

/// What a wallet signs for a transaction: refused off the canonical chain or without
/// a sender.
pub open spec fn wallet_signing_bytes(t: Transaction) -> Result<Seq<u8>, TxError> {
    if t.chain_id != crate::NUMERIC_CHAIN_ID {
        Err(TxError::InvalidChainId)
    } else if t.sender_did@.len() == 0 {
        Err(TxError::EmptySender)
    } else {
        Ok(utf8("ATC-TX-DOMAIN-V2"@) + wallet_tx_fields(t))
    }
}

fn push_wallet_fields(b: &mut Vec<u8>, t: &Transaction)
    ensures
        final(b)@ == old(b)@ + wallet_tx_fields(*t),
{
    push_u64(b, t.chain_id);
    b.push(tx_type_number(t.tx_type));
    push_lp(b, t.sender_did.as_str().as_bytes());
    push_opt_str(b, &t.recipient_did);
    push_u128(b, t.amount);
    push_u64(b, t.gas_price);
    push_u64(b, t.gas_limit);
    push_u64(b, t.nonce);
    push_u64(b, t.timestamp);
    push_lp(b, t.payload.as_slice());
    push_bytes(b, t.poh_hash.as_slice());
    assert(final(b)@ =~= old(b)@ + wallet_tx_fields(*t));
}

impl Transaction {
    /// The bytes the wallet signs.
    pub fn signing_bytes(&self) -> (r: Result<Vec<u8>, TxError>)
        ensures
            match wallet_signing_bytes(*self) {
                Ok(bytes) => r matches Ok(v) && v@ == bytes,
                Err(e) => r == Err::<Vec<u8>, TxError>(e),
            },
    {
        if self.chain_id != crate::NUMERIC_CHAIN_ID {
            return Err(TxError::InvalidChainId);
        }
        if self.sender_did.as_str().is_empty() {
            return Err(TxError::EmptySender);
        }
        let mut b: Vec<u8> = Vec::new();
        push_bytes(&mut b, TX_DOMAIN_V2.as_bytes());
        push_wallet_fields(&mut b, self);
        Ok(b)
    }

    /// The transaction's identifier: SHA-256 of the identifier tag and its fields; the
    /// signature is not part of it.
    pub fn id(&self, signature: &[u8; 64]) -> (r: Result<[u8; 32], TxError>)
        ensures
            r matches Ok(x) && x@ == sha256_of(utf8("ATC-TX-ID-V2"@) + wallet_tx_fields(*self)),
    {
        let mut b: Vec<u8> = Vec::new();
        push_bytes(&mut b, "ATC-TX-ID-V2".as_bytes());
        push_wallet_fields(&mut b, self);
        Ok(simple_hash(b.as_slice()))
    }

    /// Signs the signing bytes with a wallet key.
    pub fn sign(&self, key: &WalletKey) -> (r: Result<[u8; 64], TxError>)
        ensures
            match wallet_signing_bytes(*self) {
                Err(e) => r == Err::<[u8; 64], TxError>(e),
                Ok(bytes) => r matches Ok(sig) && sig@ == ed25519_signature_of(key.seed(), bytes),
            },
    {
        let bytes = self.signing_bytes()?;
        Ok(key.sign(bytes.as_slice()))
    }

    /// Checks an Ed25519 signature over the signing bytes under a public key.
    pub fn verify(&self, public_key: &[u8; 32], signature: &[u8; 64]) -> (r: Result<(), TxError>)
        ensures
            match wallet_signing_bytes(*self) {
                Err(e) => r == Err::<(), TxError>(e),
                Ok(bytes) => (r is Ok) == ed25519_accepts(public_key@, bytes, signature@)
                    && (r is Err ==> r == Err::<(), TxError>(TxError::InvalidSignature)),
            },
    {
        let bytes = self.signing_bytes()?;
        if ed25519_verify(public_key.as_slice(), bytes.as_slice(), signature) {
            Ok(())
        } else {
            Err(TxError::InvalidSignature)
        }
    }
}

// ---------------------------------------------------------------------------
// Talking to a node
// ---------------------------------------------------------------------------

#[derive(Debug, Clone, PartialEq, Eq)]
pub enum NodeError {
    Transport(String),
    Rejected(String),
    Unsupported,
    Protocol(String),
}

/// A node that accepts a wallet's transactions and reports balances.
pub trait NodeClient {
    fn submit_transaction(&self, tx: &Transaction, signature: &[u8; 64]) -> Result<[u8; 32], NodeError>;

    fn balance(&self, address: &str) -> Result<u64, NodeError>;
}

/// A wallet with no node configured: every request is unsupported.
pub struct UnconfiguredNode;

impl NodeClient for UnconfiguredNode {
    fn submit_transaction(&self, tx: &Transaction, signature: &[u8; 64]) -> (r: Result<[u8; 32], NodeError>)
        ensures
            r == Err::<[u8; 32], NodeError>(NodeError::Unsupported),
    {
        Err(NodeError::Unsupported)
    }

    fn balance(&self, address: &str) -> (r: Result<u64, NodeError>)
        ensures
            r == Err::<u64, NodeError>(NodeError::Unsupported),
    {
        Err(NodeError::Unsupported)
    }
}

/// What a node's JSON-RPC error reply means: code -32001 is a rejection of the
/// request, any other code a protocol failure.
pub fn rpc_error(code: i64, message: String) -> (e: NodeError)
    ensures
        code == -32001 ==> (e matches NodeError::Rejected(m) && m@ == message@),
        code != -32001 ==> (e matches NodeError::Protocol(m) && m@ == message@),
{
    if code == -32001 {
        NodeError::Rejected(message)
    } else {
        NodeError::Protocol(message)
    }
}

/// Why a wallet could not generate a key.
#[derive(Debug)]
pub enum KeyError {
    Randomness,
}

/// Fills 32 bytes from the operating system's random source with `getrandom::fill`;
/// `None` where the source fails. Nothing is claimed of the bytes.
#[verifier::external_body]
fn random_seed() -> (r: Option<[u8; 32]>) {
    let mut seed = [0u8; 32];
    match getrandom::fill(&mut seed) {
        Ok(()) => Some(seed),
        Err(_) => None,
    }
}

/// A wallet's Ed25519 signing key, held as its secret seed.
pub struct WalletKey {
    seed: [u8; 32],
}

impl WalletKey {
    /// The secret seed of the key.
    pub closed spec fn seed(&self) -> Seq<u8> {
        self.seed@
    }

    /// A key from fresh operating-system randomness.
    pub fn generate() -> (r: Result<Self, KeyError>)
        ensures
            r is Err ==> r matches Err(KeyError::Randomness),
    {
        match random_seed() {
            Some(seed) => Ok(WalletKey { seed }),
            None => Err(KeyError::Randomness),
        }
    }

    pub fn from_seed(seed: [u8; 32]) -> (k: Self)
        ensures
            k.seed() == seed@,
    {
        WalletKey { seed }
    }

    /// The public key of the seed.
    pub fn public_key(&self) -> (k: [u8; 32])
        ensures
            k@ == ed25519_public_of(self.seed()),
    {
        ed25519_public_key(&self.seed)
    }

    /// The Ed25519 signature on `message`.
    pub fn sign(&self, message: &[u8]) -> (s: [u8; 64])
        ensures
            s@ == ed25519_signature_of(self.seed(), message@),
    {
        ed25519_sign(&self.seed, message)
    }
}

} // verus!
