//! Transactions and the pending-transaction pool.
use crate::codec::{
    be64, decimal, lemma_be_injective, lemma_be_len, lemma_pow256_small, len_prefix, lp, push_bytes,
    push_decimal, push_lp, push_u64, sat_mul_u64,
};
use crate::hashing::{sha256_of, simple_hash};
use crate::ordmap::OrdMap;
use vstd::prelude::*;

verus! {

/// UTF-8 bytes of a string's characters.
pub open spec fn utf8(s: Seq<char>) -> Seq<u8> {
    vstd::utf8::encode_utf8(s)
}

#[derive(Clone, Copy, Debug, PartialEq, Eq, Structural)]
pub enum TxType {
    Transfer,
    Stake,
    Unstake,
    Contract,
}

impl TxType {
    /// Wire number of the transaction type.
    pub open spec fn spec_number(self) -> u8 {
        match self {
            TxType::Transfer => 0,
            TxType::Stake => 1,
            TxType::Unstake => 2,
            TxType::Contract => 3,
        }
    }

    pub fn number(self) -> (n: u8)
        ensures
            n == self.spec_number(),
    {
        match self {
            TxType::Transfer => 0,
            TxType::Stake => 1,
            TxType::Unstake => 2,
            TxType::Contract => 3,
        }
    }

    /// The type with a given wire number.
    pub fn from_number(n: u8) -> (t: Option<TxType>)
        ensures
            match t {
                Some(t) => n < 4 && t.spec_number() == n,
                None => n >= 4,
            },
    {
        if n == 0 {
            Some(TxType::Transfer)
        } else if n == 1 {
            Some(TxType::Stake)
        } else if n == 2 {
            Some(TxType::Unstake)
        } else if n == 3 {
            Some(TxType::Contract)
        } else {
            None
        }
    }

    pub open spec fn spec_base_gas(self) -> u64 {
        match self {
            TxType::Transfer => 1000,
            TxType::Stake => 1200,
            TxType::Unstake => 1200,
            TxType::Contract => 5000,
        }
    }

    pub fn base_gas(self) -> (g: u64)
        ensures
            g == self.spec_base_gas(),
    {
        match self {
            TxType::Transfer => 1000,
            TxType::Stake => 1200,
            TxType::Unstake => 1200,
            TxType::Contract => 5000,
        }
    }
}

#[derive(Clone, Debug, PartialEq, Eq)]
pub struct Transaction {
    pub id: [u8; 32],
    pub chain_id: u64,
    pub tx_type: TxType,
    pub sender_did: String,
    pub recipient_did: Option<String>,
    pub amount: u64,
    pub gas_price: u64,
    pub gas_limit: u64,
    pub nonce: u64,
    pub timestamp: u64,
    pub payload: Vec<u8>,
    pub signature: [u8; 64],
    pub public_key: [u8; 32],
    pub poh_hash: [u8; 32],
}

/// Mathematical content of a transaction.
pub struct TxModel {
    pub id: Seq<u8>,
    pub chain_id: u64,
    pub tx_type: TxType,
    pub sender: Seq<char>,
    pub recipient: Option<Seq<char>>,
    pub amount: u64,
    pub gas_price: u64,
    pub gas_limit: u64,
    pub nonce: u64,
    pub timestamp: u64,
    pub payload: Seq<u8>,
    pub signature: Seq<u8>,
    pub public_key: Seq<u8>,
    pub poh_hash: Seq<u8>,
}

pub open spec fn opt_str_view(o: Option<String>) -> Option<Seq<char>> {
    match o {
        Some(s) => Some(s@),
        None => None,
    }
}

impl View for Transaction {
    type V = TxModel;

    open spec fn view(&self) -> TxModel {
        TxModel {
            id: self.id@,
            chain_id: self.chain_id,
            tx_type: self.tx_type,
            sender: self.sender_did@,
            recipient: opt_str_view(self.recipient_did),
            amount: self.amount,
            gas_price: self.gas_price,
            gas_limit: self.gas_limit,
            nonce: self.nonce,
            timestamp: self.timestamp,
            payload: self.payload@,
            signature: self.signature@,
            public_key: self.public_key@,
            poh_hash: self.poh_hash@,
        }
    }
}

/// Encoding of an optional string: a presence flag, then the length-prefixed bytes.
pub open spec fn opt_str_bytes(r: Option<Seq<char>>) -> Seq<u8> {
    match r {
        Some(x) => seq![1u8] + lp(utf8(x)),
        None => seq![0u8],
    }
}

/// Preimage of a transaction identifier; the signature and key are not part of it.
pub open spec fn tx_id_preimage(
    chain_id: u64,
    t: TxType,
    sender: Seq<char>,
    recipient: Option<Seq<char>>,
    amount: u64,
    gas_price: u64,
    gas_limit: u64,
    nonce: u64,
    timestamp: u64,
    payload: Seq<u8>,
    poh: Seq<u8>,
) -> Seq<u8> {
    utf8("ATC-TX-ID-V2"@) + be64(chain_id) + seq![t.spec_number()] + lp(utf8(sender))
        + opt_str_bytes(recipient) + be64(amount) + be64(gas_price) + be64(gas_limit) + be64(
        nonce,
    ) + be64(timestamp) + lp(payload) + poh
}

/// Identifier of a transaction with the given fields.
pub open spec fn tx_id_of(
    chain_id: u64,
    t: TxType,
    sender: Seq<char>,
    recipient: Option<Seq<char>>,
    amount: u64,
    gas_price: u64,
    gas_limit: u64,
    nonce: u64,
    timestamp: u64,
    payload: Seq<u8>,
    poh: Seq<u8>,
) -> Seq<u8> {
    sha256_of(
        tx_id_preimage(
            chain_id,
            t,
            sender,
            recipient,
            amount,
            gas_price,
            gas_limit,
            nonce,
            timestamp,
            payload,
            poh,
        ),
    )
}

impl TxModel {
    /// The identifier this transaction's fields commit to.
    pub open spec fn committed_id(self) -> Seq<u8> {
        tx_id_of(
            self.chain_id,
            self.tx_type,
            self.sender,
            self.recipient,
            self.amount,
            self.gas_price,
            self.gas_limit,
            self.nonce,
            self.timestamp,
            self.payload,
            self.poh_hash,
        )
    }

    /// Gas that the transaction consumes: its type's base gas plus ten per payload byte.
    pub open spec fn gas_cost(self) -> int {
        self.tx_type.spec_base_gas() + self.payload.len() * 10
    }

    /// Most the transaction can pay in fees: gas limit times gas price, saturating.
    pub open spec fn max_fee(self) -> u64 {
        if self.gas_limit * self.gas_price > u64::MAX {
            u64::MAX
        } else {
            (self.gas_limit * self.gas_price) as u64
        }
    }
}

// ---------------------------------------------------------------------------
// Identifier preimages determine their transactions
// ---------------------------------------------------------------------------

impl TxModel {
    /// The bytes this transaction's identifier is the hash of.
    pub open spec fn id_preimage(self) -> Seq<u8> {
        tx_id_preimage(
            self.chain_id,
            self.tx_type,
            self.sender,
            self.recipient,
            self.amount,
            self.gas_price,
            self.gas_limit,
            self.nonce,
            self.timestamp,
            self.payload,
            self.poh_hash,
        )
    }

    /// Whether each length-prefixed field fits its prefix and the proof-of-history
    /// hash has its 32 bytes, as in every transaction a program holds.
    pub open spec fn id_fields_fit(self) -> bool {
        &&& utf8(self.sender).len() < 0x1_0000_0000
        &&& (self.recipient matches Some(r) ==> utf8(r).len() < 0x1_0000_0000)
        &&& self.payload.len() < 0x1_0000_0000
        &&& self.poh_hash.len() == 32
    }

    /// Whether two transactions agree on every field their identifiers commit to.
    pub open spec fn same_id_fields(self, other: TxModel) -> bool {
        &&& self.chain_id == other.chain_id
        &&& self.tx_type == other.tx_type
        &&& self.sender == other.sender
        &&& self.recipient == other.recipient
        &&& self.amount == other.amount
        &&& self.gas_price == other.gas_price
        &&& self.gas_limit == other.gas_limit
        &&& self.nonce == other.nonce
        &&& self.timestamp == other.timestamp
        &&& self.payload == other.payload
        &&& self.poh_hash == other.poh_hash
    }
}

/// Equal pieces of equal length at the front leave equal rests.
proof fn lemma_peel(a1: Seq<u8>, r1: Seq<u8>, a2: Seq<u8>, r2: Seq<u8>)
    requires
        a1.len() == a2.len(),
        a1 + r1 == a2 + r2,
    ensures
        a1 == a2,
        r1 == r2,
{
    assert(a1 =~= (a1 + r1).subrange(0, a1.len() as int));
    assert(a2 =~= (a2 + r2).subrange(0, a2.len() as int));
    assert(r1 =~= (a1 + r1).subrange(a1.len() as int, (a1 + r1).len() as int));
    assert(r2 =~= (a2 + r2).subrange(a2.len() as int, (a2 + r2).len() as int));
}

proof fn lemma_peel_u64(v1: u64, r1: Seq<u8>, v2: u64, r2: Seq<u8>)
    requires
        be64(v1) + r1 == be64(v2) + r2,
    ensures
        v1 == v2,
        r1 == r2,
{
    lemma_be_len(v1 as nat, 8);
    lemma_be_len(v2 as nat, 8);
    lemma_peel(be64(v1), r1, be64(v2), r2);
    lemma_pow256_small();
    lemma_be_injective(v1 as nat, v2 as nat, 8);
}

proof fn lemma_peel_lp(s1: Seq<u8>, r1: Seq<u8>, s2: Seq<u8>, r2: Seq<u8>)
    requires
        s1.len() < 0x1_0000_0000,
        s2.len() < 0x1_0000_0000,
        lp(s1) + r1 == lp(s2) + r2,
    ensures
        s1 == s2,
        r1 == r2,
{
    lemma_be_len(s1.len() % 0x1_0000_0000, 4);
    lemma_be_len(s2.len() % 0x1_0000_0000, 4);
    assert(lp(s1) + r1 =~= len_prefix(s1.len()) + (s1 + r1));
    assert(lp(s2) + r2 =~= len_prefix(s2.len()) + (s2 + r2));
    lemma_peel(len_prefix(s1.len()), s1 + r1, len_prefix(s2.len()), s2 + r2);
    lemma_pow256_small();
    lemma_be_injective(s1.len(), s2.len(), 4);
    lemma_peel(s1, r1, s2, r2);
}

proof fn lemma_peel_str(s1: Seq<char>, r1: Seq<u8>, s2: Seq<char>, r2: Seq<u8>)
    requires
        utf8(s1).len() < 0x1_0000_0000,
        utf8(s2).len() < 0x1_0000_0000,
        lp(utf8(s1)) + r1 == lp(utf8(s2)) + r2,
    ensures
        s1 == s2,
        r1 == r2,
{
    lemma_peel_lp(utf8(s1), r1, utf8(s2), r2);
    vstd::utf8::encode_utf8_decode_utf8(s1);
    vstd::utf8::encode_utf8_decode_utf8(s2);
}

proof fn lemma_peel_opt(o1: Option<Seq<char>>, r1: Seq<u8>, o2: Option<Seq<char>>, r2: Seq<u8>)
    requires
        o1 matches Some(x) ==> utf8(x).len() < 0x1_0000_0000,
        o2 matches Some(x) ==> utf8(x).len() < 0x1_0000_0000,
        opt_str_bytes(o1) + r1 == opt_str_bytes(o2) + r2,
    ensures
        o1 == o2,
        r1 == r2,
{
    let f1: u8 = if o1 is Some { 1 } else { 0 };
    let f2: u8 = if o2 is Some { 1 } else { 0 };
    let t1 = match o1 { Some(x) => lp(utf8(x)) + r1, None => r1 };
    let t2 = match o2 { Some(x) => lp(utf8(x)) + r2, None => r2 };
    assert(opt_str_bytes(o1) + r1 =~= seq![f1] + t1);
    assert(opt_str_bytes(o2) + r2 =~= seq![f2] + t2);
    lemma_peel(seq![f1], t1, seq![f2], t2);
    assert(seq![f1][0] == seq![f2][0]);
    if let Some(x1) = o1 {
        let x2 = o2->Some_0;
        lemma_peel_str(x1, r1, x2, r2);
    }
}

/// A preimage as its magic followed by its fields, each field before the rest.
proof fn lemma_preimage_shape(x: TxModel)
    ensures
        x.id_preimage() == utf8("ATC-TX-ID-V2"@) + (be64(x.chain_id) + (seq![x.tx_type.spec_number()] + (lp(
            utf8(x.sender),
        ) + (opt_str_bytes(x.recipient) + (be64(x.amount) + (be64(x.gas_price) + (be64(x.gas_limit) + (be64(
            x.nonce,
        ) + (be64(x.timestamp) + (lp(x.payload) + x.poh_hash)))))))))),
{
    assert(x.id_preimage() =~= utf8("ATC-TX-ID-V2"@) + (be64(x.chain_id) + (seq![x.tx_type.spec_number()] + (
    lp(utf8(x.sender)) + (opt_str_bytes(x.recipient) + (be64(x.amount) + (be64(x.gas_price) + (be64(
        x.gas_limit,
    ) + (be64(x.nonce) + (be64(x.timestamp) + (lp(x.payload) + x.poh_hash)))))))))));
}

/// A transaction identifier's preimage determines every field that it commits to: two
/// transactions whose preimages are equal agree on chain, type, sender, recipient,
/// amount, gas price and limit, nonce, timestamp, payload and proof-of-history hash.
#[verifier::spinoff_prover]
pub proof fn law_id_preimage_determines_fields(x: TxModel, y: TxModel)
    requires
        x.id_fields_fit(),
        y.id_fields_fit(),
        x.id_preimage() == y.id_preimage(),
    ensures
        x.same_id_fields(y),
{
    let m = utf8("ATC-TX-ID-V2"@);
    lemma_preimage_shape(x);
    lemma_preimage_shape(y);
    let t9x = lp(x.payload) + x.poh_hash;
    let t9y = lp(y.payload) + y.poh_hash;
    let t8x = be64(x.timestamp) + t9x;
    let t8y = be64(y.timestamp) + t9y;
    let t7x = be64(x.nonce) + t8x;
    let t7y = be64(y.nonce) + t8y;
    let t6x = be64(x.gas_limit) + t7x;
    let t6y = be64(y.gas_limit) + t7y;
    let t5x = be64(x.gas_price) + t6x;
    let t5y = be64(y.gas_price) + t6y;
    let t4x = be64(x.amount) + t5x;
    let t4y = be64(y.amount) + t5y;
    let t3x = opt_str_bytes(x.recipient) + t4x;
    let t3y = opt_str_bytes(y.recipient) + t4y;
    let t2x = lp(utf8(x.sender)) + t3x;
    let t2y = lp(utf8(y.sender)) + t3y;
    let t1x = seq![x.tx_type.spec_number()] + t2x;
    let t1y = seq![y.tx_type.spec_number()] + t2y;
    let t0x = be64(x.chain_id) + t1x;
    let t0y = be64(y.chain_id) + t1y;
    lemma_peel(m, t0x, m, t0y);
    lemma_peel_u64(x.chain_id, t1x, y.chain_id, t1y);
    lemma_peel(seq![x.tx_type.spec_number()], t2x, seq![y.tx_type.spec_number()], t2y);
    assert(seq![x.tx_type.spec_number()][0] == seq![y.tx_type.spec_number()][0]);
    lemma_peel_str(x.sender, t3x, y.sender, t3y);
    lemma_peel_opt(x.recipient, t4x, y.recipient, t4y);
    lemma_peel_u64(x.amount, t5x, y.amount, t5y);
    lemma_peel_u64(x.gas_price, t6x, y.gas_price, t6y);
    lemma_peel_u64(x.gas_limit, t7x, y.gas_limit, t7y);
    lemma_peel_u64(x.nonce, t8x, y.nonce, t8y);
    lemma_peel_u64(x.timestamp, t9x, y.timestamp, t9y);
    lemma_peel_lp(x.payload, x.poh_hash, y.payload, y.poh_hash);
}

/// Appends the encoding of an optional string.
pub fn push_opt_str(out: &mut Vec<u8>, r: &Option<String>)
    ensures
        final(out)@ == old(out)@ + opt_str_bytes(opt_str_view(*r)),
{
    match r {
        Some(x) => {
            out.push(1);
            push_lp(out, x.as_str().as_bytes());
            assert(final(out)@ =~= old(out)@ + opt_str_bytes(opt_str_view(*r)));
        },
        None => {
            out.push(0);
            assert(final(out)@ =~= old(out)@ + opt_str_bytes(opt_str_view(*r)));
        },
    }
}

/// Copies an optional string.
pub fn copy_opt_str(r: &Option<String>) -> (c: Option<String>)
    ensures
        opt_str_view(c) == opt_str_view(*r),
{
    match r {
        Some(x) => Some(x.clone()),
        None => None,
    }
}

/// Copies a byte vector.
pub fn copy_bytes(v: &Vec<u8>) -> (c: Vec<u8>)
    ensures
        c@ == v@,
{
    let mut c: Vec<u8> = Vec::new();
    push_bytes(&mut c, v.as_slice());
    assert(c@ =~= v@);
    c
}

impl Transaction {
    #[allow(clippy::too_many_arguments)]
    pub fn new(
        t: TxType,
        s: String,
        r: Option<String>,
        a: u64,
        gp: u64,
        gl: u64,
        n: u64,
        ts: u64,
        p: Vec<u8>,
        sig: [u8; 64],
        poh: [u8; 32],
    ) -> (tx: Self)
        ensures
            tx.chain_id == 0,
            tx.public_key@ == seq![0u8; 32],
            tx@.id == tx@.committed_id(),
            tx.tx_type == t && tx@.sender == s@ && tx@.recipient == opt_str_view(r)
                && tx.amount == a && tx.gas_price == gp && tx.gas_limit == gl && tx.nonce == n
                && tx.timestamp == ts && tx@.payload == p@ && tx.signature == sig && tx.poh_hash
                == poh,
    {
        let tx = Self::new_with_chain_id(0, t, s, r, a, gp, gl, n, ts, p, sig, [0;32], poh);
        assert(tx.public_key@ =~= seq![0u8; 32]);
        tx
    }

    #[allow(clippy::too_many_arguments)]
    pub fn new_signed(
        t: TxType,
        s: String,
        r: Option<String>,
        a: u64,
        gp: u64,
        gl: u64,
        n: u64,
        ts: u64,
        p: Vec<u8>,
        sig: [u8; 64],
        public_key: [u8; 32],
        poh: [u8; 32],
    ) -> (tx: Self)
        ensures
            tx.chain_id == 0,
            tx.public_key == public_key,
            tx@.id == tx@.committed_id(),
            tx.tx_type == t && tx@.sender == s@ && tx@.recipient == opt_str_view(r)
                && tx.amount == a && tx.gas_price == gp && tx.gas_limit == gl && tx.nonce == n
                && tx.timestamp == ts && tx@.payload == p@ && tx.signature == sig && tx.poh_hash
                == poh,
    {
        Self::new_with_chain_id(0, t, s, r, a, gp, gl, n, ts, p, sig, public_key, poh)
    }

    /// Builds a transaction whose identifier commits to all fields but the signature and key.
    #[allow(clippy::too_many_arguments)]
    pub fn new_with_chain_id(
        chain_id: u64,
        t: TxType,
        s: String,
        r: Option<String>,
        a: u64,
        gp: u64,
        gl: u64,
        n: u64,
        ts: u64,
        p: Vec<u8>,
        sig: [u8; 64],
        public_key: [u8; 32],
        poh: [u8; 32],
    ) -> (tx: Self)
        ensures
            tx@.id == tx@.committed_id(),
            tx.chain_id == chain_id && tx.tx_type == t && tx@.sender == s@ && tx@.recipient
                == opt_str_view(r) && tx.amount == a && tx.gas_price == gp && tx.gas_limit == gl
                && tx.nonce == n && tx.timestamp == ts && tx@.payload == p@ && tx.signature == sig
                && tx.public_key == public_key && tx.poh_hash == poh,
    {
        let mut b: Vec<u8> = Vec::new();
        push_bytes(&mut b, "ATC-TX-ID-V2".as_bytes());
        push_u64(&mut b, chain_id);
        b.push(t.number());
        push_lp(&mut b, s.as_str().as_bytes());
        push_opt_str(&mut b, &r);
        push_u64(&mut b, a);
        push_u64(&mut b, gp);
        push_u64(&mut b, gl);
        push_u64(&mut b, n);
        push_u64(&mut b, ts);
        push_lp(&mut b, p.as_slice());
        push_bytes(&mut b, &poh);
        assert(b@ =~= tx_id_preimage(chain_id, t, s@, opt_str_view(r), a, gp, gl, n, ts, p@, poh@));
        Self {
            id: simple_hash(b.as_slice()),
            chain_id,
            tx_type: t,
            sender_did: s,
            recipient_did: r,
            amount: a,
            gas_price: gp,
            gas_limit: gl,
            nonce: n,
            timestamp: ts,
            payload: p,
            signature: sig,
            public_key,
            poh_hash: poh,
        }
    }

    /// Base gas of the type plus ten per payload byte.
    pub fn gas_cost(&self) -> (g: u64)
        requires
            self@.gas_cost() <= u64::MAX,
        ensures
            g == self@.gas_cost(),
    {
        self.tx_type.base_gas() + self.payload.len() as u64 * 10
    }

    /// Gas limit times gas price, saturating.
    pub fn max_fee(&self) -> (f: u64)
        ensures
            f == self@.max_fee(),
    {
        sat_mul_u64(self.gas_limit, self.gas_price)
    }

    /// An exact copy.
    pub fn duplicate(&self) -> (c: Self)
        ensures
            c@ == self@,
    {
        Transaction {
            id: self.id,
            chain_id: self.chain_id,
            tx_type: self.tx_type,
            sender_did: self.sender_did.clone(),
            recipient_did: copy_opt_str(&self.recipient_did),
            amount: self.amount,
            gas_price: self.gas_price,
            gas_limit: self.gas_limit,
            nonce: self.nonce,
            timestamp: self.timestamp,
            payload: copy_bytes(&self.payload),
            signature: self.signature,
            public_key: self.public_key,
            poh_hash: self.poh_hash,
        }
    }
}

#[derive(Clone, Copy, Debug, PartialEq, Eq, Structural)]
pub enum TxStatus {
    Pending,
    Validated,
    InBlock,
    Rejected,
    Expired,
    InvalidSignature,
}

#[derive(Debug)]
pub struct PoolEntry {
    pub tx: Transaction,
    pub status: TxStatus,
    pub added_at: u64,
    pub priority: u64,
}

#[derive(Debug, Clone, PartialEq, Eq, Structural)]
pub enum MempoolError {
    PoolFull,
    DuplicateTx,
    TxNotFound,
    GasLimitTooLow,
    GasPriceTooLow,
    NoRecipient,
    InvalidNonce { expected: u64, got: u64 },
    InsufficientBalance,
    InsufficientStake,
    Expired,
    InvalidSignature,
    WrongChain,
}

/// The text of a mempool error.
pub open spec fn mempool_error_text(e: MempoolError) -> Seq<char> {
    match e {
        MempoolError::PoolFull => "mempool is full"@,
        MempoolError::DuplicateTx => "duplicate transaction"@,
        MempoolError::TxNotFound => "transaction not found"@,
        MempoolError::GasLimitTooLow => "gas limit too low"@,
        MempoolError::GasPriceTooLow => "gas price too low"@,
        MempoolError::NoRecipient => "recipient required"@,
        MempoolError::InvalidNonce { expected, got } => "invalid nonce: expected "@ + decimal(
            expected as nat,
        ) + ", got "@ + decimal(got as nat),
        MempoolError::InsufficientBalance => "insufficient balance"@,
        MempoolError::InsufficientStake => "insufficient stake"@,
        MempoolError::Expired => "transaction expired"@,
        MempoolError::InvalidSignature => "invalid signature"@,
        MempoolError::WrongChain => "wrong chain"@,
    }
}

/// The debug form of a mempool error: the variant's name with its fields.
pub open spec fn mempool_error_debug(e: MempoolError) -> Seq<char> {
    match e {
        MempoolError::PoolFull => "PoolFull"@,
        MempoolError::DuplicateTx => "DuplicateTx"@,
        MempoolError::TxNotFound => "TxNotFound"@,
        MempoolError::GasLimitTooLow => "GasLimitTooLow"@,
        MempoolError::GasPriceTooLow => "GasPriceTooLow"@,
        MempoolError::NoRecipient => "NoRecipient"@,
        MempoolError::InvalidNonce { expected, got } => "InvalidNonce { expected: "@ + decimal(
            expected as nat,
        ) + ", got: "@ + decimal(got as nat) + " }"@,
        MempoolError::InsufficientBalance => "InsufficientBalance"@,
        MempoolError::InsufficientStake => "InsufficientStake"@,
        MempoolError::Expired => "Expired"@,
        MempoolError::InvalidSignature => "InvalidSignature"@,
        MempoolError::WrongChain => "WrongChain"@,
    }
}

impl MempoolError {
    /// The debug form of the error.
    pub fn debug_text(&self) -> (s: String)
        ensures
            s@ == mempool_error_debug(*self),
    {
        match self {
            MempoolError::PoolFull => "PoolFull".to_string(),
            MempoolError::DuplicateTx => "DuplicateTx".to_string(),
            MempoolError::TxNotFound => "TxNotFound".to_string(),
            MempoolError::GasLimitTooLow => "GasLimitTooLow".to_string(),
            MempoolError::GasPriceTooLow => "GasPriceTooLow".to_string(),
            MempoolError::NoRecipient => "NoRecipient".to_string(),
            MempoolError::InvalidNonce { expected, got } => {
                let mut s = "InvalidNonce { expected: ".to_string();
                push_decimal(&mut s, *expected);
                s.append(", got: ");
                push_decimal(&mut s, *got);
                s.append(" }");
                s
            },
            MempoolError::InsufficientBalance => "InsufficientBalance".to_string(),
            MempoolError::InsufficientStake => "InsufficientStake".to_string(),
            MempoolError::Expired => "Expired".to_string(),
            MempoolError::InvalidSignature => "InvalidSignature".to_string(),
            MempoolError::WrongChain => "WrongChain".to_string(),
        }
    }

    /// Human-readable description of the error.
    pub fn message(&self) -> (s: String)
        ensures
            s@ == mempool_error_text(*self),
    {
        match self {
            MempoolError::PoolFull => "mempool is full".to_string(),
            MempoolError::DuplicateTx => "duplicate transaction".to_string(),
            MempoolError::TxNotFound => "transaction not found".to_string(),
            MempoolError::GasLimitTooLow => "gas limit too low".to_string(),
            MempoolError::GasPriceTooLow => "gas price too low".to_string(),
            MempoolError::NoRecipient => "recipient required".to_string(),
            MempoolError::InvalidNonce { expected, got } => {
                let mut s = "invalid nonce: expected ".to_string();
                push_decimal(&mut s, *expected);
                s.append(", got ");
                push_decimal(&mut s, *got);
                s
            },
            MempoolError::InsufficientBalance => "insufficient balance".to_string(),
            MempoolError::InsufficientStake => "insufficient stake".to_string(),
            MempoolError::Expired => "transaction expired".to_string(),
            MempoolError::InvalidSignature => "invalid signature".to_string(),
            MempoolError::WrongChain => "wrong chain".to_string(),
        }
    }
}

/// Fee priority of a transaction: gas price times gas limit, saturating.
pub open spec fn priority_of(tx: TxModel) -> u64 {
    if tx.gas_price * tx.gas_limit > u64::MAX {
        u64::MAX
    } else {
        (tx.gas_price * tx.gas_limit) as u64
    }
}

/// Order in which validated transactions leave the pool: higher priority first,
/// then the smaller identifier.
pub open spec fn ranks_before(a: PoolEntry, b: PoolEntry) -> bool {
    a.priority > b.priority || (a.priority == b.priority && crate::ordmap::bytes_lt(
        a.tx.id@,
        b.tx.id@,
    ))
}

/// A transaction's fee priority is the most it can pay in fees: gas price times gas
/// limit, capped at `u64::MAX`; so of two pooled entries the one whose transaction can
/// pay more leaves the pool first.
pub proof fn law_priority_is_max_fee(a: PoolEntry, b: PoolEntry)
    requires
        a.priority == priority_of(a.tx@),
        b.priority == priority_of(b.tx@),
    ensures
        a.priority == a.tx@.max_fee(),
        a.tx.gas_price * a.tx.gas_limit <= u64::MAX ==> a.priority == a.tx.gas_price * a.tx.gas_limit,
        a.tx.gas_price * a.tx.gas_limit > u64::MAX ==> a.priority == u64::MAX,
        a.tx@.max_fee() > b.tx@.max_fee() ==> ranks_before(a, b) && !ranks_before(b, a),
{
    assert(a.tx.gas_price * a.tx.gas_limit == a.tx.gas_limit * a.tx.gas_price) by (nonlinear_arith);
    assert(b.tx.gas_price * b.tx.gas_limit == b.tx.gas_limit * b.tx.gas_price) by (nonlinear_arith);
}

/// Pending transactions keyed by identifier, bounded in number and age.
pub struct MemoryPool {
    entries: OrdMap<[u8; 32], PoolEntry>,
    max_size: usize,
    max_age: u64,
}

impl MemoryPool {
    pub closed spec fn wf(&self) -> bool {
        &&& self.entries.wf()
        &&& forall|k: Seq<u8>| #[trigger]
            self.entries@.contains_key(k) ==> self.entries@[k].tx.id@ == k
                && self.entries@[k].priority == priority_of(self.entries@[k].tx@)
    }

    /// Every pooled entry carries its transaction's fee priority.
    pub proof fn lemma_priorities(&self)
        requires
            self.wf(),
        ensures
            forall|k: Seq<u8>| #[trigger]
                self@.contains_key(k) ==> self@[k].priority == priority_of(self@[k].tx@),
    {
    }

    /// The pool's entries keyed by transaction identifier.
    pub closed spec fn view(&self) -> Map<Seq<u8>, PoolEntry> {
        self.entries@
    }

    pub closed spec fn spec_max_size(&self) -> usize {
        self.max_size
    }

    pub closed spec fn spec_max_age(&self) -> u64 {
        self.max_age
    }

    /// The validated entries in the pool's storage order.
    pub closed spec fn validated(&self) -> Seq<PoolEntry> {
        self.entries.pairs().map_values(|p: (Seq<u8>, PoolEntry)| p.1).filter(
            |e: PoolEntry| e.status == TxStatus::Validated,
        )
    }

    pub fn new(m: usize, a: u64) -> (p: Self)
        ensures
            p.wf(),
            p@ == Map::<Seq<u8>, PoolEntry>::empty(),
            p.spec_max_size() == m,
            p.spec_max_age() == a,
    {
        MemoryPool { entries: OrdMap::new(), max_size: m, max_age: a }
    }

    pub fn len(&self) -> (n: usize)
        requires
            self.wf(),
        ensures
            n == self@.len(),
    {
        self.entries.len()
    }

    /// Admits a transaction as pending.
    pub fn add(&mut self, tx: Transaction, now: u64) -> (r: Result<(), MempoolError>)
        requires
            old(self).wf(),
        ensures
            final(self).wf(),
            final(self).spec_max_size() == old(self).spec_max_size(),
            final(self).spec_max_age() == old(self).spec_max_age(),
            old(self)@.contains_key(tx.id@) ==> r == Err::<(), MempoolError>(MempoolError::DuplicateTx)
                && final(self)@ == old(self)@,
            !old(self)@.contains_key(tx.id@) && old(self)@.len() >= old(self).spec_max_size()
                ==> r == Err::<(), MempoolError>(MempoolError::PoolFull) && final(self)@ == old(self)@,
            !old(self)@.contains_key(tx.id@) && old(self)@.len() < old(self).spec_max_size() ==> r
                == Ok::<(), MempoolError>(()) && final(self)@ == old(self)@.insert(
                tx.id@,
                PoolEntry {
                    priority: priority_of(tx@),
                    tx: tx,
                    status: TxStatus::Pending,
                    added_at: now,
                },
            ),
    {
        if self.entries.contains_key(&tx.id) {
            return Err(MempoolError::DuplicateTx);
        }
        if self.entries.len() >= self.max_size {
            return Err(MempoolError::PoolFull);
        }
        let id = tx.id;
        let priority = sat_mul_u64(tx.gas_price, tx.gas_limit);
        self.entries.insert(id, PoolEntry { priority, tx, status: TxStatus::Pending, added_at: now });
        Ok(())
    }

    pub fn remove(&mut self, id: &[u8; 32])
        requires
            old(self).wf(),
        ensures
            final(self).wf(),
            final(self)@ == old(self)@.remove(id@),
            final(self).spec_max_size() == old(self).spec_max_size(),
            final(self).spec_max_age() == old(self).spec_max_age(),
    {
        let _ = self.entries.remove(id);
    }

    /// Checks a pending transaction against age and gas rules, recording the verdict.
    pub fn validate_tx(&mut self, id: &[u8; 32], now: u64) -> (r: Result<(), MempoolError>)
        requires
            old(self).wf(),
        ensures
            final(self).wf(),
            final(self).spec_max_size() == old(self).spec_max_size(),
            final(self).spec_max_age() == old(self).spec_max_age(),
            !old(self)@.contains_key(id@) ==> r == Err::<(), MempoolError>(MempoolError::TxNotFound)
                && final(self)@ == old(self)@,
            old(self)@.contains_key(id@) ==> ({
                let e = old(self)@[id@];
                let verdict = pool_verdict(e, now, old(self).spec_max_age());
                &&& r == verdict.0
                &&& final(self)@ == old(self)@.insert(
                    id@,
                    PoolEntry { status: verdict.1, ..e },
                )
            }),
    {
        let e = match self.entries.remove(id) {
            None => {
                return Err(MempoolError::TxNotFound);
            },
            Some(e) => e,
        };
        let ghost oe = e;
        let mut e = e;
        let r = if now.saturating_sub(e.added_at) > self.max_age {
            e.status = TxStatus::Expired;
            Err(MempoolError::Expired)
        } else if (e.tx.gas_limit as u128) < e.tx.tx_type.base_gas() as u128 + (e.tx.payload.len()
            as u128) * 10 {
            e.status = TxStatus::Rejected;
            Err(MempoolError::GasLimitTooLow)
        } else if e.tx.gas_price == 0 {
            e.status = TxStatus::Rejected;
            Err(MempoolError::GasPriceTooLow)
        } else if e.tx.tx_type == TxType::Transfer && e.tx.amount > 0 && e.tx.recipient_did.is_none() {
            e.status = TxStatus::Rejected;
            Err(MempoolError::NoRecipient)
        } else {
            e.status = TxStatus::Validated;
            Ok(())
        };
        assert(e == PoolEntry { status: pool_verdict(oe, now, self.max_age).1, ..oe });
        self.entries.insert(*id, e);
        proof {
            assert(old(self)@.remove(id@).insert(id@, e) =~= old(self)@.insert(id@, e));
        }
        r
    }

    /// The validated transactions, highest fee priority first (ties by smaller
    /// identifier), at most `n` of them; fewer only when no other validated one is left.
    pub fn get_pending_batch(&self, n: usize) -> (out: Vec<Transaction>)
        requires
            self.wf(),
        ensures
            out@.len() <= n,
            forall|k: int|
                0 <= k < out@.len() ==> {
                    &&& self@.contains_key(#[trigger] out@[k]@.id)
                    &&& self@[out@[k]@.id].status == TxStatus::Validated
                    &&& self@[out@[k]@.id].tx@ == out@[k]@
                },
            forall|k: int, l: int|
                0 <= k < l < out@.len() ==> ranks_before(
                    self@[(#[trigger] out@[k])@.id],
                    self@[(#[trigger] out@[l])@.id],
                ),
            forall|id: Seq<u8>|
                #![trigger self@[id]]
                self@.contains_key(id) && self@[id].status == TxStatus::Validated && (forall|k: int|
                    0 <= k < out@.len() ==> (#[trigger] out@[k])@.id != id) ==> out@.len() == n
                    && forall|k: int|
                    0 <= k < out@.len() ==> ranks_before(self@[(#[trigger] out@[k])@.id], self@[id]),
    {
        let m = self.entries.len();
        let ghost ps = self.entries.pairs();
        proof {
            self.entries.lemma_wf_sorted();
            assert forall|i: int| 0 <= i < m implies (#[trigger] ps[i]).1.tx.id@ == ps[i].0 by {
                self.entries.lemma_entry(i);
            }
        }
        let mut taken: Vec<bool> = Vec::new();
        let mut t: usize = 0;
        while t < m
            invariant
                t <= m,
                taken@.len() == t,
                forall|i: int| 0 <= i < t ==> !(#[trigger] taken@[i]),
            decreases m - t,
        {
            taken.push(false);
            t = t + 1;
        }
        let mut out: Vec<Transaction> = Vec::new();
        let ghost mut chosen: Seq<int> = Seq::empty();
        while out.len() < n
            invariant
                self.wf(),
                m == ps.len(),
                ps == self.entries.pairs(),
                forall|i: int| 0 <= i < m ==> (#[trigger] ps[i]).1.tx.id@ == ps[i].0,
                taken@.len() == m,
                out@.len() <= n,
                chosen.len() == out@.len(),
                forall|k: int|
                    0 <= k < chosen.len() ==> 0 <= #[trigger] chosen[k] < m && taken@[chosen[k]]
                        && ps[chosen[k]].1.status == TxStatus::Validated && out@[k]@
                        == ps[chosen[k]].1.tx@,
                forall|i: int| 0 <= i < m && #[trigger] taken@[i] ==> exists|k: int| 0 <= k < chosen.len() && chosen[k] == i,
                forall|k: int, l: int|
                    0 <= k < l < chosen.len() ==> ranks_before(
                        ps[#[trigger] chosen[k]].1,
                        ps[#[trigger] chosen[l]].1,
                    ),
                forall|k: int, i: int|
                    0 <= k < chosen.len() && 0 <= i < m && !taken@[i] && ps[i].1.status
                        == TxStatus::Validated ==> ranks_before(ps[#[trigger] chosen[k]].1, #[trigger] ps[i].1),
                self.entries.sorted(),
            ensures
                out@.len() == n || forall|i: int|
                    0 <= i < m ==> taken@[i] || (#[trigger] ps[i]).1.status != TxStatus::Validated,
            decreases n - out@.len(),
        {
            let mut best: Option<usize> = None;
            let mut i: usize = 0;
            while i < m
                invariant
                    self.wf(),
                    m == ps.len(),
                    ps == self.entries.pairs(),
                    forall|j: int| 0 <= j < m ==> (#[trigger] ps[j]).1.tx.id@ == ps[j].0,
                    self.entries.sorted(),
                    taken@.len() == m,
                    i <= m,
                    match best {
                        Some(b) => b < i && !taken@[b as int] && ps[b as int].1.status
                            == TxStatus::Validated && forall|j: int|
                            0 <= j < i && j != b && !taken@[j] && ps[j].1.status
                                == TxStatus::Validated ==> ranks_before(ps[b as int].1, #[trigger] ps[j].1),
                        None => forall|j: int|
                            0 <= j < i ==> taken@[j] || (#[trigger] ps[j]).1.status != TxStatus::Validated,
                    },
                decreases m - i,
            {
                let e = self.entries.value_at(i);
                if !taken[i] && e.status == TxStatus::Validated {
                    let better = match best {
                        None => true,
                        Some(b) => {
                            let eb = self.entries.value_at(b);
                            e.priority > eb.priority || (e.priority == eb.priority
                                && crate::ordmap::compare_bytes(&e.tx.id, &eb.tx.id)
                                == crate::ordmap::KeyOrder::Before)
                        },
                    };
                    if better {
                        proof {
                            if let Some(b) = best {
                                assert forall|j: int|
                                    0 <= j < i + 1 && j != i && !taken@[j] && ps[j].1.status
                                        == TxStatus::Validated implies ranks_before(
                                    ps[i as int].1,
                                    #[trigger] ps[j].1,
                                ) by {
                                    if j != b {
                                        lemma_rank_trans(ps[i as int].1, ps[b as int].1, ps[j].1);
                                    }
                                }
                            }
                        }
                        best = Some(i);
                    } else {
                        proof {
                            let b = best.unwrap();
                            assert(b < i);
                            crate::ordmap::lemma_bytes_lt_irrefl(ps[b as int].0);
                            assert(ps[i as int].0 != ps[b as int].0);
                            lemma_rank_total(ps[b as int].1, ps[i as int].1);
                        }
                    }
                }
                i = i + 1;
            }
            match best {
                None => {
                    break;
                },
                Some(b) => {
                    let ghost old_taken = taken@;
                    taken.set(b, true);
                    out.push(self.entries.value_at(b).tx.duplicate());
                    proof {
                        let oc = chosen;
                        chosen = chosen.push(b as int);
                        assert forall|k: int, l: int|
                            0 <= k < l < chosen.len() implies ranks_before(
                            ps[#[trigger] chosen[k]].1,
                            ps[#[trigger] chosen[l]].1,
                        ) by {
                            if l == chosen.len() - 1 {
                                assert(oc[k] == chosen[k]);
                            } else {
                                assert(oc[k] == chosen[k]);
                                assert(oc[l] == chosen[l]);
                            }
                        }
                        assert forall|i: int| 0 <= i < m && #[trigger] taken@[i] implies exists|k: int|
                            0 <= k < chosen.len() && chosen[k] == i by {
                            if i == b {
                                assert(chosen[chosen.len() - 1] == i);
                            } else {
                                assert(old_taken[i]);
                                let k = choose|k: int| 0 <= k < oc.len() && oc[k] == i;
                                assert(chosen[k] == i);
                            }
                        }
                        assert forall|k: int, i: int|
                            0 <= k < chosen.len() && 0 <= i < m && !taken@[i] && ps[i].1.status
                                == TxStatus::Validated implies ranks_before(
                            ps[#[trigger] chosen[k]].1,
                            #[trigger] ps[i].1,
                        ) by {
                            if k < oc.len() {
                                assert(oc[k] == chosen[k]);
                                assert(!old_taken[i]);
                            }
                        }
                        assert forall|k: int|
                            0 <= k < chosen.len() implies 0 <= #[trigger] chosen[k] < m && taken@[chosen[k]]
                                && ps[chosen[k]].1.status == TxStatus::Validated && out@[k]@
                                == ps[chosen[k]].1.tx@ by {
                            if k < oc.len() {
                                assert(oc[k] == chosen[k]);
                            }
                        }
                    }
                },
            }
        }
        proof {
            assert forall|k: int| 0 <= k < out@.len() implies {
                &&& self@.contains_key(#[trigger] out@[k]@.id)
                &&& self@[out@[k]@.id].status == TxStatus::Validated
                &&& self@[out@[k]@.id].tx@ == out@[k]@
            } by {
                self.entries.lemma_entry(chosen[k]);
            }
            assert forall|k: int, l: int| 0 <= k < l < out@.len() implies ranks_before(
                self@[(#[trigger] out@[k])@.id],
                self@[(#[trigger] out@[l])@.id],
            ) by {
                self.entries.lemma_entry(chosen[k]);
                self.entries.lemma_entry(chosen[l]);
            }
            assert forall|id: Seq<u8>|
                #![trigger self@[id]]
                self@.contains_key(id) && self@[id].status == TxStatus::Validated && (forall|k: int|
                    0 <= k < out@.len() ==> (#[trigger] out@[k])@.id != id) implies out@.len() == n
                    && forall|k: int|
                    0 <= k < out@.len() ==> ranks_before(self@[(#[trigger] out@[k])@.id], self@[id]) by {
                self.entries.lemma_dom(id);
                let i = choose|i: int| 0 <= i < ps.len() && (#[trigger] ps[i]).0 == id;
                self.entries.lemma_entry(i);
                if taken@[i] {
                    let k = choose|k: int| 0 <= k < chosen.len() && chosen[k] == i;
                    assert(out@[k]@.id == id);
                }
                assert forall|k: int| 0 <= k < out@.len() implies ranks_before(
                    self@[(#[trigger] out@[k])@.id],
                    self@[id],
                ) by {
                    self.entries.lemma_entry(chosen[k]);
                }
            }
        }
        out
    }

    /// Marks a pooled transaction as included in a block.
    pub fn mark_in_block(&mut self, id: &[u8; 32])
        requires
            old(self).wf(),
        ensures
            final(self).wf(),
            final(self).spec_max_size() == old(self).spec_max_size(),
            final(self).spec_max_age() == old(self).spec_max_age(),
            !old(self)@.contains_key(id@) ==> final(self)@ == old(self)@,
            old(self)@.contains_key(id@) ==> final(self)@ == old(self)@.insert(
                id@,
                PoolEntry { status: TxStatus::InBlock, ..old(self)@[id@] },
            ),
    {
        match self.entries.remove(id) {
            None => {
                assert(old(self)@.remove(id@) =~= old(self)@);
            },
            Some(e) => {
                let mut e = e;
                e.status = TxStatus::InBlock;
                self.entries.insert(*id, e);
                proof {
                    assert(old(self)@.remove(id@).insert(id@, e) =~= old(self)@.insert(id@, e));
                }
            },
        }
    }
}

proof fn lemma_rank_trans(a: PoolEntry, b: PoolEntry, c: PoolEntry)
    requires
        ranks_before(a, b),
        ranks_before(b, c),
    ensures
        ranks_before(a, c),
{
    if a.priority == b.priority && b.priority == c.priority {
        crate::ordmap::lemma_bytes_lt_trans(a.tx.id@, b.tx.id@, c.tx.id@);
    }
}

proof fn lemma_rank_total(a: PoolEntry, b: PoolEntry)
    requires
        a.tx.id@ != b.tx.id@,
    ensures
        ranks_before(a, b) || ranks_before(b, a),
{
    crate::ordmap::lemma_bytes_lt_total(a.tx.id@, b.tx.id@);
}

/// Outcome of validating a pooled entry at time `now`, and the status it records.
pub open spec fn pool_verdict(e: PoolEntry, now: u64, max_age: u64) -> (
    Result<(), MempoolError>,
    TxStatus,
) {
    let age: int = if now >= e.added_at { now - e.added_at } else { 0 };
    if age > max_age {
        (Err(MempoolError::Expired), TxStatus::Expired)
    } else if (e.tx.gas_limit as int) < e.tx@.gas_cost() {
        (Err(MempoolError::GasLimitTooLow), TxStatus::Rejected)
    } else if e.tx.gas_price == 0 {
        (Err(MempoolError::GasPriceTooLow), TxStatus::Rejected)
    } else if e.tx.tx_type == TxType::Transfer && e.tx.amount > 0 && e.tx.recipient_did.is_none() {
        (Err(MempoolError::NoRecipient), TxStatus::Rejected)
    } else {
        (Ok(()), TxStatus::Validated)
    }
}

/// Validation accepts exactly the transactions that are fresh and well formed: an
/// entry expires once more than `max_age` has passed since it was added (never
/// before); a fresh entry is rejected when its gas limit is below its gas cost, when
/// its gas price is zero, or when it is a transfer of a positive amount to no one; and
/// is otherwise validated.
pub proof fn law_validation_verdict(e: PoolEntry, now: u64, max_age: u64)
    ensures
        now > e.added_at + max_age ==> pool_verdict(e, now, max_age) == (
            Err::<(), MempoolError>(MempoolError::Expired),
            TxStatus::Expired,
        ),
        now <= e.added_at + max_age ==> pool_verdict(e, now, max_age).0 != Err::<(), MempoolError>(
            MempoolError::Expired,
        ),
        now <= e.added_at + max_age ==> (pool_verdict(e, now, max_age).0 is Ok <==> e.tx.gas_limit
            >= e.tx@.gas_cost() && e.tx.gas_price > 0 && !(e.tx.tx_type == TxType::Transfer
            && e.tx.amount > 0 && e.tx.recipient_did is None)),
        pool_verdict(e, now, max_age).0 is Ok <==> pool_verdict(e, now, max_age).1
            == TxStatus::Validated,
{
}

} // verus!
