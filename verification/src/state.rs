//! Account state of the chain: balances, stakes and nonces, the on-chain DAO, and
//! the issued supply.
use crate::codec::{
    be128, be64, decimal, decimal_string, lp, push_bytes, push_lp, push_u128, push_u64,
};
use crate::dao_state::{
    dao_apply_spec, dao_parse, lemma_snapshot_roundtrip, DaoEffect, DaoModel, DaoState,
    EffectModel,
};
use crate::economics::{
    block_reward_base_units, spec_block_reward_base_units, ATC_BASE_UNITS, MAX_ATC_SUPPLY,
    MAX_SUPPLY,
};
use crate::hashing::{sha256_of, simple_hash};
use crate::mempool::{utf8, MempoolError, Transaction, TxModel, TxType};
use crate::ordmap::{map_of, OrdMap};
use vstd::prelude::*;

verus! {

/// Balance, stake and transaction count of one account.
#[derive(Clone, Copy, Debug, PartialEq, Eq, Structural)]
pub struct Account {
    pub balance: u64,
    pub staked: u64,
    pub nonce: u64,
}

pub open spec fn empty_account() -> Account {
    Account { balance: 0, staked: 0, nonce: 0 }
}

/// The account stored for `id`, or an empty one.
pub open spec fn account_of(m: Map<Seq<char>, Account>, id: Seq<char>) -> Account {
    if m.contains_key(id) {
        m[id]
    } else {
        empty_account()
    }
}

/// What an account holds: its balance and its stake.
pub open spec fn weight(a: Account) -> int {
    a.balance + a.staked
}

/// Everything the listed accounts hold.
pub open spec fn holdings(s: Seq<(Seq<char>, Account)>) -> int
    decreases s.len(),
{
    if s.len() == 0 {
        0
    } else {
        holdings(s.drop_last()) + weight(s.last().1)
    }
}

/// The listed accounts as committed to by the state root: each id with its length,
/// then balance, stake and nonce.
pub open spec fn accounts_bytes(s: Seq<(Seq<char>, Account)>) -> Seq<u8>
    decreases s.len(),
{
    if s.len() == 0 {
        Seq::empty()
    } else {
        accounts_bytes(s.drop_last()) + lp(utf8(s.last().0)) + be64(s.last().1.balance) + be64(
            s.last().1.staked,
        ) + be64(s.last().1.nonce)
    }
}

/// `x`, or `u64::MAX` where it is larger.
pub open spec fn capped(x: int) -> u64 {
    if x > u64::MAX {
        u64::MAX
    } else {
        x as u64
    }
}

/// The bytes whose hash is the state root.
pub open spec fn state_root_preimage(
    accounts_root: Seq<u8>,
    supply: u64,
    issued: u128,
    dao_root: Seq<u8>,
) -> Seq<u8> {
    utf8("ATC-STATE-V2"@) + accounts_root + be64(supply) + be128(issued) + dao_root
}

pub proof fn lemma_holdings_nonneg(s: Seq<(Seq<char>, Account)>)
    ensures
        holdings(s) >= 0,
    decreases s.len(),
{
    if s.len() > 0 {
        lemma_holdings_nonneg(s.drop_last());
    }
}

/// A prefix of the list holds at most what the whole list holds.
pub proof fn lemma_holdings_prefix(s: Seq<(Seq<char>, Account)>, i: int)
    requires
        0 <= i <= s.len(),
    ensures
        holdings(s.take(i)) <= holdings(s),
    decreases s.len(),
{
    if i < s.len() {
        let t = s.drop_last();
        assert(t.take(i) =~= s.take(i));
        lemma_holdings_prefix(t, i);
    } else {
        assert(s.take(i) =~= s);
    }
}

proof fn lemma_holdings_step(s: Seq<(Seq<char>, Account)>, i: int)
    requires
        0 <= i < s.len(),
    ensures
        holdings(s.take(i + 1)) == holdings(s.take(i)) + weight(s[i].1),
{
    assert(s.take(i + 1).drop_last() =~= s.take(i));
}

/// Each listed account holds at most what the list holds.
pub proof fn lemma_holdings_entry(s: Seq<(Seq<char>, Account)>, i: int)
    requires
        0 <= i < s.len(),
    ensures
        weight(s[i].1) <= holdings(s),
{
    lemma_holdings_step(s, i);
    lemma_holdings_prefix(s, i + 1);
    lemma_holdings_nonneg(s.take(i));
}

/// Replacing one entry changes the holdings by the difference of the two accounts.
pub proof fn lemma_holdings_update(s: Seq<(Seq<char>, Account)>, i: int, x: (Seq<char>, Account))
    requires
        0 <= i < s.len(),
    ensures
        holdings(s.update(i, x)) == holdings(s) - weight(s[i].1) + weight(x.1),
    decreases s.len(),
{
    let u = s.update(i, x);
    if i == s.len() - 1 {
        assert(u.drop_last() =~= s.drop_last());
    } else {
        assert(u.drop_last() =~= s.drop_last().update(i, x));
        lemma_holdings_update(s.drop_last(), i, x);
    }
}

/// Adding one entry adds what its account holds.
pub proof fn lemma_holdings_insert(s: Seq<(Seq<char>, Account)>, i: int, x: (Seq<char>, Account))
    requires
        0 <= i <= s.len(),
    ensures
        holdings(s.insert(i, x)) == holdings(s) + weight(x.1),
    decreases s.len(),
{
    let u = s.insert(i, x);
    if i == s.len() {
        assert(u.drop_last() =~= s);
    } else {
        assert(u.drop_last() =~= s.drop_last().insert(i, x));
        lemma_holdings_insert(s.drop_last(), i, x);
    }
}

/// The accounts, the DAO, whether genesis is sealed, and the issued base units.
pub struct StateModel {
    pub accounts: Map<Seq<char>, Account>,
    pub dao: DaoModel,
    pub genesis_sealed: bool,
    pub issued: u128,
}

/// The DAO restored from a snapshot, or `fallback` where the snapshot does not decode.
pub open spec fn reloaded(snapshot: Seq<u8>, fallback: DaoModel) -> DaoModel {
    match dao_parse(snapshot) {
        Ok(m) => m,
        Err(_) => fallback,
    }
}

/// Outcome of a DAO payload: the DAO runs it with the sender's stake as voting power;
/// a deposit is taken from the sender's balance and a payout credited to its
/// recipient. A refused payload or deposit restores the DAO from `snapshot`; an
/// overflowing payout keeps the DAO as the payload left it.
pub open spec fn dao_payload_outcome(
    s: StateModel,
    snapshot: Seq<u8>,
    payload: Seq<u8>,
    block: u64,
    sender: Seq<char>,
) -> (StateModel, Result<(), Seq<char>>) {
    let power = account_of(s.accounts, sender).staked;
    let (d1, res) = dao_apply_spec(s.dao, payload, block, sender, power);
    match res {
        Err(e) => (StateModel { dao: reloaded(snapshot, d1), ..s }, Err(e)),
        Ok(None) => (StateModel { dao: d1, ..s }, Ok(())),
        Ok(Some(EffectModel::TreasuryDeposit { amount })) => {
            let x = account_of(s.accounts, sender);
            if x.balance < amount {
                (
                    StateModel { dao: reloaded(snapshot, d1), ..s },
                    Err("insufficient balance for DAO treasury deposit"@),
                )
            } else {
                (
                    StateModel {
                        dao: d1,
                        accounts: s.accounts.insert(
                            sender,
                            Account { balance: (x.balance - amount) as u64, ..x },
                        ),
                        ..s
                    },
                    Ok(()),
                )
            }
        },
        Ok(Some(EffectModel::TreasuryPayout { recipient, amount })) => {
            let x = account_of(s.accounts, recipient);
            if x.balance + amount > u64::MAX {
                (StateModel { dao: d1, ..s }, Err("recipient balance overflow"@))
            } else {
                (
                    StateModel {
                        dao: d1,
                        accounts: s.accounts.insert(
                            recipient,
                            Account { balance: (x.balance + amount) as u64, ..x },
                        ),
                        ..s
                    },
                    Ok(()),
                )
            }
        },
    }
}

/// What one transaction does to the accounts: the sender's nonce must match; the
/// sender pays the maximal fee and, for a transfer, the amount, which the recipient
/// receives; a stake moves balance into stake, an unstake moves it back minus the fee;
/// a contract call pays the fee and needs the amount on top of it.
pub open spec fn tx_effect(a: Map<Seq<char>, Account>, tx: TxModel) -> Result<
    Map<Seq<char>, Account>,
    MempoolError,
> {
    let s = account_of(a, tx.sender);
    let fee = tx.max_fee();
    if s.nonce != tx.nonce {
        Err(MempoolError::InvalidNonce { expected: s.nonce, got: tx.nonce })
    } else {
        match tx.tx_type {
            TxType::Transfer => {
                let debit = capped(tx.amount + fee);
                if s.balance < debit {
                    Err(MempoolError::InsufficientBalance)
                } else {
                    let a1 = a.insert(
                        tx.sender,
                        Account { balance: (s.balance - debit) as u64, nonce: (s.nonce + 1) as u64, ..s },
                    );
                    match tx.recipient {
                        None => Err(MempoolError::NoRecipient),
                        Some(r) => {
                            let x = account_of(a1, r);
                            if x.balance + tx.amount > u64::MAX {
                                Err(MempoolError::InsufficientBalance)
                            } else {
                                Ok(
                                    a1.insert(
                                        r,
                                        Account { balance: (x.balance + tx.amount) as u64, ..x },
                                    ),
                                )
                            }
                        },
                    }
                }
            },
            TxType::Contract => {
                if s.balance < capped(fee + tx.amount) {
                    Err(MempoolError::InsufficientBalance)
                } else {
                    Ok(
                        a.insert(
                            tx.sender,
                            Account {
                                balance: (s.balance - fee) as u64,
                                nonce: (s.nonce + 1) as u64,
                                ..s
                            },
                        ),
                    )
                }
            },
            TxType::Stake => {
                let cost = capped(tx.amount + fee);
                if s.balance < cost {
                    Err(MempoolError::InsufficientBalance)
                } else if s.staked + tx.amount > u64::MAX {
                    Err(MempoolError::InsufficientStake)
                } else {
                    Ok(
                        a.insert(
                            tx.sender,
                            Account {
                                balance: (s.balance - cost) as u64,
                                staked: (s.staked + tx.amount) as u64,
                                nonce: (s.nonce + 1) as u64,
                            },
                        ),
                    )
                }
            },
            TxType::Unstake => {
                if s.staked < tx.amount || s.balance < fee {
                    Err(MempoolError::InsufficientStake)
                } else if s.balance + tx.amount > u64::MAX {
                    Err(MempoolError::InsufficientBalance)
                } else {
                    Ok(
                        a.insert(
                            tx.sender,
                            Account {
                                balance: (s.balance + tx.amount - fee) as u64,
                                staked: (s.staked - tx.amount) as u64,
                                nonce: (s.nonce + 1) as u64,
                            },
                        ),
                    )
                }
            },
        }
    }
}

/// The accounts a refused transaction leaves in the map it was applied to: a transfer
/// refused for its recipient has already debited its sender; every other refusal
/// leaves the accounts as they were.
pub open spec fn refused_accounts(a: Map<Seq<char>, Account>, tx: TxModel) -> Map<Seq<char>, Account> {
    let s = account_of(a, tx.sender);
    let debit = capped(tx.amount + tx.max_fee());
    if s.nonce == tx.nonce && tx.tx_type == TxType::Transfer && s.balance >= debit {
        a.insert(
            tx.sender,
            Account { balance: (s.balance - debit) as u64, nonce: (s.nonce + 1) as u64, ..s },
        )
    } else {
        a
    }
}

/// Whether applying `tx` to `a` stays in range: a transaction whose nonce is the one
/// its sender expects must leave room for the next nonce.
pub open spec fn nonce_fits(a: Map<Seq<char>, Account>, tx: TxModel) -> bool {
    account_of(a, tx.sender).nonce == tx.nonce ==> tx.nonce < u64::MAX
}

/// Whether applying a batch in order stays in range: each transaction reached fits
/// the accounts left by those before it.
pub open spec fn batch_fits(a: Map<Seq<char>, Account>, txs: Seq<TxModel>) -> bool
    decreases txs.len(),
{
    txs.len() == 0 || (batch_fits(a, txs.drop_last()) && (batch_effect(a, txs.drop_last()) matches Ok(
        m,
    ) ==> nonce_fits(m, txs.last())))
}

/// A batch whose nonces all leave room for a next one fits.
pub proof fn lemma_batch_fits(a: Map<Seq<char>, Account>, txs: Seq<TxModel>)
    requires
        forall|i: int| 0 <= i < txs.len() ==> (#[trigger] txs[i]).nonce < u64::MAX,
    ensures
        batch_fits(a, txs),
    decreases txs.len(),
{
    if txs.len() > 0 {
        let t = txs.drop_last();
        assert forall|i: int| 0 <= i < t.len() implies (#[trigger] t[i]).nonce < u64::MAX by {
            assert(t[i] == txs[i]);
        }
        lemma_batch_fits(a, t);
        assert(txs.last() == txs[txs.len() - 1]);
    }
}

/// A batch refused before it reaches any transaction that does not fit fits.
proof fn lemma_batch_fits_after_refusal(a: Map<Seq<char>, Account>, txs: Seq<TxModel>, k: int)
    requires
        0 <= k <= txs.len(),
        batch_fits(a, txs.take(k)),
        batch_effect(a, txs.take(k)) is Err,
    ensures
        batch_fits(a, txs),
    decreases txs.len() - k,
{
    if k == txs.len() {
        assert(txs.take(k) =~= txs);
    } else {
        let t = txs.take(k + 1);
        assert(t.drop_last() =~= txs.take(k));
        lemma_batch_refused(a, txs, k);
        assert(batch_effect(a, t) is Err) by {
            lemma_batch_refused(a, t, k);
            assert(t.take(k) =~= txs.take(k));
        }
        assert(txs.take(k + 1).take(k + 1) =~= t);
        lemma_batch_fits_after_refusal(a, txs, k + 1);
    }
}

/// A prefix of a batch that fits fits.
proof fn lemma_batch_fits_prefix(a: Map<Seq<char>, Account>, txs: Seq<TxModel>, i: int)
    requires
        0 <= i <= txs.len(),
        batch_fits(a, txs),
    ensures
        batch_fits(a, txs.take(i)),
    decreases txs.len(),
{
    if i == txs.len() {
        assert(txs.take(i) =~= txs);
    } else {
        let t = txs.drop_last();
        assert(t.take(i) =~= txs.take(i));
        lemma_batch_fits_prefix(a, t, i);
    }
}

/// The transactions applied in order; the first refusal refuses the whole batch.
pub open spec fn batch_effect(a: Map<Seq<char>, Account>, txs: Seq<TxModel>) -> Result<
    Map<Seq<char>, Account>,
    MempoolError,
>
    decreases txs.len(),
{
    if txs.len() == 0 {
        Ok(a)
    } else {
        match batch_effect(a, txs.drop_last()) {
            Err(e) => Err(e),
            Ok(a1) => tx_effect(a1, txs.last()),
        }
    }
}

pub open spec fn tx_models(txs: Seq<Transaction>) -> Seq<TxModel> {
    txs.map_values(|t: Transaction| t@)
}

/// The accounts, DAO, genesis seal and issued supply of the chain.
#[derive(Debug)]
pub struct StateDb {
    accounts: OrdMap<String, Account>,
    dao: DaoState,
    genesis_sealed: bool,
    issued_base_units: u128,
}

impl View for StateDb {
    type V = StateModel;

    closed spec fn view(&self) -> StateModel {
        StateModel {
            accounts: self.accounts@,
            dao: self.dao@,
            genesis_sealed: self.genesis_sealed,
            issued: self.issued_base_units,
        }
    }
}

impl StateDb {
    pub closed spec fn wf(&self) -> bool {
        &&& self.accounts.wf()
        &&& self.dao.wf()
        &&& self.issued_base_units <= MAX_SUPPLY
    }

    /// The accounts in the order of their ids.
    pub closed spec fn account_list(&self) -> Seq<(Seq<char>, Account)> {
        self.accounts.pairs()
    }

    /// Everything all accounts hold.
    pub open spec fn total_holdings(&self) -> int {
        holdings(self.account_list())
    }

    /// The snapshot bytes of the DAO.
    pub closed spec fn dao_bytes(&self) -> Seq<u8> {
        self.dao.encoding()
    }

    /// Every count and string of the DAO fits its snapshot encoding.
    pub closed spec fn dao_fits(&self) -> bool {
        self.dao.fits()
    }

    /// Well-formed states with the same model list the same accounts and have the
    /// same DAO snapshot bytes.
    pub proof fn lemma_same_model(&self, other: &StateDb)
        requires
            self.wf(),
            other.wf(),
            self@ == other@,
        ensures
            self.account_list() == other.account_list(),
            self.dao_bytes() == other.dao_bytes(),
    {
        self.accounts.lemma_same_view(&other.accounts);
        self.dao.lemma_same_model_encoding(&other.dao);
    }

    /// The listed accounts are the accounts of the state, each once, in id order.
    pub proof fn lemma_account_list(&self)
        requires
            self.wf(),
        ensures
            map_of(self.account_list()) == self@.accounts,
            self@.accounts.len() == self.account_list().len(),
            forall|i: int|
                0 <= i < self.account_list().len() ==> self@.accounts.contains_key(
                    (#[trigger] self.account_list()[i]).0,
                ) && self@.accounts[self.account_list()[i].0] == self.account_list()[i].1,
            forall|id: Seq<char>| #[trigger]
                self@.accounts.contains_key(id) ==> exists|i: int|
                    0 <= i < self.account_list().len() && (#[trigger] self.account_list()[i]).0
                        == id,
    {
        self.accounts.lemma_len();
        assert forall|i: int| 0 <= i < self.account_list().len() implies self@.accounts.contains_key(
            (#[trigger] self.account_list()[i]).0,
        ) && self@.accounts[self.account_list()[i].0] == self.account_list()[i].1 by {
            self.accounts.lemma_entry(i);
        }
        assert forall|id: Seq<char>| #[trigger] self@.accounts.contains_key(id) implies exists|i: int|
            0 <= i < self.account_list().len() && (#[trigger] self.account_list()[i]).0 == id by {
            self.accounts.lemma_dom(id);
            let i = choose|i: int|
                0 <= i < self.accounts.pairs().len() && (#[trigger] self.accounts.pairs()[i]).0
                    == id;
            assert(self.account_list()[i].0 == id);
        }
    }

    /// A DAO that fits its snapshot encoding reads back from it unchanged.
    pub proof fn lemma_dao_snapshot_reloads(&self)
        requires
            self.wf(),
            self.dao_fits(),
        ensures
            dao_parse(self.dao_bytes()) == Ok::<DaoModel, Seq<char>>(self@.dao),
    {
        lemma_snapshot_roundtrip(self.dao);
    }

    /// The issued supply never exceeds the cap.
    pub proof fn lemma_issued_within_cap(&self)
        requires
            self.wf(),
        ensures
            self@.issued <= MAX_SUPPLY,
    {
    }

    /// Every account holds at most what all accounts hold.
    pub proof fn lemma_account_within_holdings(&self, id: Seq<char>)
        requires
            self.wf(),
        ensures
            weight(account_of(self@.accounts, id)) <= self.total_holdings(),
    {
        self.lemma_account_list();
        lemma_holdings_nonneg(self.account_list());
        if self@.accounts.contains_key(id) {
            let i = choose|i: int|
                0 <= i < self.account_list().len() && (#[trigger] self.account_list()[i]).0 == id;
            lemma_holdings_entry(self.account_list(), i);
        }
    }

    /// An empty state: no accounts, an empty DAO with quorum 1 and a 50% approval
    /// threshold, genesis open, nothing issued.
    pub fn new() -> (s: Self)
        ensures
            s.wf(),
            s@.accounts == Map::<Seq<char>, Account>::empty(),
            s.account_list().len() == 0,
            s@.dao.proposals.is_empty(),
            s@.dao.votes.is_empty(),
            s@.dao.allocations.is_empty(),
            s@.dao.timelocks.is_empty(),
            s@.dao.treasury == 0,
            s@.dao.quorum == 1,
            s@.dao.approval_bps == 5000,
            !s@.genesis_sealed,
            s@.issued == 0,
    {
        let dao = DaoState {
            proposals: OrdMap::new(),
            votes: OrdMap::new(),
            treasury: 0,
            allocations: OrdMap::new(),
            timelocks: OrdMap::new(),
            quorum: 1,
            approval_bps: 5000,
        };
        let s = StateDb {
            accounts: OrdMap::new(),
            dao,
            genesis_sealed: false,
            issued_base_units: 0,
        };
        assert(s@.dao.proposals =~= Map::empty());
        s
    }
}


/// A result without a value, its error taken by its text.
pub open spec fn unit_result(r: Result<(), String>) -> Result<(), Seq<char>> {
    match r {
        Ok(_) => Ok(()),
        Err(e) => Err(e@),
    }
}

/// The refusal of a genesis allocation that would pass the supply cap.
pub open spec fn cap_exceeded_text(new_supply: nat) -> Seq<char> {
    "ATC supply cap exceeded: "@ + decimal(new_supply) + " > "@ + decimal(MAX_ATC_SUPPLY as nat)
}

/// Outcome of crediting `n` to `id` at genesis, where the accounts hold `h`.
pub open spec fn genesis_outcome(s: StateModel, h: int, id: Seq<char>, n: u64) -> (
    StateModel,
    Result<(), Seq<char>>,
) {
    if s.genesis_sealed {
        (s, Err("genesis allocation is sealed"@))
    } else if h + n > u64::MAX {
        (s, Err("supply overflow"@))
    } else if h + n > MAX_ATC_SUPPLY {
        (s, Err(cap_exceeded_text((h + n) as nat)))
    } else {
        let x = account_of(s.accounts, id);
        (
            StateModel {
                accounts: s.accounts.insert(id, Account { balance: (x.balance + n) as u64, ..x }),
                issued: ((h + n) * ATC_BASE_UNITS) as u128,
                ..s
            },
            Ok(()),
        )
    }
}

/// Outcome of the block reward of `height` paid to `recipient`: the reward that the
/// monetary policy leaves room for, credited in whole ATC and counted in base units.
pub open spec fn reward_outcome(s: StateModel, height: u64, recipient: Seq<char>) -> (
    StateModel,
    Result<u64, Seq<char>>,
) {
    let reward = spec_block_reward_base_units(height, s.issued);
    let whole = reward / ATC_BASE_UNITS;
    let x = account_of(s.accounts, recipient);
    if reward == 0 {
        (s, Ok(0))
    } else if whole > u64::MAX {
        (s, Err("block reward exceeds account balance range"@))
    } else if s.issued + reward > u128::MAX {
        (s, Err("issued supply overflow"@))
    } else if s.issued + reward > MAX_SUPPLY {
        (s, Err("issued supply cap exceeded"@))
    } else if x.balance + whole > u64::MAX {
        (s, Err("reward balance overflow"@))
    } else {
        (
            StateModel {
                accounts: s.accounts.insert(
                    recipient,
                    Account { balance: (x.balance + whole) as u64, ..x },
                ),
                issued: (s.issued + reward) as u128,
                ..s
            },
            Ok(whole as u64),
        )
    }
}

proof fn lemma_insert_holdings(
    a0: OrdMap<String, Account>,
    a1: OrdMap<String, Account>,
    k: Seq<char>,
    v: Account,
)
    requires
        a0.wf(),
        a1@ == a0@.insert(k, v),
        a0@.contains_key(k) ==> exists|i: int|
            0 <= i < a0.pairs().len() && a0.pairs()[i].0 == k && #[trigger] a1.pairs()
                == a0.pairs().update(i, (k, v)),
        !a0@.contains_key(k) ==> exists|i: int|
            0 <= i <= a0.pairs().len() && #[trigger] a1.pairs() == a0.pairs().insert(i, (k, v)),
    ensures
        holdings(a1.pairs()) == holdings(a0.pairs()) - weight(account_of(a0@, k)) + weight(v),
{
    if a0@.contains_key(k) {
        let i = choose|i: int|
            0 <= i < a0.pairs().len() && a0.pairs()[i].0 == k && #[trigger] a1.pairs()
                == a0.pairs().update(i, (k, v));
        a0.lemma_entry(i);
        lemma_holdings_update(a0.pairs(), i, (k, v));
    } else {
        let i = choose|i: int|
            0 <= i <= a0.pairs().len() && #[trigger] a1.pairs() == a0.pairs().insert(i, (k, v));
        lemma_holdings_insert(a0.pairs(), i, (k, v));
    }
}

impl StateDb {
    fn account(&self, id: &String) -> (a: Account)
        requires
            self.wf(),
        ensures
            a == account_of(self@.accounts, id@),
    {
        match self.accounts.get(id) {
            Some(a) => *a,
            None => Account { balance: 0, staked: 0, nonce: 0 },
        }
    }

    /// Everything the accounts hold, or `None` where it passes `u64::MAX`.
    fn checked_supply(&self) -> (r: Option<u64>)
        requires
            self.wf(),
        ensures
            match r {
                Some(v) => v == self.total_holdings(),
                None => self.total_holdings() > u64::MAX,
            },
    {
        let ghost s = self.account_list();
        let n = self.accounts.len();
        let mut acc: u64 = 0;
        let mut i: usize = 0;
        assert(s.take(0) =~= Seq::<(Seq<char>, Account)>::empty());
        while i < n
            invariant
                s == self.account_list(),
                n == s.len(),
                self.wf(),
                i <= n,
                acc == holdings(s.take(i as int)),
            decreases n - i,
        {
            let a = *self.accounts.value_at(i);
            proof {
                lemma_holdings_step(s, i as int);
                lemma_holdings_prefix(s, i as int + 1);
            }
            let x = match acc.checked_add(a.balance) {
                Some(x) => x,
                None => return None,
            };
            acc = match x.checked_add(a.staked) {
                Some(y) => y,
                None => return None,
            };
            i = i + 1;
        }
        assert(s.take(n as int) =~= s);
        Some(acc)
    }

    /// Everything the accounts hold, saturating at `u64::MAX`.
    pub fn total_supply(&self) -> (t: u64)
        requires
            self.wf(),
        ensures
            t == capped(self.total_holdings()),
    {
        let ghost s = self.account_list();
        let n = self.accounts.len();
        let mut acc: u64 = 0;
        let mut i: usize = 0;
        assert(s.take(0) =~= Seq::<(Seq<char>, Account)>::empty());
        while i < n
            invariant
                s == self.account_list(),
                n == s.len(),
                self.wf(),
                i <= n,
                acc == capped(holdings(s.take(i as int))),
            decreases n - i,
        {
            let a = *self.accounts.value_at(i);
            proof {
                lemma_holdings_step(s, i as int);
                lemma_holdings_nonneg(s.take(i as int));
            }
            acc = acc.saturating_add(a.balance).saturating_add(a.staked);
            i = i + 1;
        }
        assert(s.take(n as int) =~= s);
        acc
    }

    /// The balance of `id`, zero for an unknown account.
    pub fn balance(&self, id: &str) -> (b: u64)
        requires
            self.wf(),
        ensures
            b == account_of(self@.accounts, id@).balance,
    {
        self.account(&id.to_string()).balance
    }

    /// The nonce of `id`, zero for an unknown account.
    pub fn nonce(&self, id: &str) -> (n: u64)
        requires
            self.wf(),
        ensures
            n == account_of(self@.accounts, id@).nonce,
    {
        self.account(&id.to_string()).nonce
    }

    /// The stake of `id`, zero for an unknown account.
    pub fn staked(&self, id: &str) -> (n: u64)
        requires
            self.wf(),
        ensures
            n == account_of(self@.accounts, id@).staked,
    {
        self.account(&id.to_string()).staked
    }

    /// The issued supply in base units.
    pub fn issued_base_units(&self) -> (n: u128)
        ensures
            n == self@.issued,
    {
        self.issued_base_units
    }

    /// Ends genesis: no genesis allocation is accepted afterwards.
    pub fn seal_genesis(&mut self)
        requires
            old(self).wf(),
        ensures
            final(self).wf(),
            final(self)@ == (StateModel { genesis_sealed: true, ..old(self)@ }),
            final(self).account_list() == old(self).account_list(),
            final(self).dao_bytes() == old(self).dao_bytes(),
    {
        self.genesis_sealed = true;
    }

    /// Sets the issued supply, as recovered from storage; it may not pass the cap.
    pub fn restore_issued_base_units(&mut self, issued: u128) -> (r: Result<(), String>)
        requires
            old(self).wf(),
        ensures
            final(self).wf(),
            issued > MAX_SUPPLY ==> (r matches Err(e) && e@ == "issued supply cap exceeded"@)
                && final(self)@ == old(self)@,
            issued <= MAX_SUPPLY ==> r is Ok && final(self)@ == (StateModel {
                issued,
                ..old(self)@
            }),
            final(self).account_list() == old(self).account_list(),
            final(self).dao_bytes() == old(self).dao_bytes(),
    {
        if issued > MAX_SUPPLY {
            return Err("issued supply cap exceeded".to_string());
        }
        self.issued_base_units = issued;
        Ok(())
    }

    /// Credits `n` ATC to `id` before genesis is sealed, keeping the total supply within
    /// the cap; the issued supply becomes the new total in base units.
    pub fn genesis_credit(&mut self, id: &str, n: u64) -> (r: Result<(), String>)
        requires
            old(self).wf(),
        ensures
            final(self).wf(),
            final(self)@ == genesis_outcome(old(self)@, old(self).total_holdings(), id@, n).0,
            unit_result(r) == genesis_outcome(old(self)@, old(self).total_holdings(), id@, n).1,
            r is Ok ==> final(self).total_holdings() == old(self).total_holdings() + n,
            r is Err ==> final(self).account_list() == old(self).account_list(),
            final(self).dao_bytes() == old(self).dao_bytes(),
    {
        if self.genesis_sealed {
            return Err("genesis allocation is sealed".to_string());
        }
        let current = match self.checked_supply() {
            Some(c) => c,
            None => return Err("supply overflow".to_string()),
        };
        let new_supply = match current.checked_add(n) {
            Some(x) => x,
            None => return Err("supply overflow".to_string()),
        };
        if new_supply > MAX_ATC_SUPPLY {
            let mut msg = "ATC supply cap exceeded: ".to_string();
            msg.append(decimal_string(new_supply).as_str());
            msg.append(" > ");
            msg.append(decimal_string(MAX_ATC_SUPPLY).as_str());
            return Err(msg);
        }
        let key = id.to_string();
        let x = self.account(&key);
        proof {
            self.lemma_account_within_holdings(id@);
        }
        let ghost a0 = self.accounts;
        let updated = Account { balance: x.balance + n, ..x };
        self.issued_base_units = (new_supply as u128) * ATC_BASE_UNITS;
        self.accounts.insert(key, updated);
        proof {
            lemma_insert_holdings(a0, self.accounts, id@, updated);
        }
        Ok(())
    }

    /// Pays the block reward of `height` to `recipient`: the reward of the monetary
    /// policy, bounded by what the cap leaves, credited in whole ATC.
    pub fn apply_block_reward(&mut self, height: u64, recipient: &str) -> (r: Result<u64, String>)
        requires
            old(self).wf(),
        ensures
            final(self).wf(),
            final(self)@ == reward_outcome(old(self)@, height, recipient@).0,
            match reward_outcome(old(self)@, height, recipient@).1 {
                Ok(v) => r == Ok::<u64, String>(v),
                Err(m) => r matches Err(e) && e@ == m,
            },
            r is Err ==> final(self).account_list() == old(self).account_list(),
            final(self).dao_bytes() == old(self).dao_bytes(),
    {
        let reward = block_reward_base_units(height, self.issued_base_units);
        if reward == 0 {
            return Ok(0);
        }
        let whole = reward / ATC_BASE_UNITS;
        if whole > u64::MAX as u128 {
            return Err("block reward exceeds account balance range".to_string());
        }
        let new_issued = match self.issued_base_units.checked_add(reward) {
            Some(v) => v,
            None => return Err("issued supply overflow".to_string()),
        };
        if new_issued > MAX_SUPPLY {
            return Err("issued supply cap exceeded".to_string());
        }
        let key = recipient.to_string();
        let x = self.account(&key);
        let balance = match x.balance.checked_add(whole as u64) {
            Some(b) => b,
            None => return Err("reward balance overflow".to_string()),
        };
        self.accounts.insert(key, Account { balance, ..x });
        self.issued_base_units = new_issued;
        Ok(whole as u64)
    }

    /// Takes up to `amount` from the stake of `id`, giving back what was taken.
    pub fn slash_stake(&mut self, id: &str, amount: u64) -> (r: Result<u64, String>)
        requires
            old(self).wf(),
        ensures
            final(self).wf(),
            amount == 0 ==> (r matches Err(e) && e@ == "slash amount must be non-zero"@)
                && final(self)@ == old(self)@,
            amount > 0 && !old(self)@.accounts.contains_key(id@) ==> (r matches Err(e) && e@
                == "validator account not found"@) && final(self)@ == old(self)@,
            amount > 0 && old(self)@.accounts.contains_key(id@) ==> ({
                let x = old(self)@.accounts[id@];
                let applied = if amount < x.staked { amount } else { x.staked };
                &&& r == Ok::<u64, String>(applied)
                &&& final(self)@ == (StateModel {
                    accounts: old(self)@.accounts.insert(
                        id@,
                        Account { staked: (x.staked - applied) as u64, ..x },
                    ),
                    ..old(self)@
                })
            }),
            r is Err ==> final(self).account_list() == old(self).account_list(),
            final(self).dao_bytes() == old(self).dao_bytes(),
    {
        if amount == 0 {
            return Err("slash amount must be non-zero".to_string());
        }
        let key = id.to_string();
        let x = match self.accounts.get(&key) {
            Some(a) => *a,
            None => return Err("validator account not found".to_string()),
        };
        let applied = if amount < x.staked {
            amount
        } else {
            x.staked
        };
        self.accounts.insert(key, Account { staked: x.staked - applied, ..x });
        Ok(applied)
    }
}


impl StateDb {
    fn accounts_encoding(&self) -> (o: Vec<u8>)
        requires
            self.wf(),
        ensures
            o@ == accounts_bytes(self.account_list()),
    {
        let ghost s = self.account_list();
        let n = self.accounts.len();
        let mut o: Vec<u8> = Vec::new();
        let mut i: usize = 0;
        assert(s.take(0) =~= Seq::<(Seq<char>, Account)>::empty());
        while i < n
            invariant
                s == self.account_list(),
                n == s.len(),
                i <= n,
                o@ == accounts_bytes(s.take(i as int)),
            decreases n - i,
        {
            let k = self.accounts.key_at(i);
            let a = *self.accounts.value_at(i);
            push_lp(&mut o, k.as_str().as_bytes());
            push_u64(&mut o, a.balance);
            push_u64(&mut o, a.staked);
            push_u64(&mut o, a.nonce);
            proof {
                assert(s.take(i as int + 1).drop_last() =~= s.take(i as int));
            }
            i = i + 1;
        }
        assert(s.take(n as int) =~= s);
        o
    }

    /// Commitment to the whole state: the accounts in id order, the total supply, the
    /// issued base units and the DAO root, under a domain tag.
    pub fn root(&self) -> (r: [u8; 32])
        requires
            self.wf(),
        ensures
            r@ == sha256_of(
                state_root_preimage(
                    sha256_of(accounts_bytes(self.account_list())),
                    capped(self.total_holdings()),
                    self@.issued,
                    sha256_of(self.dao_bytes()),
                ),
            ),
    {
        let accounts = self.accounts_encoding();
        let account_root = simple_hash(accounts.as_slice());
        let supply = self.total_supply();
        let dao_root = self.dao.root();
        let mut combined: Vec<u8> = Vec::new();
        push_bytes(&mut combined, "ATC-STATE-V2".as_bytes());
        push_bytes(&mut combined, &account_root);
        push_u64(&mut combined, supply);
        push_u128(&mut combined, self.issued_base_units);
        push_bytes(&mut combined, &dao_root);
        simple_hash(combined.as_slice())
    }

    /// Snapshot bytes of the DAO.
    pub fn dao_snapshot(&self) -> (o: Vec<u8>)
        requires
            self.wf(),
        ensures
            o@ == self.dao_bytes(),
    {
        self.dao.encode()
    }

    /// Replaces the DAO by the one that `bytes` encode; refused bytes change nothing.
    pub fn restore_dao(&mut self, bytes: &[u8]) -> (r: Result<(), String>)
        requires
            old(self).wf(),
        ensures
            final(self).wf(),
            match dao_parse(bytes@) {
                Ok(m) => r is Ok && final(self)@ == (StateModel { dao: m, ..old(self)@ }),
                Err(e) => (r matches Err(x) && x@ == e) && final(self)@ == old(self)@
                    && final(self).dao_bytes() == old(self).dao_bytes(),
            },
            final(self).account_list() == old(self).account_list(),
    {
        let d = DaoState::decode(bytes)?;
        self.dao = d;
        Ok(())
    }

    /// A copy of the accounts.
    pub fn snapshot(&self) -> (m: OrdMap<String, Account>)
        requires
            self.wf(),
        ensures
            m.wf(),
            m@ == self@.accounts,
            m.pairs() == self.account_list(),
    {
        self.accounts.duplicate()
    }

    /// Puts back accounts taken by `snapshot`.
    pub fn restore(&mut self, snapshot: OrdMap<String, Account>)
        requires
            old(self).wf(),
            snapshot.wf(),
        ensures
            final(self).wf(),
            final(self)@ == (StateModel { accounts: snapshot@, ..old(self)@ }),
            final(self).account_list() == snapshot.pairs(),
            final(self).dao_bytes() == old(self).dao_bytes(),
    {
        self.accounts = snapshot;
    }
}


/// A refusal inside a batch refuses every longer batch with the same error.
proof fn lemma_batch_refused(a: Map<Seq<char>, Account>, txs: Seq<TxModel>, i: int)
    requires
        0 <= i <= txs.len(),
        batch_effect(a, txs.take(i)) is Err,
    ensures
        batch_effect(a, txs) == batch_effect(a, txs.take(i)),
    decreases txs.len(),
{
    if i == txs.len() {
        assert(txs.take(i) =~= txs);
    } else {
        let t = txs.drop_last();
        assert(t.take(i) =~= txs.take(i));
        lemma_batch_refused(a, t, i);
    }
}

impl StateDb {
    /// Applies a DAO payload from `sender`, whose stake is its voting power, and the
    /// treasury movement it causes; a refusal rolls the accounts back and restores the
    /// DAO from its snapshot, except where crediting a payout overflows.
    pub fn apply_dao_payload(&mut self, payload: &[u8], block: u64, sender: &str) -> (r: Result<
        (),
        String,
    >)
        requires
            old(self).wf(),
        ensures
            final(self).wf(),
            final(self)@ == dao_payload_outcome(
                old(self)@,
                old(self).dao_bytes(),
                payload@,
                block,
                sender@,
            ).0,
            unit_result(r) == dao_payload_outcome(
                old(self)@,
                old(self).dao_bytes(),
                payload@,
                block,
                sender@,
            ).1,
    {
        let account_snapshot = self.snapshot();
        let dao_snapshot = self.dao_snapshot();
        let voting_power = self.staked(sender);
        let effect = match self.dao.apply(payload, block, sender, voting_power) {
            Ok(e) => e,
            Err(e) => {
                let _ = self.restore_dao(dao_snapshot.as_slice());
                return Err(e);
            },
        };
        let result: Result<(), String> = match effect {
            None => Ok(()),
            Some(DaoEffect::TreasuryDeposit { amount }) => {
                let key = sender.to_string();
                let x = self.account(&key);
                if x.balance < amount {
                    Err("insufficient balance for DAO treasury deposit".to_string())
                } else {
                    self.accounts.insert(key, Account { balance: x.balance - amount, ..x });
                    Ok(())
                }
            },
            Some(DaoEffect::TreasuryPayout { recipient, amount }) => {
                let x = self.account(&recipient);
                match x.balance.checked_add(amount) {
                    None => return Err("recipient balance overflow".to_string()),
                    Some(b) => {
                        self.accounts.insert(recipient, Account { balance: b, ..x });
                        Ok(())
                    },
                }
            },
        };
        match result {
            Err(e) => {
                self.restore(account_snapshot);
                let _ = self.restore_dao(dao_snapshot.as_slice());
                Err(e)
            },
            Ok(()) => Ok(()),
        }
    }

    fn apply_to(a: &mut OrdMap<String, Account>, tx: &Transaction) -> (r: Result<(), MempoolError>)
        requires
            old(a).wf(),
            nonce_fits(old(a)@, tx@),
        ensures
            final(a).wf(),
            match tx_effect(old(a)@, tx@) {
                Ok(m) => r is Ok && final(a)@ == m,
                Err(e) => r == Err::<(), MempoolError>(e) && final(a)@ == refused_accounts(
                    old(a)@,
                    tx@,
                ),
            },
    {
        let s = match a.get(&tx.sender_did) {
            Some(x) => *x,
            None => Account { balance: 0, staked: 0, nonce: 0 },
        };
        if s.nonce != tx.nonce {
            return Err(MempoolError::InvalidNonce { expected: s.nonce, got: tx.nonce });
        }
        let fee = tx.max_fee();
        match tx.tx_type {
            TxType::Transfer | TxType::Contract => {
                let contract = tx.tx_type == TxType::Contract;
                let debit = if contract {
                    fee
                } else {
                    tx.amount.saturating_add(fee)
                };
                let extra = if contract {
                    tx.amount
                } else {
                    0
                };
                if s.balance < debit.saturating_add(extra) {
                    return Err(MempoolError::InsufficientBalance);
                }
                a.insert(
                    tx.sender_did.clone(),
                    Account { balance: s.balance - debit, nonce: s.nonce + 1, ..s },
                );
                if !contract {
                    let r = match &tx.recipient_did {
                        Some(r) => r,
                        None => return Err(MempoolError::NoRecipient),
                    };
                    let x = match a.get(r) {
                        Some(x) => *x,
                        None => Account { balance: 0, staked: 0, nonce: 0 },
                    };
                    let b = match x.balance.checked_add(tx.amount) {
                        Some(b) => b,
                        None => return Err(MempoolError::InsufficientBalance),
                    };
                    a.insert(r.clone(), Account { balance: b, ..x });
                }
            },
            TxType::Stake => {
                let cost = tx.amount.saturating_add(fee);
                if s.balance < cost {
                    return Err(MempoolError::InsufficientBalance);
                }
                let staked = match s.staked.checked_add(tx.amount) {
                    Some(v) => v,
                    None => return Err(MempoolError::InsufficientStake),
                };
                a.insert(
                    tx.sender_did.clone(),
                    Account { balance: s.balance - cost, staked, nonce: s.nonce + 1 },
                );
            },
            TxType::Unstake => {
                if s.staked < tx.amount || s.balance < fee {
                    return Err(MempoolError::InsufficientStake);
                }
                let balance = match s.balance.checked_add(tx.amount) {
                    Some(v) => v - fee,
                    None => return Err(MempoolError::InsufficientBalance),
                };
                a.insert(
                    tx.sender_did.clone(),
                    Account { balance, staked: s.staked - tx.amount, nonce: s.nonce + 1 },
                );
            },
        }
        Ok(())
    }

    /// Applies the transactions in order to a copy of the accounts, keeping the copy only
    /// when every one of them is accepted.
    pub fn apply_batch(&mut self, txs: &[Transaction]) -> (r: Result<(), MempoolError>)
        requires
            old(self).wf(),
            batch_fits(old(self)@.accounts, tx_models(txs@)),
        ensures
            final(self).wf(),
            match batch_effect(old(self)@.accounts, tx_models(txs@)) {
                Ok(m) => r is Ok && final(self)@ == (StateModel { accounts: m, ..old(self)@ }),
                Err(e) => r == Err::<(), MempoolError>(e) && final(self)@ == old(self)@
                    && final(self).account_list() == old(self).account_list(),
            },
            final(self).dao_bytes() == old(self).dao_bytes(),
    {
        let ghost ms = tx_models(txs@);
        let ghost a0 = self@.accounts;
        let mut staged = self.accounts.duplicate();
        let mut i: usize = 0;
        assert(ms.take(0) =~= Seq::<TxModel>::empty());
        while i < txs.len()
            invariant
                ms == tx_models(txs@),
                a0 == self@.accounts,
                self.wf(),
                self@ == old(self)@,
                self.account_list() == old(self).account_list(),
                self.dao_bytes() == old(self).dao_bytes(),
                batch_fits(a0, ms),
                i <= txs@.len(),
                staged.wf(),
                batch_effect(a0, ms.take(i as int)) == Ok::<
                    Map<Seq<char>, Account>,
                    MempoolError,
                >(staged@),
            decreases txs@.len() - i,
        {
            let ghost before = staged@;
            proof {
                lemma_batch_fits_prefix(a0, ms, i as int + 1);
                assert(ms.take(i as int + 1).drop_last() =~= ms.take(i as int));
                assert(ms[i as int] == txs@[i as int]@);
            }
            let step = Self::apply_to(&mut staged, &txs[i]);
            proof {
                assert(ms.take(i as int + 1).drop_last() =~= ms.take(i as int));
                assert(ms[i as int] == txs@[i as int]@);
            }
            match step {
                Err(e) => {
                    proof {
                        lemma_batch_refused(a0, ms, i as int + 1);
                    }
                    return Err(e);
                },
                Ok(()) => {},
            }
            i = i + 1;
        }
        assert(ms.take(txs@.len() as int) =~= ms);
        self.accounts = staged;
        Ok(())
    }

    /// Checks `batch_fits` of the accounts for `txs`, applying them in order to a copy
    /// of the accounts.
    pub fn batch_fits_check(&self, txs: &[Transaction]) -> (r: bool)
        requires
            self.wf(),
        ensures
            r == batch_fits(self@.accounts, tx_models(txs@)),
    {
        let ghost ms = tx_models(txs@);
        let ghost a0 = self@.accounts;
        let mut staged = self.accounts.duplicate();
        let mut i: usize = 0;
        assert(ms.take(0) =~= Seq::<TxModel>::empty());
        while i < txs.len()
            invariant
                ms == tx_models(txs@),
                a0 == self@.accounts,
                i <= txs@.len(),
                staged.wf(),
                batch_fits(a0, ms.take(i as int)),
                batch_effect(a0, ms.take(i as int)) == Ok::<Map<Seq<char>, Account>, MempoolError>(
                    staged@,
                ),
            decreases txs@.len() - i,
        {
            let tx = &txs[i];
            proof {
                assert(ms.take(i as int + 1).drop_last() =~= ms.take(i as int));
                assert(ms[i as int] == tx@);
                assert(ms.take(i as int + 1).last() == tx@);
            }
            let expected = match staged.get(&tx.sender_did) {
                Some(x) => x.nonce,
                None => 0,
            };
            if expected == tx.nonce && tx.nonce == u64::MAX {
                proof {
                    if batch_fits(a0, ms) {
                        lemma_batch_fits_prefix(a0, ms, i as int + 1);
                    }
                }
                return false;
            }
            match Self::apply_to(&mut staged, tx) {
                Err(_) => {
                    proof {
                        lemma_batch_fits_after_refusal(a0, ms, i as int + 1);
                    }
                    return true;
                },
                Ok(()) => {},
            }
            i = i + 1;
        }
        assert(ms.take(txs@.len() as int) =~= ms);
        true
    }

    /// Applies one transaction.
    pub fn apply(&mut self, tx: &Transaction) -> (r: Result<(), MempoolError>)
        requires
            old(self).wf(),
            nonce_fits(old(self)@.accounts, tx@),
        ensures
            final(self).wf(),
            match tx_effect(old(self)@.accounts, tx@) {
                Ok(m) => r is Ok && final(self)@ == (StateModel { accounts: m, ..old(self)@ }),
                Err(e) => r == Err::<(), MempoolError>(e) && final(self)@ == old(self)@
                    && final(self).account_list() == old(self).account_list(),
            },
            final(self).dao_bytes() == old(self).dao_bytes(),
    {
        let mut staged = self.accounts.duplicate();
        match Self::apply_to(&mut staged, tx) {
            Err(e) => Err(e),
            Ok(()) => {
                self.accounts = staged;
                Ok(())
            },
        }
    }
}

impl Default for StateDb {
    fn default() -> (s: Self)
        ensures
            s.wf(),
            s@.accounts == Map::<Seq<char>, Account>::empty(),
            s.account_list().len() == 0,
            !s@.genesis_sealed,
            s@.issued == 0,
    {
        StateDb::new()
    }
}


/// Genesis allocations never bring the holdings past the supply cap, and after one the
/// issued supply is the new holdings in base units; once genesis is sealed every
/// allocation is refused and changes nothing.
pub proof fn law_genesis_within_cap(s: StateModel, h: int, id: Seq<char>, n: u64)
    requires
        h >= 0,
    ensures
        genesis_outcome(s, h, id, n).1 is Ok ==> h + n <= MAX_ATC_SUPPLY && genesis_outcome(
            s,
            h,
            id,
            n,
        ).0.issued == (h + n) * ATC_BASE_UNITS,
        s.genesis_sealed ==> genesis_outcome(s, h, id, n) == (
            s,
            Err::<(), Seq<char>>("genesis allocation is sealed"@),
        ),
{
    if h + n <= MAX_ATC_SUPPLY {
        assert((h + n) * ATC_BASE_UNITS <= MAX_ATC_SUPPLY * ATC_BASE_UNITS) by (nonlinear_arith)
            requires
                0 <= h + n <= MAX_ATC_SUPPLY,
                ATC_BASE_UNITS > 0,
        ;
    }
}

/// A block reward pays at most the initial reward of 500 ATC, adds exactly the
/// policy's reward to the issued supply, and keeps it within the cap.
pub proof fn law_reward_within_cap(s: StateModel, height: u64, recipient: Seq<char>)
    requires
        s.issued <= MAX_SUPPLY,
    ensures
        reward_outcome(s, height, recipient).0.issued <= MAX_SUPPLY,
        reward_outcome(s, height, recipient).1 matches Ok(v) ==> v <= 500 && reward_outcome(
            s,
            height,
            recipient,
        ).0.issued == s.issued + spec_block_reward_base_units(height, s.issued),
{
    crate::monetary::lemma_raw_subsidy_bounded(height);
}

/// What an accepted transaction does to the accounts, in plain arithmetic with
/// `fee = gas_limit * gas_price` where that fits in a `u64`: the sender's nonce, when
/// below `u64::MAX`, moves one on; a transfer takes amount and fee from the sender and
/// gives the amount to the recipient (only the fee, when sender and recipient are
/// one); a stake moves the amount from balance to stake and pays the fee; an unstake
/// moves it back and pays the fee; a contract call pays the fee; every other account
/// stays as it was. A transaction whose nonce is not the sender's is refused with both
/// nonces.
pub proof fn law_transaction_effect(a: Map<Seq<char>, Account>, tx: TxModel)
    ensures
        account_of(a, tx.sender).nonce != tx.nonce ==> tx_effect(a, tx) == Err::<
            Map<Seq<char>, Account>,
            MempoolError,
        >(MempoolError::InvalidNonce { expected: account_of(a, tx.sender).nonce, got: tx.nonce }),
        tx.nonce < u64::MAX ==> (tx_effect(a, tx) matches Ok(b) ==> account_of(b, tx.sender).nonce
            == tx.nonce + 1),
        tx_effect(a, tx) matches Ok(b) ==> forall|k: Seq<char>|
            k != tx.sender && !(tx.tx_type == TxType::Transfer && tx.recipient == Some(k))
                ==> #[trigger] account_of(b, k) == account_of(a, k) && (b.contains_key(k)
                <==> a.contains_key(k)),
        tx_effect(a, tx) matches Ok(b) ==> ({
            let s = account_of(a, tx.sender);
            let t = account_of(b, tx.sender);
            let fee = tx.gas_limit * tx.gas_price;
            let amt = tx.amount as int;
            amt + fee <= u64::MAX ==> {
                &&& tx.tx_type == TxType::Transfer && tx.recipient != Some(tx.sender) ==> {
                    let r = tx.recipient->Some_0;
                    &&& t.balance + amt + fee == s.balance
                    &&& t.staked == s.staked
                    &&& account_of(b, r).balance == account_of(a, r).balance + amt
                    &&& account_of(b, r).staked == account_of(a, r).staked
                    &&& account_of(b, r).nonce == account_of(a, r).nonce
                }
                &&& tx.tx_type == TxType::Transfer && tx.recipient == Some(tx.sender) ==> t.balance
                    + fee == s.balance && t.staked == s.staked
                &&& tx.tx_type == TxType::Stake ==> t.balance + amt + fee == s.balance && t.staked
                    == s.staked + amt
                &&& tx.tx_type == TxType::Unstake ==> t.balance + fee == s.balance + amt && t.staked
                    + amt == s.staked
                &&& tx.tx_type == TxType::Contract ==> t.balance + fee == s.balance && t.staked
                    == s.staked
            }
        }),
{
    assert(0 <= tx.gas_limit * tx.gas_price) by (nonlinear_arith)
        requires
            tx.gas_limit >= 0,
            tx.gas_price >= 0,
    ;
    if tx.gas_limit * tx.gas_price <= u64::MAX {
        assert(tx.max_fee() == tx.gas_limit * tx.gas_price);
    }
}

/// Applying one transaction is applying the batch made of it alone.
pub proof fn law_single_transaction_batch(a: Map<Seq<char>, Account>, tx: TxModel)
    ensures
        batch_effect(a, seq![tx]) == tx_effect(a, tx),
{
    assert(seq![tx].drop_last() =~= Seq::<TxModel>::empty());
    assert(batch_effect(a, Seq::<TxModel>::empty()) == Ok::<
        Map<Seq<char>, Account>,
        MempoolError,
    >(a));
}

/// A batch followed by another is the first batch, then the second on its result.
pub proof fn law_batch_concat(a: Map<Seq<char>, Account>, s: Seq<TxModel>, t: Seq<TxModel>)
    ensures
        batch_effect(a, s + t) == match batch_effect(a, s) {
            Ok(a1) => batch_effect(a1, t),
            Err(e) => Err(e),
        },
    decreases t.len(),
{
    if t.len() == 0 {
        assert(s + t =~= s);
    } else {
        assert((s + t).drop_last() =~= s + t.drop_last());
        law_batch_concat(a, s, t.drop_last());
    }
}

impl StateDb {
    /// A refused DAO payload leaves the accounts, the issued supply and the genesis seal
    /// as they were; unless the refusal is an overflowing payout, it leaves the DAO as it
    /// was too, when every count and string of the DAO fits its snapshot encoding.
    pub proof fn law_refused_dao_payload_rolls_back(
        &self,
        payload: Seq<u8>,
        block: u64,
        sender: Seq<char>,
    )
        requires
            self.wf(),
            self.dao_fits(),
        ensures
            ({
                let (t, r) = dao_payload_outcome(self@, self.dao_bytes(), payload, block, sender);
                &&& r is Err ==> t.accounts == self@.accounts && t.issued == self@.issued
                    && t.genesis_sealed == self@.genesis_sealed
                &&& r is Err && r != Err::<(), Seq<char>>("recipient balance overflow"@) ==> t
                    == self@
            }),
    {
        lemma_snapshot_roundtrip(self.dao);
    }
}

} // verus!
