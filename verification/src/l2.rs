//! Layer-2 execution: tokens, balances, replay-protected deposits and withdrawals,
//! batches with reproducible state roots, and their settlement commitments.
use crate::codec::{be128, be64, push_bytes, push_u128, push_u32, push_u64};
use crate::hashing::{sha256_of, simple_hash};
use crate::mempool::utf8;
use crate::ordmap::{lemma_map_sum_nonneg, lemma_map_sum_remove, map_sum, OrdMap};
use vstd::prelude::*;

verus! {

pub type Hash = [u8; 32];

pub type Address = [u8; 32];

pub type TokenId = u64;

#[derive(Debug, Clone, PartialEq, Eq)]
pub struct Token {
    pub id: TokenId,
    pub symbol: String,
    pub decimals: u8,
    pub total_supply: u128,
    pub issuer: Address,
}

/// Content of a token, its symbol by its characters.
pub struct TokenModel {
    pub id: u64,
    pub symbol: Seq<char>,
    pub decimals: u8,
    pub total_supply: u128,
    pub issuer: Seq<u8>,
}

impl View for Token {
    type V = TokenModel;

    open spec fn view(&self) -> TokenModel {
        TokenModel {
            id: self.id,
            symbol: self.symbol@,
            decimals: self.decimals,
            total_supply: self.total_supply,
            issuer: self.issuer@,
        }
    }
}

#[derive(Debug, Clone, PartialEq, Eq)]
pub enum Transaction {
    CreateToken { id: TokenId, symbol: String, decimals: u8, issuer: Address },
    Mint { token: TokenId, to: Address, amount: u128 },
    Burn { token: TokenId, from: Address, amount: u128 },
    Transfer { token: TokenId, from: Address, to: Address, amount: u128 },
    Deposit { token: TokenId, to: Address, amount: u128, l1_reference: Hash },
    Withdraw { token: TokenId, from: Address, amount: u128, l1_reference: Hash },
}

#[derive(Debug, Clone, Copy, PartialEq, Eq, Structural)]
pub enum ExecutionError {
    TokenExists,
    UnknownToken,
    InvalidAmount,
    InsufficientBalance,
    Overflow,
    InvalidDepositReference,
    Replay,
    WithdrawalAlreadyFinalized,
}

#[derive(Debug, Clone, PartialEq, Eq)]
pub struct L2State {
    pub chain_id: u64,
    pub height: u64,
    pub tokens: OrdMap<TokenId, Token>,
    pub balances: OrdMap<(TokenId, Address), u128>,
    pub processed_l1_references: OrdMap<Hash, ()>,
    pub finalized_withdrawals: OrdMap<Hash, ()>,
}

/// Content of a layer-2 state.
pub struct L2Model {
    pub chain_id: u64,
    pub height: u64,
    pub tokens: Map<u64, TokenModel>,
    pub balances: Map<(u64, Seq<u8>), u128>,
    pub processed: Set<Seq<u8>>,
    pub withdrawn: Set<Seq<u8>>,
}

impl View for L2State {
    type V = L2Model;

    open spec fn view(&self) -> L2Model {
        L2Model {
            chain_id: self.chain_id,
            height: self.height,
            tokens: self.tokens@.map_values(|t: Token| t@),
            balances: self.balances@,
            processed: self.processed_l1_references@.dom(),
            withdrawn: self.finalized_withdrawals@.dom(),
        }
    }
}

/// Balance of an owner in a token; zero where none is recorded.
pub open spec fn bal(s: L2Model, token: u64, owner: Seq<u8>) -> u128 {
    if s.balances.contains_key((token, owner)) {
        s.balances[(token, owner)]
    } else {
        0
    }
}

/// Whether a reference is all zero bytes.
pub open spec fn zero_ref(r: Seq<u8>) -> bool {
    forall|i: int| 0 <= i < r.len() ==> r[i] == 0
}

/// A token with a new total supply.
pub open spec fn with_supply(t: TokenModel, supply: int) -> TokenModel {
    TokenModel { total_supply: supply as u128, ..t }
}

/// Adds `amount` to a token's supply, then to an owner's balance; an overflow of the
/// supply leaves the state as it was, an overflow of the balance leaves the new supply.
pub open spec fn credit(s: L2Model, token: u64, to: Seq<u8>, amount: u128) -> (L2Model, Result<(), ExecutionError>) {
    let current = bal(s, token, to);
    if !s.tokens.contains_key(token) {
        (s, Err(ExecutionError::UnknownToken))
    } else if s.tokens[token].total_supply + amount > u128::MAX {
        (s, Err(ExecutionError::Overflow))
    } else {
        let s1 = L2Model {
            tokens: s.tokens.insert(token, with_supply(s.tokens[token], s.tokens[token].total_supply + amount)),
            ..s
        };
        if current + amount > u128::MAX {
            (s1, Err(ExecutionError::Overflow))
        } else {
            (L2Model { balances: s1.balances.insert((token, to), (current + amount) as u128), ..s1 }, Ok(()))
        }
    }
}

/// Takes `amount` from an owner whose balance covers it, and from the token's supply.
pub open spec fn debit(s: L2Model, token: u64, from: Seq<u8>, amount: u128) -> (L2Model, Result<(), ExecutionError>) {
    let current = bal(s, token, from);
    if current < amount {
        (s, Err(ExecutionError::InsufficientBalance))
    } else if !s.tokens.contains_key(token) {
        (s, Err(ExecutionError::UnknownToken))
    } else if s.tokens[token].total_supply < amount {
        (s, Err(ExecutionError::Overflow))
    } else {
        (
            L2Model {
                tokens: s.tokens.insert(token, with_supply(s.tokens[token], s.tokens[token].total_supply - amount)),
                balances: s.balances.insert((token, from), (current - amount) as u128),
                ..s
            },
            Ok(()),
        )
    }
}

/// What executing a transaction does: the state afterwards, which an error can leave
/// partly changed exactly as described above, and the outcome.
pub open spec fn l2_step(s: L2Model, tx: Transaction) -> (L2Model, Result<(), ExecutionError>) {
    match tx {
        Transaction::CreateToken { id, symbol, decimals, issuer } => if s.tokens.contains_key(id) {
            (s, Err(ExecutionError::TokenExists))
        } else if utf8(symbol@).len() == 0 || utf8(symbol@).len() > 32 || decimals > 38 {
            (s, Err(ExecutionError::InvalidAmount))
        } else {
            (
                L2Model {
                    tokens: s.tokens.insert(
                        id,
                        TokenModel { id, symbol: symbol@, decimals, total_supply: 0, issuer: issuer@ },
                    ),
                    ..s
                },
                Ok(()),
            )
        },
        Transaction::Mint { token, to, amount } => if amount == 0 {
            (s, Err(ExecutionError::InvalidAmount))
        } else {
            credit(s, token, to@, amount)
        },
        Transaction::Burn { token, from, amount } => if amount == 0 {
            (s, Err(ExecutionError::InvalidAmount))
        } else {
            debit(s, token, from@, amount)
        },
        Transaction::Transfer { token, from, to, amount } => if amount == 0 {
            (s, Err(ExecutionError::InvalidAmount))
        } else if !s.tokens.contains_key(token) {
            (s, Err(ExecutionError::UnknownToken))
        } else if bal(s, token, from@) < amount {
            (s, Err(ExecutionError::InsufficientBalance))
        } else {
            let to_balance = bal(s, token, to@);
            let s1 = L2Model {
                balances: s.balances.insert((token, from@), (bal(s, token, from@) - amount) as u128),
                ..s
            };
            if to_balance + amount > u128::MAX {
                (s1, Err(ExecutionError::Overflow))
            } else {
                (L2Model { balances: s1.balances.insert((token, to@), (to_balance + amount) as u128), ..s1 }, Ok(()))
            }
        },
        Transaction::Deposit { token, to, amount, l1_reference } => if amount == 0 {
            (s, Err(ExecutionError::InvalidAmount))
        } else if zero_ref(l1_reference@) {
            (s, Err(ExecutionError::InvalidDepositReference))
        } else if s.processed.contains(l1_reference@) {
            (s, Err(ExecutionError::Replay))
        } else {
            let (s1, r) = credit(s, token, to@, amount);
            if r is Err {
                (s1, r)
            } else {
                (L2Model { processed: s1.processed.insert(l1_reference@), ..s1 }, Ok(()))
            }
        },
        Transaction::Withdraw { token, from, amount, l1_reference } => if amount == 0 {
            (s, Err(ExecutionError::InvalidAmount))
        } else if zero_ref(l1_reference@) {
            (s, Err(ExecutionError::InvalidDepositReference))
        } else if s.withdrawn.contains(l1_reference@) {
            (s, Err(ExecutionError::WithdrawalAlreadyFinalized))
        } else {
            let (s1, r) = debit(s, token, from@, amount);
            if r is Err {
                (s1, r)
            } else {
                (L2Model { withdrawn: s1.withdrawn.insert(l1_reference@), ..s1 }, Ok(()))
            }
        },
    }
}

fn all_zero(r: &[u8; 32]) -> (b: bool)
    ensures
        b == zero_ref(r@),
{
    let mut i: usize = 0;
    while i < 32
        invariant
            i <= 32,
            forall|j: int| 0 <= j < i ==> r@[j] == 0,
        decreases 32 - i,
    {
        if r[i] != 0 {
            return false;
        }
        i = i + 1;
    }
    true
}

impl L2State {
    pub open spec fn wf(&self) -> bool {
        &&& self.tokens.wf()
        &&& self.balances.wf()
        &&& self.processed_l1_references.wf()
        &&& self.finalized_withdrawals.wf()
    }

    /// An empty state of a layer-2 chain at height zero.
    pub fn new(chain_id: u64) -> (s: Self)
        ensures
            s.wf(),
            s@ == (L2Model {
                chain_id,
                height: 0,
                tokens: Map::empty(),
                balances: Map::empty(),
                processed: Set::empty(),
                withdrawn: Set::empty(),
            }),
            supply_matches(s@),
    {
        let s = L2State {
            chain_id,
            height: 0,
            tokens: OrdMap::new(),
            balances: OrdMap::new(),
            processed_l1_references: OrdMap::new(),
            finalized_withdrawals: OrdMap::new(),
        };
        assert(s@.tokens =~= Map::<u64, TokenModel>::empty());
        assert(s@.processed =~= Set::<Seq<u8>>::empty());
        assert(s@.withdrawn =~= Set::<Seq<u8>>::empty());
        s
    }

    /// A state holds finitely many balances, so supply conservation speaks of it.
    pub proof fn lemma_balances_finite(&self)
        requires
            self.wf(),
        ensures
            self@.balances.dom().finite(),
    {
        self.balances.lemma_len();
    }

    /// An owner's balance in a token; zero where none is recorded.
    pub fn balance_of(&self, token: TokenId, owner: Address) -> (r: u128)
        requires
            self.wf(),
        ensures
            r == bal(self@, token, owner@),
    {
        match self.balances.get(&(token, owner)) {
            Some(b) => *b,
            None => 0,
        }
    }

    fn set_supply(&mut self, token: TokenId, supply: u128)
        requires
            old(self).wf(),
            old(self)@.tokens.contains_key(token),
        ensures
            final(self).wf(),
            final(self)@ == (L2Model {
                tokens: old(self)@.tokens.insert(token, with_supply(old(self)@.tokens[token], supply as int)),
                ..old(self)@
            }),
    {
        let mut t = match self.tokens.remove(&token) {
            Some(t) => t,
            None => return,
        };
        t.total_supply = supply;
        self.tokens.insert(token, t);
        proof {
            assert(self@.tokens =~= old(self)@.tokens.insert(token, with_supply(old(self)@.tokens[token], supply as int)));
        }
    }

    fn do_credit(&mut self, token: TokenId, to: Address, amount: u128) -> (r: Result<(), ExecutionError>)
        requires
            old(self).wf(),
        ensures
            final(self).wf(),
            (final(self)@, r) == credit(old(self)@, token, to@, amount),
    {
        let current = self.balance_of(token, to);
        let supply = match self.tokens.get(&token) {
            Some(t) => t.total_supply,
            None => return Err(ExecutionError::UnknownToken),
        };
        let new_supply = match supply.checked_add(amount) {
            Some(v) => v,
            None => return Err(ExecutionError::Overflow),
        };
        self.set_supply(token, new_supply);
        let new_balance = match current.checked_add(amount) {
            Some(v) => v,
            None => return Err(ExecutionError::Overflow),
        };
        self.balances.insert((token, to), new_balance);
        Ok(())
    }

    fn do_debit(&mut self, token: TokenId, from: Address, amount: u128) -> (r: Result<(), ExecutionError>)
        requires
            old(self).wf(),
        ensures
            final(self).wf(),
            (final(self)@, r) == debit(old(self)@, token, from@, amount),
    {
        let current = self.balance_of(token, from);
        if current < amount {
            return Err(ExecutionError::InsufficientBalance);
        }
        let supply = match self.tokens.get(&token) {
            Some(t) => t.total_supply,
            None => return Err(ExecutionError::UnknownToken),
        };
        let new_supply = match supply.checked_sub(amount) {
            Some(v) => v,
            None => return Err(ExecutionError::Overflow),
        };
        self.set_supply(token, new_supply);
        self.balances.insert((token, from), current - amount);
        Ok(())
    }

    /// Executes one transaction.
    pub fn execute(&mut self, tx: &Transaction) -> (r: Result<(), ExecutionError>)
        requires
            old(self).wf(),
        ensures
            final(self).wf(),
            (final(self)@, r) == l2_step(old(self)@, *tx),
    {
        match tx {
            Transaction::CreateToken { id, symbol, decimals, issuer } => {
                if self.tokens.contains_key(id) {
                    return Err(ExecutionError::TokenExists);
                }
                proof {
                    vstd::utf8::encode_utf8_decode_utf8(symbol@);
                }
                let n = symbol.as_str().as_bytes().len();
                if n == 0 || n > 32 || *decimals > 38 {
                    return Err(ExecutionError::InvalidAmount);
                }
                let t = Token {
                    id: *id,
                    symbol: symbol.clone(),
                    decimals: *decimals,
                    total_supply: 0,
                    issuer: *issuer,
                };
                let ghost tm = t@;
                self.tokens.insert(*id, t);
                proof {
                    assert(self@.tokens =~= old(self)@.tokens.insert(*id, tm));
                }
                Ok(())
            },
            Transaction::Mint { token, to, amount } => {
                if *amount == 0 {
                    return Err(ExecutionError::InvalidAmount);
                }
                self.do_credit(*token, *to, *amount)
            },
            Transaction::Burn { token, from, amount } => {
                if *amount == 0 {
                    return Err(ExecutionError::InvalidAmount);
                }
                self.do_debit(*token, *from, *amount)
            },
            Transaction::Transfer { token, from, to, amount } => {
                if *amount == 0 {
                    return Err(ExecutionError::InvalidAmount);
                }
                if !self.tokens.contains_key(token) {
                    return Err(ExecutionError::UnknownToken);
                }
                let from_balance = self.balance_of(*token, *from);
                if from_balance < *amount {
                    return Err(ExecutionError::InsufficientBalance);
                }
                let to_balance = self.balance_of(*token, *to);
                self.balances.insert((*token, *from), from_balance - *amount);
                let new_to = match to_balance.checked_add(*amount) {
                    Some(v) => v,
                    None => return Err(ExecutionError::Overflow),
                };
                self.balances.insert((*token, *to), new_to);
                Ok(())
            },
            Transaction::Deposit { token, to, amount, l1_reference } => {
                if *amount == 0 {
                    return Err(ExecutionError::InvalidAmount);
                }
                if all_zero(l1_reference) {
                    return Err(ExecutionError::InvalidDepositReference);
                }
                if self.processed_l1_references.contains_key(l1_reference) {
                    return Err(ExecutionError::Replay);
                }
                self.do_credit(*token, *to, *amount)?;
                self.processed_l1_references.insert(*l1_reference, ());
                proof {
                    assert(self@.processed =~= old(self)@.processed.insert(l1_reference@));
                }
                Ok(())
            },
            Transaction::Withdraw { token, from, amount, l1_reference } => {
                if *amount == 0 {
                    return Err(ExecutionError::InvalidAmount);
                }
                if all_zero(l1_reference) {
                    return Err(ExecutionError::InvalidDepositReference);
                }
                if self.finalized_withdrawals.contains_key(l1_reference) {
                    return Err(ExecutionError::WithdrawalAlreadyFinalized);
                }
                self.do_debit(*token, *from, *amount)?;
                self.finalized_withdrawals.insert(*l1_reference, ());
                proof {
                    assert(self@.withdrawn =~= old(self)@.withdrawn.insert(l1_reference@));
                }
                Ok(())
            },
        }
    }
}

/// A deposit reference is honoured once: after a deposit under a reference succeeds,
/// every later deposit of a positive amount under it is refused as a replay, whatever
/// happened in between.
pub proof fn law_deposit_reference_is_spent(s: L2Model, tx: Transaction, later: Transaction)
    requires
        tx matches Transaction::Deposit { .. },
        l2_step(s, tx).1 is Ok,
        later matches Transaction::Deposit { l1_reference, amount, .. } && l1_reference@ == (
        tx->Deposit_l1_reference)@ && amount > 0,
    ensures
        l2_step(l2_step(s, tx).0, later) == (l2_step(s, tx).0, Err::<(), ExecutionError>(ExecutionError::Replay)),
{
}

/// Processed references and finalized withdrawals are never forgotten: every
/// transaction, whatever its outcome, keeps them.
pub proof fn law_references_only_grow(s: L2Model, tx: Transaction)
    ensures
        s.processed.subset_of(l2_step(s, tx).0.processed),
        s.withdrawn.subset_of(l2_step(s, tx).0.withdrawn),
{
}

// ---------------------------------------------------------------------------
// Supply and balances
// ---------------------------------------------------------------------------

/// Balance keys of one token.
pub open spec fn token_keys(b: Map<(u64, Seq<u8>), u128>, token: u64) -> Set<(u64, Seq<u8>)> {
    b.dom().filter(|p: (u64, Seq<u8>)| p.0 == token)
}

/// What all owners together hold of a token.
pub open spec fn held(b: Map<(u64, Seq<u8>), u128>, token: u64) -> int {
    map_sum(b.restrict(token_keys(b, token)))
}

/// Each token's total supply is what its owners hold, and every balance belongs to a
/// known token.
pub open spec fn supply_matches(s: L2Model) -> bool {
    &&& forall|k: u64| #[trigger]
        s.tokens.contains_key(k) ==> s.tokens[k].total_supply == held(s.balances, k)
    &&& forall|p: (u64, Seq<u8>)| #[trigger] s.balances.contains_key(p) ==> s.tokens.contains_key(p.0)
}

/// What a token's owners hold after one balance is set.
proof fn lemma_held_insert(b: Map<(u64, Seq<u8>), u128>, x: (u64, Seq<u8>), v: u128, k: u64)
    requires
        b.dom().finite(),
    ensures
        b.insert(x, v).dom().finite(),
        held(b.insert(x, v), k) == if x.0 == k {
            held(b, k) - (if b.contains_key(x) {
                b[x] as int
            } else {
                0
            }) + v
        } else {
            held(b, k)
        },
{
    broadcast use vstd::set::group_set_axioms;

    let b2 = b.insert(x, v);
    let m1 = b.restrict(token_keys(b, k));
    let m2 = b2.restrict(token_keys(b2, k));
    assert(m1.dom() =~= token_keys(b, k));
    assert(m2.dom() =~= token_keys(b2, k));
    if x.0 != k {
        assert(m2 =~= m1);
    } else {
        assert(m2 =~= m1.insert(x, v));
        lemma_map_sum_remove(m2, x);
        assert(m2.remove(x) =~= m1.remove(x));
        if m1.contains_key(x) {
            lemma_map_sum_remove(m1, x);
        } else {
            assert(m1.remove(x) =~= m1);
        }
    }
}

/// No single balance of a token exceeds what its owners hold together, nor do two.
proof fn lemma_held_bounds(s: L2Model, k: u64, o1: Seq<u8>, o2: Seq<u8>)
    requires
        s.balances.dom().finite(),
    ensures
        held(s.balances, k) >= bal(s, k, o1),
        o1 != o2 ==> held(s.balances, k) >= bal(s, k, o1) + bal(s, k, o2),
{
    broadcast use vstd::set::group_set_axioms;

    let b = s.balances;
    let m = b.restrict(token_keys(b, k));
    assert(m.dom() =~= token_keys(b, k));
    let x1 = (k, o1);
    let x2 = (k, o2);
    lemma_map_sum_nonneg(m);
    if m.contains_key(x1) {
        lemma_map_sum_remove(m, x1);
        lemma_map_sum_nonneg(m.remove(x1));
        if o1 != o2 && m.contains_key(x2) {
            lemma_map_sum_remove(m.remove(x1), x2);
            lemma_map_sum_nonneg(m.remove(x1).remove(x2));
        }
    } else if o1 != o2 && m.contains_key(x2) {
        lemma_map_sum_remove(m, x2);
        lemma_map_sum_nonneg(m.remove(x2));
    }
}

/// Supply is conserved: where each token's total supply is what its owners hold
/// together, every transaction, accepted or refused, keeps it so, and a refused one
/// changes nothing; the one exception is a transfer from an owner to itself, which
/// credits the amount without debiting it.
pub proof fn law_supply_matches_balances(s: L2Model, tx: Transaction)
    requires
        s.balances.dom().finite(),
        supply_matches(s),
        !(tx matches Transaction::Transfer { from, to, .. } && from == to),
    ensures
        l2_step(s, tx).0.balances.dom().finite(),
        supply_matches(l2_step(s, tx).0),
        l2_step(s, tx).1 is Err ==> l2_step(s, tx).0 == s,
{
    broadcast use vstd::set::group_set_axioms;

    let b = s.balances;
    let s2 = l2_step(s, tx).0;
    match tx {
        Transaction::CreateToken { id, .. } => {
            if s2 != s {
                assert(b.restrict(token_keys(b, id)) =~= Map::empty());
                assert forall|k: u64| #[trigger] s2.tokens.contains_key(k) implies s2.tokens[k].total_supply
                    == held(s2.balances, k) by {
                    if k != id {
                        assert(s.tokens.contains_key(k));
                    }
                }
            }
        },
        Transaction::Mint { token, to, amount } => {
            lemma_credit_keeps(s, token, to@, amount);
        },
        Transaction::Deposit { token, to, amount, .. } => {
            lemma_credit_keeps(s, token, to@, amount);
        },
        Transaction::Burn { token, from, amount } => {
            lemma_debit_keeps(s, token, from@, amount);
        },
        Transaction::Withdraw { token, from, amount, .. } => {
            lemma_debit_keeps(s, token, from@, amount);
        },
        Transaction::Transfer { token, from, to, amount } => {
            if amount != 0 && s.tokens.contains_key(token) && bal(s, token, from@) >= amount {
                assert(from@ != to@) by {
                    if from@ == to@ {
                        assert(from =~= to);
                    }
                }
                lemma_held_bounds(s, token, from@, to@);
                let b1 = b.insert((token, from@), (bal(s, token, from@) - amount) as u128);
                lemma_held_insert(b, (token, from@), (bal(s, token, from@) - amount) as u128, token);
                let b2 = b1.insert((token, to@), (bal(s, token, to@) + amount) as u128);
                lemma_held_insert(b1, (token, to@), (bal(s, token, to@) + amount) as u128, token);
                assert forall|k: u64| #[trigger] s2.tokens.contains_key(k) implies s2.tokens[k].total_supply
                    == held(s2.balances, k) by {
                    lemma_held_insert(b, (token, from@), (bal(s, token, from@) - amount) as u128, k);
                    lemma_held_insert(b1, (token, to@), (bal(s, token, to@) + amount) as u128, k);
                }
            }
        },
    }
}

proof fn lemma_credit_keeps(s: L2Model, token: u64, to: Seq<u8>, amount: u128)
    requires
        s.balances.dom().finite(),
        supply_matches(s),
    ensures
        credit(s, token, to, amount).0.balances.dom().finite(),
        supply_matches(credit(s, token, to, amount).0),
        credit(s, token, to, amount).1 is Err ==> credit(s, token, to, amount).0 == s,
{
    let b = s.balances;
    if s.tokens.contains_key(token) && s.tokens[token].total_supply + amount <= u128::MAX {
        lemma_held_bounds(s, token, to, to);
        let v = (bal(s, token, to) + amount) as u128;
        let s2 = credit(s, token, to, amount).0;
        lemma_held_insert(b, (token, to), v, token);
        assert forall|k: u64| #[trigger] s2.tokens.contains_key(k) implies s2.tokens[k].total_supply
            == held(s2.balances, k) by {
            lemma_held_insert(b, (token, to), v, k);
        }
    }
}

proof fn lemma_debit_keeps(s: L2Model, token: u64, from: Seq<u8>, amount: u128)
    requires
        s.balances.dom().finite(),
        supply_matches(s),
    ensures
        debit(s, token, from, amount).0.balances.dom().finite(),
        supply_matches(debit(s, token, from, amount).0),
        debit(s, token, from, amount).1 is Err ==> debit(s, token, from, amount).0 == s,
{
    let b = s.balances;
    if bal(s, token, from) >= amount && s.tokens.contains_key(token) {
        lemma_held_bounds(s, token, from, from);
        let v = (bal(s, token, from) - amount) as u128;
        let s2 = debit(s, token, from, amount).0;
        lemma_held_insert(b, (token, from), v, token);
        assert forall|k: u64| #[trigger] s2.tokens.contains_key(k) implies s2.tokens[k].total_supply
            == held(s2.balances, k) by {
            lemma_held_insert(b, (token, from), v, k);
        }
    }
}

// ---------------------------------------------------------------------------
// State roots and batches
// ---------------------------------------------------------------------------

/// Hashed form of the tokens, in identifier order: identifier, symbol length and
/// bytes, decimals, total supply, issuer.
pub open spec fn tokens_bytes(pairs: Seq<(u64, Token)>) -> Seq<u8>
    decreases pairs.len(),
{
    if pairs.len() == 0 {
        Seq::empty()
    } else {
        let (id, t) = pairs.last();
        tokens_bytes(pairs.drop_last()) + be64(id) + be64(utf8(t.symbol@).len() as u64) + utf8(
            t.symbol@,
        ) + seq![t.decimals] + be128(t.total_supply) + t.issuer@
    }
}

/// Hashed form of the balances, in (token, owner) order.
pub open spec fn balances_bytes(pairs: Seq<((u64, Seq<u8>), u128)>) -> Seq<u8>
    decreases pairs.len(),
{
    if pairs.len() == 0 {
        Seq::empty()
    } else {
        let ((token, owner), b) = pairs.last();
        balances_bytes(pairs.drop_last()) + be64(token) + owner + be128(b)
    }
}

/// Hashed form of a set of references, in order.
pub open spec fn refs_bytes(pairs: Seq<(Seq<u8>, ())>) -> Seq<u8>
    decreases pairs.len(),
{
    if pairs.len() == 0 {
        Seq::empty()
    } else {
        refs_bytes(pairs.drop_last()) + pairs.last().0
    }
}

/// The bytes a state root hashes: chain, height, tokens, balances, processed
/// deposit references and finalized withdrawals.
pub open spec fn state_preimage(s: L2State) -> Seq<u8> {
    be64(s.chain_id) + be64(s.height) + tokens_bytes(s.tokens.pairs()) + balances_bytes(
        s.balances.pairs(),
    ) + refs_bytes(s.processed_l1_references.pairs()) + refs_bytes(
        s.finalized_withdrawals.pairs(),
    )
}

/// Hashed form of a transaction: its variant number, then its fields.
pub open spec fn tx_hash_bytes(tx: Transaction) -> Seq<u8> {
    match tx {
        Transaction::CreateToken { id, symbol, decimals, issuer } => seq![0u8] + be64(id) + be64(
            utf8(symbol@).len() as u64,
        ) + utf8(symbol@) + seq![decimals] + issuer@,
        Transaction::Mint { token, to, amount } => seq![1u8] + be64(token) + to@ + be128(amount),
        Transaction::Burn { token, from, amount } => seq![2u8] + be64(token) + from@ + be128(
            amount,
        ),
        Transaction::Transfer { token, from, to, amount } => seq![3u8] + be64(token) + from@ + to@
            + be128(amount),
        Transaction::Deposit { token, to, amount, l1_reference } => seq![4u8] + be64(token) + to@
            + be128(amount) + l1_reference@,
        Transaction::Withdraw { token, from, amount, l1_reference } => seq![5u8] + be64(token)
            + from@ + be128(amount) + l1_reference@,
    }
}

pub open spec fn txs_hash_bytes(txs: Seq<Transaction>) -> Seq<u8>
    decreases txs.len(),
{
    if txs.len() == 0 {
        Seq::empty()
    } else {
        txs_hash_bytes(txs.drop_last()) + tx_hash_bytes(txs.last())
    }
}

/// The bytes a batch hash hashes.
pub open spec fn batch_preimage(chain_id: u64, number: u64, parent: Seq<u8>, root: Seq<u8>, txs: Seq<Transaction>) -> Seq<u8> {
    be64(chain_id) + be64(number) + parent + root + txs_hash_bytes(txs)
}

fn push_symbol(o: &mut Vec<u8>, symbol: &String)
    ensures
        final(o)@ == old(o)@ + be64(utf8(symbol@).len() as u64) + utf8(symbol@),
{
    let b = symbol.as_str().as_bytes();
    proof {
        vstd::utf8::encode_utf8_decode_utf8(symbol@);
    }
    push_u64(o, b.len() as u64);
    push_bytes(o, b);
    assert(final(o)@ =~= old(o)@ + be64(utf8(symbol@).len() as u64) + utf8(symbol@));
}

fn push_tx(o: &mut Vec<u8>, tx: &Transaction)
    ensures
        final(o)@ == old(o)@ + tx_hash_bytes(*tx),
{
    let ghost o0 = o@;
    match tx {
        Transaction::CreateToken { id, symbol, decimals, issuer } => {
            o.push(0);
            push_u64(o, *id);
            push_symbol(o, symbol);
            o.push(*decimals);
            push_bytes(o, issuer.as_slice());
        },
        Transaction::Mint { token, to, amount } => {
            o.push(1);
            push_u64(o, *token);
            push_bytes(o, to.as_slice());
            push_u128(o, *amount);
        },
        Transaction::Burn { token, from, amount } => {
            o.push(2);
            push_u64(o, *token);
            push_bytes(o, from.as_slice());
            push_u128(o, *amount);
        },
        Transaction::Transfer { token, from, to, amount } => {
            o.push(3);
            push_u64(o, *token);
            push_bytes(o, from.as_slice());
            push_bytes(o, to.as_slice());
            push_u128(o, *amount);
        },
        Transaction::Deposit { token, to, amount, l1_reference } => {
            o.push(4);
            push_u64(o, *token);
            push_bytes(o, to.as_slice());
            push_u128(o, *amount);
            push_bytes(o, l1_reference.as_slice());
        },
        Transaction::Withdraw { token, from, amount, l1_reference } => {
            o.push(5);
            push_u64(o, *token);
            push_bytes(o, from.as_slice());
            push_u128(o, *amount);
            push_bytes(o, l1_reference.as_slice());
        },
    }
    assert(o@ =~= o0 + tx_hash_bytes(*tx));
}

fn push_refs(o: &mut Vec<u8>, refs: &OrdMap<Hash, ()>)
    requires
        refs.wf(),
    ensures
        final(o)@ == old(o)@ + refs_bytes(refs.pairs()),
{
    let ghost o0 = o@;
    let ghost pairs = refs.pairs();
    let n = refs.len();
    let mut i: usize = 0;
    assert(pairs.take(0) =~= Seq::<(Seq<u8>, ())>::empty());
    while i < n
        invariant
            refs.wf(),
            pairs == refs.pairs(),
            n == pairs.len(),
            i <= n,
            o@ == o0 + refs_bytes(pairs.take(i as int)),
        decreases n - i,
    {
        push_bytes(o, refs.key_at(i).as_slice());
        proof {
            assert(pairs.take(i + 1).drop_last() =~= pairs.take(i as int));
            assert(pairs.take(i + 1).last() == pairs[i as int]);
        }
        i = i + 1;
    }
    assert(pairs.take(n as int) =~= pairs);
}

impl L2State {
    /// Commitment to the whole state.
    pub fn state_root(&self) -> (r: Hash)
        requires
            self.wf(),
        ensures
            r@ == sha256_of(state_preimage(*self)),
    {
        let mut o: Vec<u8> = Vec::new();
        push_u64(&mut o, self.chain_id);
        push_u64(&mut o, self.height);
        let ghost o1 = o@;
        let ghost tp = self.tokens.pairs();
        let nt = self.tokens.len();
        let mut i: usize = 0;
        assert(tp.take(0) =~= Seq::<(u64, Token)>::empty());
        while i < nt
            invariant
                self.wf(),
                tp == self.tokens.pairs(),
                nt == tp.len(),
                i <= nt,
                o@ == o1 + tokens_bytes(tp.take(i as int)),
            decreases nt - i,
        {
            let id = *self.tokens.key_at(i);
            let t = self.tokens.value_at(i);
            push_u64(&mut o, id);
            push_symbol(&mut o, &t.symbol);
            o.push(t.decimals);
            push_u128(&mut o, t.total_supply);
            push_bytes(&mut o, t.issuer.as_slice());
            proof {
                assert(tp.take(i + 1).drop_last() =~= tp.take(i as int));
                assert(tp.take(i + 1).last() == tp[i as int]);
            }
            i = i + 1;
        }
        assert(tp.take(nt as int) =~= tp);
        let ghost o2 = o@;
        let ghost bp = self.balances.pairs();
        let nb = self.balances.len();
        let mut j: usize = 0;
        assert(bp.take(0) =~= Seq::<((u64, Seq<u8>), u128)>::empty());
        while j < nb
            invariant
                self.wf(),
                bp == self.balances.pairs(),
                nb == bp.len(),
                j <= nb,
                o@ == o2 + balances_bytes(bp.take(j as int)),
            decreases nb - j,
        {
            let k = self.balances.key_at(j);
            let b = *self.balances.value_at(j);
            push_u64(&mut o, k.0);
            push_bytes(&mut o, k.1.as_slice());
            push_u128(&mut o, b);
            proof {
                assert(bp.take(j + 1).drop_last() =~= bp.take(j as int));
                assert(bp.take(j + 1).last() == bp[j as int]);
            }
            j = j + 1;
        }
        assert(bp.take(nb as int) =~= bp);
        push_refs(&mut o, &self.processed_l1_references);
        push_refs(&mut o, &self.finalized_withdrawals);
        assert(o@ =~= state_preimage(*self));
        simple_hash(o.as_slice())
    }
}

#[derive(Debug, Clone, PartialEq, Eq)]
pub struct Receipt {
    pub index: u32,
    pub success: bool,
}

#[derive(Debug, Clone, PartialEq, Eq)]
pub struct L2Batch {
    pub number: u64,
    pub parent_state_root: Hash,
    pub state_root: Hash,
    pub transactions: Vec<Transaction>,
    pub receipts: Vec<Receipt>,
    pub batch_hash: Hash,
}

#[derive(Debug, Clone, PartialEq, Eq)]
pub struct L1SettlementCommitment {
    pub l2_chain_id: u64,
    pub batch_number: u64,
    pub state_root: Hash,
    pub batch_hash: Hash,
}

/// Runs the first `n` transactions in order, stopping at the first that fails.
pub open spec fn run_txs(s: L2Model, txs: Seq<Transaction>, n: nat) -> (L2Model, Result<(), ExecutionError>)
    decreases n,
{
    if n == 0 {
        (s, Ok(()))
    } else {
        let (s1, r) = run_txs(s, txs, (n - 1) as nat);
        if r is Err {
            (s1, r)
        } else {
            l2_step(s1, txs[n - 1])
        }
    }
}

proof fn lemma_run_err(s: L2Model, txs: Seq<Transaction>, i: nat, n: nat)
    requires
        i <= n,
        run_txs(s, txs, i).1 is Err,
    ensures
        run_txs(s, txs, n) == run_txs(s, txs, i),
    decreases n,
{
    if n > i {
        lemma_run_err(s, txs, i, (n - 1) as nat);
    }
}

/// The hash of a batch.
fn hash_batch(chain_id: u64, number: u64, parent: Hash, state_root: Hash, txs: &Vec<Transaction>) -> (r: Hash)
    ensures
        r@ == sha256_of(batch_preimage(chain_id, number, parent@, state_root@, txs@)),
{
    let mut o: Vec<u8> = Vec::new();
    push_u64(&mut o, chain_id);
    push_u64(&mut o, number);
    push_bytes(&mut o, parent.as_slice());
    push_bytes(&mut o, state_root.as_slice());
    let ghost o1 = o@;
    let mut i: usize = 0;
    assert(txs@.take(0) =~= Seq::<Transaction>::empty());
    while i < txs.len()
        invariant
            i <= txs@.len(),
            o@ == o1 + txs_hash_bytes(txs@.take(i as int)),
        decreases txs@.len() - i,
    {
        push_tx(&mut o, &txs[i]);
        proof {
            assert(txs@.take(i + 1).drop_last() =~= txs@.take(i as int));
            assert(txs@.take(i + 1).last() == txs@[i as int]);
        }
        i = i + 1;
    }
    assert(txs@.take(txs@.len() as int) =~= txs@);
    assert(o@ =~= batch_preimage(chain_id, number, parent@, state_root@, txs@));
    simple_hash(o.as_slice())
}

#[derive(Debug)]
pub struct L2Executor;

impl L2Executor {
    /// Executes transactions in order as the next batch: a failing transaction stops
    /// the batch and leaves the state as it made it; otherwise the height advances and
    /// the batch records the parent and new roots, a successful receipt per
    /// transaction, and its hash.
    pub fn execute_batch(state: &mut L2State, transactions: Vec<Transaction>) -> (r: Result<L2Batch, ExecutionError>)
        requires
            old(state).wf(),
        ensures
            final(state).wf(),
            ({
                let (s1, res) = run_txs(old(state)@, transactions@, transactions@.len());
                &&& res is Err ==> r == Err::<L2Batch, ExecutionError>(res->Err_0) && final(state)@
                    == s1
                &&& res is Ok && s1.height == u64::MAX ==> r == Err::<L2Batch, ExecutionError>(
                    ExecutionError::Overflow,
                ) && final(state)@ == s1
                &&& res is Ok && s1.height < u64::MAX ==> (r matches Ok(b) && final(state)@ == (L2Model {
                    height: (s1.height + 1) as u64,
                    ..s1
                }) && b.number == final(state).height
                    && b.parent_state_root@ == sha256_of(state_preimage(*old(state)))
                    && b.state_root@ == sha256_of(state_preimage(*final(state)))
                    && b.transactions@ == transactions@ && b.receipts@.len() == transactions@.len()
                    && (forall|i: int| 0 <= i < b.receipts@.len() ==> (#[trigger] b.receipts@[i]).index
                    == i as u32 && b.receipts@[i].success) && b.batch_hash@ == sha256_of(
                    batch_preimage(
                        final(state).chain_id,
                        b.number,
                        b.parent_state_root@,
                        b.state_root@,
                        transactions@,
                    ),
                ))
            }),
    {
        let parent_state_root = state.state_root();
        let ghost s0 = state@;
        let mut receipts: Vec<Receipt> = Vec::new();
        let mut index: usize = 0;
        while index < transactions.len()
            invariant
                state.wf(),
                s0 == old(state)@,
                index <= transactions@.len(),
                run_txs(s0, transactions@, index as nat) == (state@, Ok::<(), ExecutionError>(())),
                receipts@.len() == index,
                forall|i: int| 0 <= i < index ==> (#[trigger] receipts@[i]).index == i as u32
                    && receipts@[i].success,
            decreases transactions@.len() - index,
        {
            match state.execute(&transactions[index]) {
                Ok(()) => {},
                Err(e) => {
                    proof {
                        lemma_run_err(s0, transactions@, (index + 1) as nat, transactions@.len());
                    }
                    return Err(e);
                },
            }
            receipts.push(Receipt { index: #[verifier::truncate] (index as u32), success: true });
            index = index + 1;
        }
        if state.height == u64::MAX {
            return Err(ExecutionError::Overflow);
        }
        state.height = state.height + 1;
        let state_root = state.state_root();
        let batch_hash = hash_batch(state.chain_id, state.height, parent_state_root, state_root, &transactions);
        Ok(
            L2Batch {
                number: state.height,
                parent_state_root,
                state_root,
                transactions,
                receipts,
                batch_hash,
            },
        )
    }

    /// What a batch commits to on the base layer.
    pub fn commitment(l2_chain_id: u64, batch: &L2Batch) -> (c: L1SettlementCommitment)
        ensures
            c.l2_chain_id == l2_chain_id && c.batch_number == batch.number && c.state_root
                == batch.state_root && c.batch_hash == batch.batch_hash,
    {
        L1SettlementCommitment {
            l2_chain_id,
            batch_number: batch.number,
            state_root: batch.state_root,
            batch_hash: batch.batch_hash,
        }
    }
}

} // verus!
