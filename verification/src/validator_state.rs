//! Canonical validator state and its deterministic lifecycle transitions, replayable
//! from canonical blocks independently of the consensus engine.
use crate::codec::{
    be128, be64, holds_at, lemma_holds_at_split, lemma_holds_at_start, lemma_pow256_small,
    lemma_sp_lp_at, lemma_sp_num_at, lp, push_bytes, push_lp, push_u128, push_u64, sp_bytes,
    sp_lp, sp_num, take_array32, take_bytes, take_num, utf8_string,
};
use crate::dao_state::starts_with;
use crate::hashing::{sha256_of, simple_hash};
use crate::mempool::utf8;
use crate::ordmap::OrdMap;
use vstd::prelude::*;

verus! {

/// Tag that opens every encoded validator transition.
pub open spec fn transition_magic() -> Seq<u8> {
    utf8("ATC-VAL-TX-V1"@)
}

/// Tag that opens the bytes committed to by the validator root.
pub open spec fn validator_domain() -> Seq<u8> {
    utf8("ATC-VALIDATOR-STATE-V1"@)
}

/// Whether a key or identifier is all zero bytes.
pub open spec fn is_zero_key(k: [u8; 32]) -> bool {
    forall|i: int| 0 <= i < 32 ==> k@[i] == 0
}

fn zero_key(k: &[u8; 32]) -> (r: bool)
    ensures
        r == is_zero_key(*k),
{
    let mut i: usize = 0;
    while i < 32
        invariant
            i <= 32,
            forall|j: int| 0 <= j < i ==> k@[j] == 0,
        decreases 32 - i,
    {
        if k[i] != 0 {
            return false;
        }
        i = i + 1;
    }
    true
}

#[derive(Clone, Copy, Debug, PartialEq, Eq)]
pub struct ValidatorRecord {
    pub stake: u128,
    pub public_key: [u8; 32],
    pub activation_height: u64,
    pub active: bool,
    pub slashed_base_units: u128,
}

#[derive(Clone, Debug, PartialEq, Eq)]
pub enum ValidatorTransition {
    Register { address: String, stake: u128, public_key: [u8; 32], activation_height: u64 },
    RotateKey { address: String, public_key: [u8; 32], activation_height: u64 },
    Stake { address: String, amount: u128 },
    Unstake { address: String, amount: u128 },
    Slash {
        address: String,
        evidence_id: [u8; 32],
        evidence_height: u64,
        penalty: u128,
        activation_height: u64,
    },
    Unregister { address: String, activation_height: u64 },
}

/// A validator transition with its address taken by its characters.
pub enum TransitionModel {
    Register { address: Seq<char>, stake: u128, public_key: Seq<u8>, activation_height: u64 },
    RotateKey { address: Seq<char>, public_key: Seq<u8>, activation_height: u64 },
    Stake { address: Seq<char>, amount: u128 },
    Unstake { address: Seq<char>, amount: u128 },
    Slash {
        address: Seq<char>,
        evidence_id: Seq<u8>,
        evidence_height: u64,
        penalty: u128,
        activation_height: u64,
    },
    Unregister { address: Seq<char>, activation_height: u64 },
}

impl View for ValidatorTransition {
    type V = TransitionModel;

    open spec fn view(&self) -> TransitionModel {
        match self {
            ValidatorTransition::Register { address, stake, public_key, activation_height } =>
                TransitionModel::Register {
                address: address@,
                stake: *stake,
                public_key: public_key@,
                activation_height: *activation_height,
            },
            ValidatorTransition::RotateKey { address, public_key, activation_height } =>
                TransitionModel::RotateKey {
                address: address@,
                public_key: public_key@,
                activation_height: *activation_height,
            },
            ValidatorTransition::Stake { address, amount } => TransitionModel::Stake {
                address: address@,
                amount: *amount,
            },
            ValidatorTransition::Unstake { address, amount } => TransitionModel::Unstake {
                address: address@,
                amount: *amount,
            },
            ValidatorTransition::Slash {
                address,
                evidence_id,
                evidence_height,
                penalty,
                activation_height,
            } => TransitionModel::Slash {
                address: address@,
                evidence_id: evidence_id@,
                evidence_height: *evidence_height,
                penalty: *penalty,
                activation_height: *activation_height,
            },
            ValidatorTransition::Unregister { address, activation_height } =>
                TransitionModel::Unregister {
                address: address@,
                activation_height: *activation_height,
            },
        }
    }
}

/// Canonical encoding of a transition: the tag, a variant number, then the fields in
/// order, integers big-endian and the address length-prefixed.
pub open spec fn transition_bytes(t: TransitionModel) -> Seq<u8> {
    transition_magic() + transition_body(t)
}

/// The variant number of a transition, then its fields.
pub open spec fn transition_body(t: TransitionModel) -> Seq<u8> {
    match t {
        TransitionModel::Register { address, stake, public_key, activation_height } => seq![0u8]
            + lp(utf8(address)) + be128(stake) + public_key + be64(activation_height),
        TransitionModel::RotateKey { address, public_key, activation_height } => seq![1u8] + lp(
            utf8(address),
        ) + public_key + be64(activation_height),
        TransitionModel::Stake { address, amount } => seq![2u8] + lp(utf8(address)) + be128(
            amount,
        ),
        TransitionModel::Unstake { address, amount } => seq![3u8] + lp(utf8(address)) + be128(
            amount,
        ),
        TransitionModel::Slash {
            address,
            evidence_id,
            evidence_height,
            penalty,
            activation_height,
        } => seq![4u8] + lp(utf8(address)) + evidence_id + be64(evidence_height) + be128(penalty)
            + be64(activation_height),
        TransitionModel::Unregister { address, activation_height } => seq![5u8] + lp(
            utf8(address),
        ) + be64(activation_height),
    }
}

pub open spec fn vr_u64(b: Seq<u8>, q: int) -> Result<(u64, int), Seq<char>> {
    match sp_num(b, q, 8) {
        Some((v, q1)) => Ok((v as u64, q1)),
        None => Err("truncated u64"@),
    }
}

pub open spec fn vr_u128(b: Seq<u8>, q: int) -> Result<(u128, int), Seq<char>> {
    match sp_num(b, q, 16) {
        Some((v, q1)) => Ok((v as u128, q1)),
        None => Err("truncated u128"@),
    }
}

pub open spec fn vr_key(b: Seq<u8>, q: int) -> Result<(Seq<u8>, int), Seq<char>> {
    match sp_bytes(b, q, 32) {
        Some((v, q1)) => Ok((v, q1)),
        None => Err("truncated public key"@),
    }
}

pub open spec fn vr_address(b: Seq<u8>, q: int) -> Result<(Seq<char>, int), Seq<char>> {
    match sp_num(b, q, 4) {
        None => Err("truncated u32"@),
        Some((n, q1)) => match sp_bytes(b, q1, n) {
            None => Err("truncated address"@),
            Some((bs, q2)) => if vstd::utf8::valid_utf8(bs) {
                Ok((vstd::utf8::decode_utf8(bs), q2))
            } else {
                Err("invalid validator address"@)
            },
        },
    }
}

/// The fields of a transition of variant `tag`, read from `q`.
pub open spec fn vr_fields(b: Seq<u8>, q: int, tag: u8) -> Result<(TransitionModel, int), Seq<char>> {
    match vr_address(b, q) {
        Err(e) => Err(e),
        Ok((address, q)) => if tag == 0 {
            match vr_u128(b, q) {
                Err(e) => Err(e),
                Ok((stake, q)) => match vr_key(b, q) {
                    Err(e) => Err(e),
                    Ok((public_key, q)) => match vr_u64(b, q) {
                        Err(e) => Err(e),
                        Ok((activation_height, q)) => Ok(
                            (
                                TransitionModel::Register {
                                    address,
                                    stake,
                                    public_key,
                                    activation_height,
                                },
                                q,
                            ),
                        ),
                    },
                },
            }
        } else if tag == 1 {
            match vr_key(b, q) {
                Err(e) => Err(e),
                Ok((public_key, q)) => match vr_u64(b, q) {
                    Err(e) => Err(e),
                    Ok((activation_height, q)) => Ok(
                        (TransitionModel::RotateKey { address, public_key, activation_height }, q),
                    ),
                },
            }
        } else if tag == 2 {
            match vr_u128(b, q) {
                Err(e) => Err(e),
                Ok((amount, q)) => Ok((TransitionModel::Stake { address, amount }, q)),
            }
        } else if tag == 3 {
            match vr_u128(b, q) {
                Err(e) => Err(e),
                Ok((amount, q)) => Ok((TransitionModel::Unstake { address, amount }, q)),
            }
        } else if tag == 4 {
            match vr_key(b, q) {
                Err(e) => Err(e),
                Ok((evidence_id, q)) => match vr_u64(b, q) {
                    Err(e) => Err(e),
                    Ok((evidence_height, q)) => match vr_u128(b, q) {
                        Err(e) => Err(e),
                        Ok((penalty, q)) => match vr_u64(b, q) {
                            Err(e) => Err(e),
                            Ok((activation_height, q)) => Ok(
                                (
                                    TransitionModel::Slash {
                                        address,
                                        evidence_id,
                                        evidence_height,
                                        penalty,
                                        activation_height,
                                    },
                                    q,
                                ),
                            ),
                        },
                    },
                },
            }
        } else {
            match vr_u64(b, q) {
                Err(e) => Err(e),
                Ok((activation_height, q)) => Ok(
                    (TransitionModel::Unregister { address, activation_height }, q),
                ),
            }
        },
    }
}

/// What an encoded transition denotes: the tag, a known variant number, its fields,
/// and nothing after them.
pub open spec fn transition_parse(b: Seq<u8>) -> Result<TransitionModel, Seq<char>> {
    let m = transition_magic().len() as int;
    if !(m <= b.len() && b.subrange(0, m) == transition_magic()) {
        Err("invalid validator transition magic"@)
    } else if b.len() <= m {
        Err("missing validator transition tag"@)
    } else if b[m] > 5 {
        Err("unknown validator transition tag"@)
    } else {
        match vr_fields(b, m + 1, b[m]) {
            Err(e) => Err(e),
            Ok((t, q)) => if q != b.len() {
                Err("trailing validator transition bytes"@)
            } else {
                Ok(t)
            },
        }
    }
}

fn read_u64(b: &[u8], p: &mut usize) -> (r: Result<u64, String>)
    ensures
        match vr_u64(b@, *old(p) as int) {
            Ok((v, q)) => r == Ok::<u64, String>(v) && *final(p) == q,
            Err(m) => r matches Err(e) && e@ == m,
        },
{
    match take_num(b, p, 8) {
        Some(v) => Ok(v as u64),
        None => Err("truncated u64".to_string()),
    }
}

fn read_u128(b: &[u8], p: &mut usize) -> (r: Result<u128, String>)
    ensures
        match vr_u128(b@, *old(p) as int) {
            Ok((v, q)) => r == Ok::<u128, String>(v) && *final(p) == q,
            Err(m) => r matches Err(e) && e@ == m,
        },
{
    match take_num(b, p, 16) {
        Some(v) => Ok(v),
        None => Err("truncated u128".to_string()),
    }
}

fn read_key(b: &[u8], p: &mut usize) -> (r: Result<[u8; 32], String>)
    ensures
        match vr_key(b@, *old(p) as int) {
            Ok((v, q)) => r matches Ok(k) && k@ == v && *final(p) == q,
            Err(m) => r matches Err(e) && e@ == m,
        },
{
    match take_array32(b, p) {
        Some(k) => Ok(k),
        None => Err("truncated public key".to_string()),
    }
}

fn read_address(b: &[u8], p: &mut usize) -> (r: Result<String, String>)
    ensures
        match vr_address(b@, *old(p) as int) {
            Ok((v, q)) => r matches Ok(s) && s@ == v && *final(p) == q,
            Err(m) => r matches Err(e) && e@ == m,
        },
{
    let n = match take_num(b, p, 4) {
        Some(n) => n,
        None => return Err("truncated u32".to_string()),
    };
    proof {
        lemma_pow256_small();
    }
    let bs = match take_bytes(b, p, n as usize) {
        Some(bs) => bs,
        None => return Err("truncated address".to_string()),
    };
    match utf8_string(bs) {
        Some(s) => Ok(s),
        None => Err("invalid validator address".to_string()),
    }
}


impl ValidatorTransition {
    /// Canonical binary payload of the transition.
    pub fn encode(&self) -> (o: Vec<u8>)
        ensures
            o@ == transition_bytes(self@),
    {
        let mut out: Vec<u8> = Vec::new();
        push_bytes(&mut out, "ATC-VAL-TX-V1".as_bytes());
        match self {
            ValidatorTransition::Register { address, stake, public_key, activation_height } => {
                out.push(0);
                push_lp(&mut out, address.as_str().as_bytes());
                push_u128(&mut out, *stake);
                push_bytes(&mut out, public_key.as_slice());
                push_u64(&mut out, *activation_height);
            },
            ValidatorTransition::RotateKey { address, public_key, activation_height } => {
                out.push(1);
                push_lp(&mut out, address.as_str().as_bytes());
                push_bytes(&mut out, public_key.as_slice());
                push_u64(&mut out, *activation_height);
            },
            ValidatorTransition::Stake { address, amount } => {
                out.push(2);
                push_lp(&mut out, address.as_str().as_bytes());
                push_u128(&mut out, *amount);
            },
            ValidatorTransition::Unstake { address, amount } => {
                out.push(3);
                push_lp(&mut out, address.as_str().as_bytes());
                push_u128(&mut out, *amount);
            },
            ValidatorTransition::Slash {
                address,
                evidence_id,
                evidence_height,
                penalty,
                activation_height,
            } => {
                out.push(4);
                push_lp(&mut out, address.as_str().as_bytes());
                push_bytes(&mut out, evidence_id.as_slice());
                push_u64(&mut out, *evidence_height);
                push_u128(&mut out, *penalty);
                push_u64(&mut out, *activation_height);
            },
            ValidatorTransition::Unregister { address, activation_height } => {
                out.push(5);
                push_lp(&mut out, address.as_str().as_bytes());
                push_u64(&mut out, *activation_height);
            },
        }
        assert(out@ =~= transition_bytes(self@));
        out
    }

    /// Identifier of the transition: the hash of its encoding.
    pub fn id(&self) -> (r: [u8; 32])
        ensures
            r@ == sha256_of(transition_bytes(self@)),
    {
        let e = self.encode();
        simple_hash(e.as_slice())
    }

    /// Reads a transition from its canonical encoding.
    pub fn decode(bytes: &[u8]) -> (r: Result<Self, String>)
        ensures
            match transition_parse(bytes@) {
                Ok(t) => r matches Ok(x) && x@ == t,
                Err(m) => r matches Err(e) && e@ == m,
            },
    {
        if !starts_with(bytes, "ATC-VAL-TX-V1".as_bytes()) {
            return Err("invalid validator transition magic".to_string());
        }
        let mut p: usize = "ATC-VAL-TX-V1".as_bytes().len();
        if p >= bytes.len() {
            return Err("missing validator transition tag".to_string());
        }
        let tag = bytes[p];
        p = p + 1;
        if tag > 5 {
            return Err("unknown validator transition tag".to_string());
        }
        let address = read_address(bytes, &mut p)?;
        let out = if tag == 0 {
            let stake = read_u128(bytes, &mut p)?;
            let public_key = read_key(bytes, &mut p)?;
            let activation_height = read_u64(bytes, &mut p)?;
            ValidatorTransition::Register { address, stake, public_key, activation_height }
        } else if tag == 1 {
            let public_key = read_key(bytes, &mut p)?;
            let activation_height = read_u64(bytes, &mut p)?;
            ValidatorTransition::RotateKey { address, public_key, activation_height }
        } else if tag == 2 {
            let amount = read_u128(bytes, &mut p)?;
            ValidatorTransition::Stake { address, amount }
        } else if tag == 3 {
            let amount = read_u128(bytes, &mut p)?;
            ValidatorTransition::Unstake { address, amount }
        } else if tag == 4 {
            let evidence_id = read_key(bytes, &mut p)?;
            let evidence_height = read_u64(bytes, &mut p)?;
            let penalty = read_u128(bytes, &mut p)?;
            let activation_height = read_u64(bytes, &mut p)?;
            ValidatorTransition::Slash {
                address,
                evidence_id,
                evidence_height,
                penalty,
                activation_height,
            }
        } else {
            let activation_height = read_u64(bytes, &mut p)?;
            ValidatorTransition::Unregister { address, activation_height }
        };
        if p != bytes.len() {
            return Err("trailing validator transition bytes".to_string());
        }
        Ok(out)
    }
}


/// What a transition does to the validators, and whether it is accepted. A slash
/// whose accounting overflows keeps the reduced stake and is refused.
pub open spec fn transition_effect(m: Map<Seq<char>, ValidatorRecord>, t: ValidatorTransition) -> (
    Map<Seq<char>, ValidatorRecord>,
    Result<(), Seq<char>>,
) {
    match t {
        ValidatorTransition::Register { address, stake, public_key, activation_height } => {
            if address@.len() == 0 || stake == 0 || is_zero_key(public_key) {
                (m, Err("invalid validator registration"@))
            } else if m.contains_key(address@) {
                (m, Err("validator already registered"@))
            } else {
                (
                    m.insert(
                        address@,
                        ValidatorRecord {
                            stake,
                            public_key,
                            activation_height,
                            active: true,
                            slashed_base_units: 0,
                        },
                    ),
                    Ok(()),
                )
            }
        },
        ValidatorTransition::RotateKey { address, public_key, activation_height } => {
            if is_zero_key(public_key) {
                (m, Err("validator public key must not be zero"@))
            } else if !m.contains_key(address@) {
                (m, Err("validator not found"@))
            } else {
                (
                    m.insert(
                        address@,
                        ValidatorRecord { public_key, activation_height, ..m[address@] },
                    ),
                    Ok(()),
                )
            }
        },
        ValidatorTransition::Stake { address, amount } => {
            if !m.contains_key(address@) {
                (m, Err("validator not found"@))
            } else if m[address@].stake + amount > u128::MAX {
                (m, Err("validator stake overflow"@))
            } else {
                (
                    m.insert(
                        address@,
                        ValidatorRecord { stake: (m[address@].stake + amount) as u128, ..m[address@] },
                    ),
                    Ok(()),
                )
            }
        },
        ValidatorTransition::Unstake { address, amount } => {
            if !m.contains_key(address@) {
                (m, Err("validator not found"@))
            } else if m[address@].stake < amount {
                (m, Err("insufficient validator stake"@))
            } else {
                (
                    m.insert(
                        address@,
                        ValidatorRecord { stake: (m[address@].stake - amount) as u128, ..m[address@] },
                    ),
                    Ok(()),
                )
            }
        },
        ValidatorTransition::Slash {
            address,
            evidence_id,
            evidence_height,
            penalty,
            activation_height,
        } => {
            if is_zero_key(evidence_id) || penalty == 0 {
                (m, Err("invalid slashing transition"@))
            } else if !m.contains_key(address@) {
                (m, Err("validator not found"@))
            } else {
                let v = m[address@];
                let applied: u128 = if penalty < v.stake {
                    penalty
                } else {
                    v.stake
                };
                let reduced = ValidatorRecord { stake: (v.stake - applied) as u128, ..v };
                if v.slashed_base_units + applied > u128::MAX {
                    (m.insert(address@, reduced), Err("slash accounting overflow"@))
                } else {
                    (
                        m.insert(
                            address@,
                            ValidatorRecord {
                                slashed_base_units: (v.slashed_base_units + applied) as u128,
                                activation_height,
                                ..reduced
                            },
                        ),
                        Ok(()),
                    )
                }
            }
        },
        ValidatorTransition::Unregister { address, activation_height } => {
            if !m.contains_key(address@) {
                (m, Err("validator not found"@))
            } else {
                (
                    m.insert(
                        address@,
                        ValidatorRecord { active: false, activation_height, ..m[address@] },
                    ),
                    Ok(()),
                )
            }
        },
    }
}

/// The validators as committed to by the root, in address order.
pub open spec fn validators_bytes(s: Seq<(Seq<char>, ValidatorRecord)>) -> Seq<u8>
    decreases s.len(),
{
    if s.len() == 0 {
        Seq::empty()
    } else {
        let v = s.last().1;
        validators_bytes(s.drop_last()) + lp(utf8(s.last().0)) + be128(v.stake) + v.public_key@
            + be64(v.activation_height) + seq![if v.active { 1u8 } else { 0u8 }] + be128(
            v.slashed_base_units,
        )
    }
}

/// Validators by address.
#[derive(Clone, Debug, PartialEq, Eq)]
pub struct ValidatorState {
    validators: OrdMap<String, ValidatorRecord>,
}

impl View for ValidatorState {
    type V = Map<Seq<char>, ValidatorRecord>;

    closed spec fn view(&self) -> Map<Seq<char>, ValidatorRecord> {
        self.validators@
    }
}

impl ValidatorState {
    pub closed spec fn wf(&self) -> bool {
        self.validators.wf()
    }

    /// The validators in address order.
    pub closed spec fn records(&self) -> Seq<(Seq<char>, ValidatorRecord)> {
        self.validators.pairs()
    }

    pub fn new() -> (s: Self)
        ensures
            s.wf(),
            s@ == Map::<Seq<char>, ValidatorRecord>::empty(),
            s.records().len() == 0,
    {
        ValidatorState { validators: OrdMap::new() }
    }

    /// The record of `address`.
    pub fn get(&self, address: &str) -> (r: Option<&ValidatorRecord>)
        requires
            self.wf(),
        ensures
            match r {
                Some(v) => self@.contains_key(address@) && *v == self@[address@],
                None => !self@.contains_key(address@),
            },
    {
        self.validators.get(&address.to_string())
    }

    /// A copy of the validators.
    pub fn snapshot(&self) -> (m: OrdMap<String, ValidatorRecord>)
        requires
            self.wf(),
        ensures
            m.wf(),
            m@ == self@,
            m.pairs() == self.records(),
    {
        self.validators.duplicate()
    }

    /// Puts back validators taken by `snapshot`.
    pub fn restore(&mut self, validators: OrdMap<String, ValidatorRecord>)
        requires
            validators.wf(),
        ensures
            final(self).wf(),
            final(self)@ == validators@,
            final(self).records() == validators.pairs(),
    {
        self.validators = validators;
    }

    /// Applies one lifecycle transition.
    pub fn apply(&mut self, transition: &ValidatorTransition) -> (r: Result<(), String>)
        requires
            old(self).wf(),
        ensures
            final(self).wf(),
            final(self)@ == transition_effect(old(self)@, *transition).0,
            match transition_effect(old(self)@, *transition).1 {
                Ok(_) => r is Ok,
                Err(m) => r matches Err(e) && e@ == m,
            },
    {
        match transition {
            ValidatorTransition::Register { address, stake, public_key, activation_height } => {
                if address.as_str().is_empty() || *stake == 0 || zero_key(public_key) {
                    return Err("invalid validator registration".to_string());
                }
                if self.validators.contains_key(address) {
                    return Err("validator already registered".to_string());
                }
                self.validators.insert(
                    address.clone(),
                    ValidatorRecord {
                        stake: *stake,
                        public_key: *public_key,
                        activation_height: *activation_height,
                        active: true,
                        slashed_base_units: 0,
                    },
                );
            },
            ValidatorTransition::RotateKey { address, public_key, activation_height } => {
                if zero_key(public_key) {
                    return Err("validator public key must not be zero".to_string());
                }
                let v = match self.validators.get(address) {
                    Some(v) => *v,
                    None => return Err("validator not found".to_string()),
                };
                self.validators.insert(
                    address.clone(),
                    ValidatorRecord {
                        public_key: *public_key,
                        activation_height: *activation_height,
                        ..v
                    },
                );
            },
            ValidatorTransition::Stake { address, amount } => {
                let v = match self.validators.get(address) {
                    Some(v) => *v,
                    None => return Err("validator not found".to_string()),
                };
                let stake = match v.stake.checked_add(*amount) {
                    Some(s) => s,
                    None => return Err("validator stake overflow".to_string()),
                };
                self.validators.insert(address.clone(), ValidatorRecord { stake, ..v });
            },
            ValidatorTransition::Unstake { address, amount } => {
                let v = match self.validators.get(address) {
                    Some(v) => *v,
                    None => return Err("validator not found".to_string()),
                };
                let stake = match v.stake.checked_sub(*amount) {
                    Some(s) => s,
                    None => return Err("insufficient validator stake".to_string()),
                };
                self.validators.insert(address.clone(), ValidatorRecord { stake, ..v });
            },
            ValidatorTransition::Slash {
                address,
                evidence_id,
                evidence_height: _,
                penalty,
                activation_height,
            } => {
                if zero_key(evidence_id) || *penalty == 0 {
                    return Err("invalid slashing transition".to_string());
                }
                let v = match self.validators.get(address) {
                    Some(v) => *v,
                    None => return Err("validator not found".to_string()),
                };
                let applied = if *penalty < v.stake {
                    *penalty
                } else {
                    v.stake
                };
                let reduced = ValidatorRecord { stake: v.stake - applied, ..v };
                match v.slashed_base_units.checked_add(applied) {
                    Some(slashed) => {
                        self.validators.insert(
                            address.clone(),
                            ValidatorRecord {
                                slashed_base_units: slashed,
                                activation_height: *activation_height,
                                ..reduced
                            },
                        );
                    },
                    None => {
                        self.validators.insert(address.clone(), reduced);
                        return Err("slash accounting overflow".to_string());
                    },
                }
            },
            ValidatorTransition::Unregister { address, activation_height } => {
                let v = match self.validators.get(address) {
                    Some(v) => *v,
                    None => return Err("validator not found".to_string()),
                };
                self.validators.insert(
                    address.clone(),
                    ValidatorRecord { active: false, activation_height: *activation_height, ..v },
                );
            },
        }
        Ok(())
    }

    /// Deterministic commitment over every validator record, in address order.
    pub fn root(&self) -> (r: [u8; 32])
        requires
            self.wf(),
        ensures
            r@ == sha256_of(validator_domain() + validators_bytes(self.records())),
    {
        let ghost s = self.records();
        let n = self.validators.len();
        let mut bytes: Vec<u8> = Vec::new();
        push_bytes(&mut bytes, "ATC-VALIDATOR-STATE-V1".as_bytes());
        let mut i: usize = 0;
        assert(s.take(0) =~= Seq::<(Seq<char>, ValidatorRecord)>::empty());
        while i < n
            invariant
                s == self.records(),
                n == s.len(),
                i <= n,
                bytes@ == validator_domain() + validators_bytes(s.take(i as int)),
            decreases n - i,
        {
            let address = self.validators.key_at(i);
            let v = *self.validators.value_at(i);
            push_lp(&mut bytes, address.as_str().as_bytes());
            push_u128(&mut bytes, v.stake);
            push_bytes(&mut bytes, v.public_key.as_slice());
            push_u64(&mut bytes, v.activation_height);
            bytes.push(if v.active {
                1
            } else {
                0
            });
            push_u128(&mut bytes, v.slashed_base_units);
            proof {
                assert(s.take(i as int + 1).drop_last() =~= s.take(i as int));
                assert(bytes@ =~= validator_domain() + validators_bytes(s.take(i as int + 1)));
            }
            i = i + 1;
        }
        assert(s.take(n as int) =~= s);
        simple_hash(bytes.as_slice())
    }
}

impl Default for ValidatorState {
    fn default() -> (s: Self)
        ensures
            s.wf(),
            s@ == Map::<Seq<char>, ValidatorRecord>::empty(),
    {
        ValidatorState::new()
    }
}


/// The address a transition concerns.
pub open spec fn transition_address(t: TransitionModel) -> Seq<char> {
    match t {
        TransitionModel::Register { address, .. } => address,
        TransitionModel::RotateKey { address, .. } => address,
        TransitionModel::Stake { address, .. } => address,
        TransitionModel::Unstake { address, .. } => address,
        TransitionModel::Slash { address, .. } => address,
        TransitionModel::Unregister { address, .. } => address,
    }
}

proof fn lemma_vr_u64_at(b: Seq<u8>, q: int, v: u64)
    requires
        holds_at(b, q, be64(v)),
    ensures
        vr_u64(b, q) == Ok::<(u64, int), Seq<char>>((v, q + 8)),
{
    lemma_pow256_small();
    lemma_sp_num_at(b, q, v as nat, 8);
}

proof fn lemma_vr_u128_at(b: Seq<u8>, q: int, v: u128)
    requires
        holds_at(b, q, be128(v)),
    ensures
        vr_u128(b, q) == Ok::<(u128, int), Seq<char>>((v, q + 16)),
{
    lemma_pow256_small();
    lemma_sp_num_at(b, q, v as nat, 16);
}

proof fn lemma_vr_key_at(b: Seq<u8>, q: int, k: Seq<u8>)
    requires
        holds_at(b, q, k),
        k.len() == 32,
    ensures
        vr_key(b, q) == Ok::<(Seq<u8>, int), Seq<char>>((k, q + 32)),
{
    reveal(holds_at);
}

proof fn lemma_vr_address_at(b: Seq<u8>, q: int, a: Seq<char>)
    requires
        holds_at(b, q, lp(utf8(a))),
        utf8(a).len() < 0x1_0000_0000,
    ensures
        vr_address(b, q) == Ok::<(Seq<char>, int), Seq<char>>((a, q + 4 + utf8(a).len())),
{
    lemma_sp_lp_at(b, q, utf8(a));
    vstd::utf8::encode_utf8_valid_utf8(a);
    vstd::utf8::encode_utf8_decode_utf8(a);
}

/// The variant number of a transition.
pub open spec fn transition_tag(t: TransitionModel) -> u8 {
    match t {
        TransitionModel::Register { .. } => 0,
        TransitionModel::RotateKey { .. } => 1,
        TransitionModel::Stake { .. } => 2,
        TransitionModel::Unstake { .. } => 3,
        TransitionModel::Slash { .. } => 4,
        TransitionModel::Unregister { .. } => 5,
    }
}

/// Whether every key of a transition has 32 bytes.
pub open spec fn transition_keys_sized(t: TransitionModel) -> bool {
    match t {
        TransitionModel::Register { public_key, .. } => public_key.len() == 32,
        TransitionModel::RotateKey { public_key, .. } => public_key.len() == 32,
        TransitionModel::Slash { evidence_id, .. } => evidence_id.len() == 32,
        _ => true,
    }
}

proof fn lemma_byte_at(b: Seq<u8>, q: int, x: u8)
    requires
        holds_at(b, q, seq![x]),
    ensures
        0 <= q < b.len(),
        b[q] == x,
{
    reveal(holds_at);
    assert(b.subrange(q, q + 1)[0] == x);
}

#[verifier::spinoff_prover]
proof fn lemma_body_at(b: Seq<u8>, q0: int, t: TransitionModel)
    requires
        holds_at(b, q0, transition_body(t)),
        utf8(transition_address(t)).len() < 0x1_0000_0000,
        transition_keys_sized(t),
    ensures
        0 <= q0 < b.len(),
        b[q0] == transition_tag(t),
        vr_fields(b, q0 + 1, transition_tag(t)) == Ok::<(TransitionModel, int), Seq<char>>(
            (t, q0 + transition_body(t).len()),
        ),
{
    broadcast use crate::codec::lemma_be_length;

    let a = transition_address(t);
    let la = lp(utf8(a));
    let q: int = q0 + 1;
    let qa: int = q + la.len();
    let tag = transition_tag(t);
    let x0 = seq![tag] + la;
    match t {
        TransitionModel::Register { address, stake, public_key, activation_height } => {
            let x1 = x0 + be128(stake);
            let x2 = x1 + public_key;
            lemma_holds_at_split(b, q0, x2, be64(activation_height));
            lemma_holds_at_split(b, q0, x1, public_key);
            lemma_holds_at_split(b, q0, x0, be128(stake));
            lemma_vr_address_at_split(b, q0, tag, a);
            lemma_vr_u128_at(b, qa, stake);
            lemma_vr_key_at(b, qa + 16, public_key);
            lemma_vr_u64_at(b, qa + 48, activation_height);
        },
        TransitionModel::RotateKey { address, public_key, activation_height } => {
            let x1 = x0 + public_key;
            lemma_holds_at_split(b, q0, x1, be64(activation_height));
            lemma_holds_at_split(b, q0, x0, public_key);
            lemma_vr_address_at_split(b, q0, tag, a);
            lemma_vr_key_at(b, qa, public_key);
            lemma_vr_u64_at(b, qa + 32, activation_height);
        },
        TransitionModel::Stake { address, amount } => {
            lemma_holds_at_split(b, q0, x0, be128(amount));
            lemma_vr_address_at_split(b, q0, tag, a);
            lemma_vr_u128_at(b, qa, amount);
        },
        TransitionModel::Unstake { address, amount } => {
            lemma_holds_at_split(b, q0, x0, be128(amount));
            lemma_vr_address_at_split(b, q0, tag, a);
            lemma_vr_u128_at(b, qa, amount);
        },
        TransitionModel::Slash {
            address,
            evidence_id,
            evidence_height,
            penalty,
            activation_height,
        } => {
            let x1 = x0 + evidence_id;
            let x2 = x1 + be64(evidence_height);
            let x3 = x2 + be128(penalty);
            lemma_holds_at_split(b, q0, x3, be64(activation_height));
            lemma_holds_at_split(b, q0, x2, be128(penalty));
            lemma_holds_at_split(b, q0, x1, be64(evidence_height));
            lemma_holds_at_split(b, q0, x0, evidence_id);
            lemma_vr_address_at_split(b, q0, tag, a);
            lemma_vr_key_at(b, qa, evidence_id);
            lemma_vr_u64_at(b, qa + 32, evidence_height);
            lemma_vr_u128_at(b, qa + 40, penalty);
            lemma_vr_u64_at(b, qa + 56, activation_height);
        },
        TransitionModel::Unregister { address, activation_height } => {
            lemma_holds_at_split(b, q0, x0, be64(activation_height));
            lemma_vr_address_at_split(b, q0, tag, a);
            lemma_vr_u64_at(b, qa, activation_height);
        },
    }
}

/// Where a variant number and an address stand, the number is the byte there and the
/// address reads back after it.
proof fn lemma_vr_address_at_split(b: Seq<u8>, q0: int, tag: u8, a: Seq<char>)
    requires
        holds_at(b, q0, seq![tag] + lp(utf8(a))),
        utf8(a).len() < 0x1_0000_0000,
    ensures
        0 <= q0 < b.len(),
        b[q0] == tag,
        vr_address(b, q0 + 1) == Ok::<(Seq<char>, int), Seq<char>>(
            (a, q0 + 1 + 4 + utf8(a).len()),
        ),
{
    lemma_holds_at_split(b, q0, seq![tag], lp(utf8(a)));
    lemma_byte_at(b, q0, tag);
    lemma_vr_address_at(b, q0 + 1, a);
}

/// Decoding the canonical encoding of a transition gives it back, when its address
/// fits the 32-bit length prefix.
pub proof fn law_transition_roundtrip(t: ValidatorTransition)
    requires
        utf8(transition_address(t@)).len() < 0x1_0000_0000,
    ensures
        transition_parse(transition_bytes(t@)) == Ok::<TransitionModel, Seq<char>>(t@),
{
    let m = t@;
    let b = transition_bytes(m);
    let mg = transition_magic();
    crate::codec::lemma_holds_at_whole(b);
    lemma_holds_at_split(b, 0, mg, transition_body(m));
    lemma_holds_at_start(b, mg);
    lemma_body_at(b, mg.len() as int, m);
}

} // verus!
