//! Validator-weighted finality with signed votes, checked against the validator set
//! that was active at the height of the block.
use crate::codec::{be128, be64, lp, push_bytes, push_lp, push_u128, push_u64};
use crate::crypto::{
    ed25519_accepts, ed25519_key_is_valid, ed25519_key_valid, ed25519_verify,
};
use crate::economics::HALVING_INTERVAL_BLOCKS;
use crate::hashing::{sha256_of, simple_hash};
use crate::mempool::utf8;
use crate::ordmap::{bytes_equal, map_of, map_sum, pairs_sum, OrdMap};
use vstd::prelude::*;

verus! {

/// Blocks per consensus epoch.
pub const EPOCH_LENGTH_BLOCKS: u64 = HALVING_INTERVAL_BLOCKS;

/// Two signed votes of one validator for conflicting blocks at one height.
#[derive(Clone, Debug, PartialEq, Eq)]
pub struct SlashingEvidence {
    pub validator: String,
    pub height: u64,
    pub block_a: [u8; 32],
    pub block_b: [u8; 32],
    pub approve_a: bool,
    pub approve_b: bool,
    pub public_key: [u8; 32],
    pub signature_a: [u8; 64],
    pub signature_b: [u8; 64],
    pub reason: String,
}

/// The bytes whose hash identifies a piece of slashing evidence.
pub open spec fn evidence_id_bytes(e: SlashingEvidence) -> Seq<u8> {
    utf8("ATC-SLASH-V1"@) + lp(utf8(e.validator@)) + be64(e.height) + e.block_a@ + e.block_b@
        + lp(utf8(e.reason@))
}

impl SlashingEvidence {
    pub fn id(&self) -> (r: [u8; 32])
        ensures
            r@ == sha256_of(evidence_id_bytes(*self)),
    {
        let mut b: Vec<u8> = Vec::new();
        push_bytes(&mut b, "ATC-SLASH-V1".as_bytes());
        push_lp(&mut b, self.validator.as_str().as_bytes());
        push_u64(&mut b, self.height);
        push_bytes(&mut b, self.block_a.as_slice());
        push_bytes(&mut b, self.block_b.as_slice());
        push_lp(&mut b, self.reason.as_str().as_bytes());
        assert(b@ =~= evidence_id_bytes(*self));
        simple_hash(b.as_slice())
    }
}

/// A validator's signed approval or rejection of a block.
#[derive(Clone, Debug, PartialEq, Eq)]
pub struct Vote {
    pub block: [u8; 32],
    pub voter: String,
    pub approve: bool,
    pub signature: [u8; 64],
    pub public_key: [u8; 32],
}

/// The bytes a vote's signature covers.
pub open spec fn vote_bytes(chain: u64, v: Vote) -> Seq<u8> {
    utf8("ATC-VOTE-V1"@) + be64(chain) + v.block@ + seq![if v.approve { 1u8 } else { 0u8 }] + lp(
        utf8(v.voter@),
    )
}

pub fn vote_signing_bytes(chain: u64, v: &Vote) -> (b: Vec<u8>)
    ensures
        b@ == vote_bytes(chain, *v),
{
    let mut b: Vec<u8> = Vec::new();
    push_bytes(&mut b, "ATC-VOTE-V1".as_bytes());
    push_u64(&mut b, chain);
    push_bytes(&mut b, v.block.as_slice());
    b.push(if v.approve {
        1
    } else {
        0
    });
    push_lp(&mut b, v.voter.as_str().as_bytes());
    assert(b@ =~= vote_bytes(chain, *v));
    b
}

/// The bytes each of the two signatures of slashing evidence covers.
pub open spec fn slash_bytes(chain: u64, height: u64, block: Seq<u8>, approve: bool, validator: Seq<char>) -> Seq<u8> {
    utf8("ATC-SLASH-V1"@) + be64(chain) + be64(height) + block + seq![
        if approve {
            1u8
        } else {
            0u8
        },
    ] + lp(utf8(validator))
}

fn slash_signing_bytes(chain: u64, height: u64, block: &[u8; 32], approve: bool, validator: &String) -> (b: Vec<u8>)
    ensures
        b@ == slash_bytes(chain, height, block@, approve, validator@),
{
    let mut b: Vec<u8> = Vec::new();
    push_bytes(&mut b, "ATC-SLASH-V1".as_bytes());
    push_u64(&mut b, chain);
    push_u64(&mut b, height);
    push_bytes(&mut b, block.as_slice());
    b.push(if approve {
        1
    } else {
        0
    });
    push_lp(&mut b, validator.as_str().as_bytes());
    assert(b@ =~= slash_bytes(chain, height, block@, approve, validator@));
    b
}

/// Whether every registered validator has a public key, and no key is left over.
pub open spec fn complete_bindings(v: Map<Seq<char>, u128>, k: Map<Seq<char>, [u8; 32]>) -> bool {
    v.len() == k.len() && forall|id: Seq<char>| #[trigger] v.contains_key(id) ==> k.contains_key(id)
}

/// Whether `k` is the latest activation height at or before `h` in `heights`.
pub open spec fn is_activation_for(heights: Set<u64>, h: u64, k: u64) -> bool {
    heights.contains(k) && k <= h && forall|j: u64| #[trigger] heights.contains(j) && j <= h ==> j <= k
}

/// Whether vote `i` of the list is the first approval of its voter.
pub open spec fn first_approval(l: Seq<Vote>, i: int) -> bool {
    l[i].approve && forall|j: int| 0 <= j < i ==> !(#[trigger] l[j].approve && l[j].voter@ == l[i].voter@)
}

/// Number of distinct voters that approve, counting each voter's first approval.
pub open spec fn distinct_approvals(l: Seq<Vote>) -> nat
    decreases l.len(),
{
    if l.len() == 0 {
        0
    } else {
        distinct_approvals(l.drop_last()) + if first_approval(l, l.len() - 1) {
            1nat
        } else {
            0nat
        }
    }
}

/// Stake behind the approvals of a list that were accepted at height `h`, where
/// `hs` holds the height at which each vote was accepted; voters without stake count
/// nothing.
pub open spec fn approved_stake_at(l: Seq<Vote>, hs: Seq<u64>, stakes: Map<Seq<char>, u128>, h: u64) -> int
    decreases l.len(),
{
    if l.len() == 0 {
        0
    } else {
        approved_stake_at(l.drop_last(), hs, stakes, h) + if l.len() - 1 < hs.len() && hs[l.len()
            - 1] == h && l.last().approve && stakes.contains_key(l.last().voter@) {
            stakes[l.last().voter@] as int
        } else {
            0
        }
    }
}

proof fn lemma_approved_stake_at_nonneg(l: Seq<Vote>, hs: Seq<u64>, stakes: Map<Seq<char>, u128>, h: u64)
    ensures
        approved_stake_at(l, hs, stakes, h) >= 0,
    decreases l.len(),
{
    if l.len() > 0 {
        lemma_approved_stake_at_nonneg(l.drop_last(), hs, stakes, h);
    }
}

/// `x`, or `u128::MAX` where it is larger.
pub open spec fn capped128(x: int) -> u128 {
    if x > u128::MAX {
        u128::MAX
    } else {
        x as u128
    }
}

/// The bytes committed to by a validator set: for each validator in address order,
/// its address, stake and public key; `None` where a validator has no key.
pub open spec fn validator_set_bytes(s: Seq<(Seq<char>, u128)>, keys: Map<Seq<char>, [u8; 32]>) -> Option<Seq<u8>>
    decreases s.len(),
{
    if s.len() == 0 {
        Some(utf8("ATC-VALIDATOR-SET-V1"@))
    } else {
        match validator_set_bytes(s.drop_last(), keys) {
            None => None,
            Some(b) => if keys.contains_key(s.last().0) {
                Some(b + lp(utf8(s.last().0)) + be128(s.last().1) + keys[s.last().0]@)
            } else {
                None
            },
        }
    }
}

/// Whether every validator of the list has an address, stake, and a valid public key.
pub open spec fn validator_set_valid(s: Seq<(Seq<char>, u128)>, keys: Map<Seq<char>, [u8; 32]>) -> bool {
    forall|i: int|
        0 <= i < s.len() ==> (#[trigger] s[i]).0.len() > 0 && s[i].1 != 0 && keys.contains_key(s[i].0)
            && ed25519_key_valid(keys[s[i].0]@)
}

pub open spec fn id_bytes(chain: u64, proposer: Seq<char>, h: u64, parent: Seq<u8>, state: Seq<u8>, tx: Seq<u8>) -> Seq<u8> {
    be64(chain) + be64(h) + parent + state + tx + utf8(proposer)
}

pub type ValidatorSnapshot = (OrdMap<String, u128>, OrdMap<String, [u8; 32]>);

/// The validator registry, the snapshots of it that authenticate each height, the
/// votes, slashing records and finality of the chain.
pub struct ConsensusEngine {
    pub chain_id: u64,
    pub proposer: String,
    height: u64,
    finalized: Option<(u64, [u8; 32])>,
    slashed: OrdMap<String, u128>,
    votes: OrdMap<[u8; 32], Vec<Vote>>,
    vote_heights: OrdMap<[u8; 32], Vec<u64>>,
    validators: OrdMap<String, u128>,
    validator_keys: OrdMap<String, [u8; 32]>,
    validator_snapshots: OrdMap<u64, ValidatorSnapshot>,
}

/// Abstract content of the engine.
pub struct EngineModel {
    pub chain_id: u64,
    pub proposer: Seq<char>,
    pub height: u64,
    pub finalized: Option<(u64, [u8; 32])>,
    pub slashed: Map<Seq<char>, u128>,
    pub votes: Map<Seq<u8>, Seq<Vote>>,
    pub vote_heights: Map<Seq<u8>, Seq<u64>>,
    pub validators: Map<Seq<char>, u128>,
    pub keys: Map<Seq<char>, [u8; 32]>,
    pub snapshots: Map<u64, (Map<Seq<char>, u128>, Map<Seq<char>, [u8; 32]>)>,
}

pub open spec fn snapshot_views(m: Map<u64, ValidatorSnapshot>) -> Map<u64, (Map<Seq<char>, u128>, Map<Seq<char>, [u8; 32]>)> {
    m.map_values(|s: ValidatorSnapshot| (s.0@, s.1@))
}

pub open spec fn vote_lists(m: Map<Seq<u8>, Vec<Vote>>) -> Map<Seq<u8>, Seq<Vote>> {
    m.map_values(|l: Vec<Vote>| l@)
}

pub open spec fn height_lists(m: Map<Seq<u8>, Vec<u64>>) -> Map<Seq<u8>, Seq<u64>> {
    m.map_values(|l: Vec<u64>| l@)
}

impl View for ConsensusEngine {
    type V = EngineModel;

    closed spec fn view(&self) -> EngineModel {
        EngineModel {
            chain_id: self.chain_id,
            proposer: self.proposer@,
            height: self.height,
            finalized: self.finalized,
            slashed: self.slashed@,
            votes: vote_lists(self.votes@),
            vote_heights: height_lists(self.vote_heights@),
            validators: self.validators@,
            keys: self.validator_keys@,
            snapshots: snapshot_views(self.validator_snapshots@),
        }
    }
}


/// Whether every validator of `v` has a key in `k`, and both have as many entries.
pub fn bindings_complete(v: &OrdMap<String, u128>, k: &OrdMap<String, [u8; 32]>) -> (r: bool)
    requires
        v.wf(),
        k.wf(),
    ensures
        r == complete_bindings(v@, k@),
{
    proof {
        v.lemma_len();
        k.lemma_len();
    }
    if v.len() != k.len() {
        return false;
    }
    let n = v.len();
    let mut i: usize = 0;
    while i < n
        invariant
            v.wf(),
            k.wf(),
            n == v.pairs().len(),
            i <= n,
            forall|j: int| 0 <= j < i ==> k@.contains_key(#[trigger] v.pairs()[j].0),
        decreases n - i,
    {
        if !k.contains_key(v.key_at(i)) {
            proof {
                v.lemma_entry(i as int);
            }
            return false;
        }
        i = i + 1;
    }
    proof {
        assert forall|id: Seq<char>| #[trigger] v@.contains_key(id) implies k@.contains_key(id) by {
            v.lemma_dom(id);
        }
    }
    true
}

impl ConsensusEngine {
    pub closed spec fn wf(&self) -> bool {
        &&& self.slashed.wf()
        &&& self.votes.wf()
        &&& self.vote_heights.wf()
        &&& self.validators.wf()
        &&& self.validator_keys.wf()
        &&& self.validator_snapshots.wf()
        &&& forall|h: u64| #[trigger]
            self.validator_snapshots@.contains_key(h) ==> self.validator_snapshots@[h].0.wf()
                && self.validator_snapshots@[h].1.wf()
    }

    /// The registered validators in address order.
    pub closed spec fn validator_list(&self) -> Seq<(Seq<char>, u128)> {
        self.validators.pairs()
    }

    /// The validators of the snapshot activated at `h`, in address order.
    pub closed spec fn snapshot_list(&self, h: u64) -> Seq<(Seq<char>, u128)> {
        self.validator_snapshots@[h].0.pairs()
    }

    pub fn new(chain_id: u64, proposer: String) -> (e: Self)
        ensures
            e.wf(),
            e@.chain_id == chain_id,
            e@.proposer == proposer@,
            e@.height == 0,
            e@.finalized is None,
            e@.slashed == Map::<Seq<char>, u128>::empty(),
            e@.votes == Map::<Seq<u8>, Seq<Vote>>::empty(),
            e@.vote_heights == Map::<Seq<u8>, Seq<u64>>::empty(),
            e@.validators == Map::<Seq<char>, u128>::empty(),
            e@.keys == Map::<Seq<char>, [u8; 32]>::empty(),
            e@.snapshots == Map::<u64, (Map<Seq<char>, u128>, Map<Seq<char>, [u8; 32]>)>::empty(),
    {
        let e = ConsensusEngine {
            chain_id,
            proposer,
            height: 0,
            finalized: None,
            slashed: OrdMap::new(),
            votes: OrdMap::new(),
            vote_heights: OrdMap::new(),
            validators: OrdMap::new(),
            validator_keys: OrdMap::new(),
            validator_snapshots: OrdMap::new(),
        };
        assert(vote_lists(e.votes@) =~= Map::<Seq<u8>, Seq<Vote>>::empty());
        assert(height_lists(e.vote_heights@) =~= Map::<Seq<u8>, Seq<u64>>::empty());
        assert(snapshot_views(e.validator_snapshots@) =~= Map::<
            u64,
            (Map<Seq<char>, u128>, Map<Seq<char>, [u8; 32]>),
        >::empty());
        e
    }

    /// Position, among the snapshots, of the latest one activated at or before `h`.
    fn snapshot_index(&self, h: u64) -> (r: Option<usize>)
        requires
            self.wf(),
        ensures
            match r {
                Some(i) => i < self.validator_snapshots.pairs().len() && is_activation_for(
                    self@.snapshots.dom(),
                    h,
                    self.validator_snapshots.pairs()[i as int].0,
                ),
                None => forall|j: u64| #[trigger] self@.snapshots.contains_key(j) ==> j > h,
            },
    {
        let ghost s = self.validator_snapshots.pairs();
        let n = self.validator_snapshots.len();
        let mut best: Option<usize> = None;
        let mut i: usize = 0;
        while i < n
            invariant
                self.wf(),
                s == self.validator_snapshots.pairs(),
                n == s.len(),
                i <= n,
                match best {
                    Some(b) => b < i && s[b as int].0 <= h && forall|j: int|
                        0 <= j < i && #[trigger] s[j].0 <= h ==> s[j].0 <= s[b as int].0,
                    None => forall|j: int| 0 <= j < i ==> #[trigger] s[j].0 > h,
                },
            decreases n - i,
        {
            if *self.validator_snapshots.key_at(i) <= h {
                proof {
                    self.validator_snapshots.lemma_wf_sorted();
                }
                best = Some(i);
            }
            i = i + 1;
        }
        proof {
            assert(self@.snapshots.dom() == self.validator_snapshots@.dom());
            assert forall|j: u64| #[trigger] self@.snapshots.contains_key(j) implies (match best {
                Some(b) => j <= h ==> j <= s[b as int].0,
                None => j > h,
            }) by {
                self.validator_snapshots.lemma_dom(j);
            }
            if let Some(b) = best {
                self.validator_snapshots.lemma_entry(b as int);
            }
        }
        best
    }

    /// The latest validator snapshot activated at or before `h`, with its activation height.
    pub fn validator_snapshot_with_activation_for_height(&self, h: u64) -> (r: Option<
        (u64, OrdMap<String, u128>, OrdMap<String, [u8; 32]>),
    >)
        requires
            self.wf(),
        ensures
            match r {
                Some((k, v, ks)) => is_activation_for(self@.snapshots.dom(), h, k) && v.wf()
                    && ks.wf() && v@ == self@.snapshots[k].0 && ks@ == self@.snapshots[k].1
                    && v.pairs() == self.snapshot_list(k),
                None => forall|j: u64| #[trigger] self@.snapshots.contains_key(j) ==> j > h,
            },
    {
        match self.snapshot_index(h) {
            None => None,
            Some(i) => {
                let k = *self.validator_snapshots.key_at(i);
                let snap = self.validator_snapshots.value_at(i);
                proof {
                    self.validator_snapshots.lemma_entry(i as int);
                }
                Some((k, snap.0.duplicate(), snap.1.duplicate()))
            },
        }
    }

    /// The latest validator snapshot activated at or before `h`.
    pub fn validator_snapshot_for_height(&self, h: u64) -> (r: Option<ValidatorSnapshot>)
        requires
            self.wf(),
        ensures
            match r {
                Some((v, ks)) => exists|k: u64|
                    is_activation_for(self@.snapshots.dom(), h, k) && v@ == self@.snapshots[k].0
                        && ks@ == self@.snapshots[k].1 && v.pairs() == self.snapshot_list(k)
                        && v.wf() && ks.wf(),
                None => forall|j: u64| #[trigger] self@.snapshots.contains_key(j) ==> j > h,
            },
    {
        match self.validator_snapshot_with_activation_for_height(h) {
            None => None,
            Some((k, v, ks)) => Some((v, ks)),
        }
    }

    /// Whether a snapshot was activated exactly at `height`.
    pub fn has_validator_snapshot(&self, height: u64) -> (b: bool)
        requires
            self.wf(),
        ensures
            b == self@.snapshots.contains_key(height),
    {
        self.validator_snapshots.contains_key(&height)
    }

    /// Records the validator set that authenticates heights from `height` on; every
    /// validator must have a key.
    pub fn restore_validator_snapshot(
        &mut self,
        height: u64,
        validators: OrdMap<String, u128>,
        keys: OrdMap<String, [u8; 32]>,
    ) -> (r: Result<(), String>)
        requires
            old(self).wf(),
            validators.wf(),
            keys.wf(),
        ensures
            final(self).wf(),
            complete_bindings(validators@, keys@) ==> r is Ok && final(self)@ == (EngineModel {
                snapshots: old(self)@.snapshots.insert(height, (validators@, keys@)),
                ..old(self)@
            }),
            !complete_bindings(validators@, keys@) ==> (r matches Err(e) && e@
                == "validator snapshot has incomplete public-key bindings"@) && final(self)@
                == old(self)@,
            final(self).validator_list() == old(self).validator_list(),
    {
        if !bindings_complete(&validators, &keys) {
            return Err("validator snapshot has incomplete public-key bindings".to_string());
        }
        let ghost m0 = self.validator_snapshots@;
        let ghost pair = (validators, keys);
        self.validator_snapshots.insert(height, (validators, keys));
        proof {
            assert(snapshot_views(self.validator_snapshots@) =~= snapshot_views(m0).insert(
                height,
                (pair.0@, pair.1@),
            ));
        }
        Ok(())
    }

    /// The activation heights of the snapshots, in increasing order.
    pub fn validator_snapshot_heights(&self) -> (v: Vec<u64>)
        requires
            self.wf(),
        ensures
            v@.len() == self@.snapshots.len(),
            forall|i: int| 0 <= i < v@.len() ==> #[trigger] self@.snapshots.contains_key(v@[i]),
            forall|i: int, j: int| 0 <= i < j < v@.len() ==> v@[i] < v@[j],
    {
        let n = self.validator_snapshots.len();
        let mut v: Vec<u64> = Vec::new();
        let mut i: usize = 0;
        proof {
            self.validator_snapshots.lemma_wf_sorted();
        }
        while i < n
            invariant
                self.wf(),
                n == self.validator_snapshots.pairs().len(),
                self.validator_snapshots.sorted(),
                i <= n,
                v@.len() == i,
                forall|j: int| 0 <= j < i ==> v@[j] == #[trigger] self.validator_snapshots.pairs()[j].0,
            decreases n - i,
        {
            v.push(*self.validator_snapshots.key_at(i));
            i = i + 1;
        }
        proof {
            self.validator_snapshots.lemma_len();
            assert(self@.snapshots.dom() =~= self.validator_snapshots@.dom());
            assert forall|i: int| 0 <= i < v@.len() implies #[trigger] self@.snapshots.contains_key(v@[i]) by {
                self.validator_snapshots.lemma_entry(i);
            }
            assert forall|i: int, j: int| 0 <= i < j < v@.len() implies v@[i] < v@[j] by {
                assert(self.validator_snapshots.pairs()[i].0 < self.validator_snapshots.pairs()[j].0);
            }
        }
        v
    }
}


proof fn lemma_set_bytes_none(s: Seq<(Seq<char>, u128)>, keys: Map<Seq<char>, [u8; 32]>, i: int)
    requires
        0 <= i <= s.len(),
        validator_set_bytes(s.take(i), keys) is None,
    ensures
        validator_set_bytes(s, keys) is None,
    decreases s.len(),
{
    if i == s.len() {
        assert(s.take(i) =~= s);
    } else {
        let t = s.drop_last();
        assert(t.take(i) =~= s.take(i));
        lemma_set_bytes_none(t, keys, i);
    }
}

proof fn lemma_set_bytes_some(s: Seq<(Seq<char>, u128)>, keys: Map<Seq<char>, [u8; 32]>)
    requires
        forall|i: int| 0 <= i < s.len() ==> keys.contains_key(#[trigger] s[i].0),
    ensures
        validator_set_bytes(s, keys) is Some,
    decreases s.len(),
{
    if s.len() > 0 {
        let t = s.drop_last();
        assert forall|i: int| 0 <= i < t.len() implies keys.contains_key(#[trigger] t[i].0) by {
            assert(t[i] == s[i]);
        }
        lemma_set_bytes_some(t, keys);
        assert(keys.contains_key(s[s.len() - 1].0));
    }
}

/// The commitment bytes of a validator set, `None` where a validator has no key.
fn set_commitment_bytes(v: &OrdMap<String, u128>, keys: &OrdMap<String, [u8; 32]>) -> (r: Option<Vec<u8>>)
    requires
        v.wf(),
        keys.wf(),
    ensures
        match validator_set_bytes(v.pairs(), keys@) {
            Some(b) => r matches Some(x) && x@ == b,
            None => r is None,
        },
{
    let ghost s = v.pairs();
    let n = v.len();
    let mut bytes: Vec<u8> = Vec::new();
    push_bytes(&mut bytes, "ATC-VALIDATOR-SET-V1".as_bytes());
    let mut i: usize = 0;
    assert(s.take(0) =~= Seq::<(Seq<char>, u128)>::empty());
    while i < n
        invariant
            v.wf(),
            keys.wf(),
            s == v.pairs(),
            n == s.len(),
            i <= n,
            validator_set_bytes(s.take(i as int), keys@) == Some(bytes@),
        decreases n - i,
    {
        let address = v.key_at(i);
        let stake = *v.value_at(i);
        proof {
            assert(s.take(i as int + 1).drop_last() =~= s.take(i as int));
        }
        let key = match keys.get(address) {
            Some(k) => *k,
            None => {
                proof {
                    lemma_set_bytes_none(s, keys@, i as int + 1);
                }
                return None;
            },
        };
        push_lp(&mut bytes, address.as_str().as_bytes());
        push_u128(&mut bytes, stake);
        push_bytes(&mut bytes, key.as_slice());
        i = i + 1;
    }
    assert(s.take(n as int) =~= s);
    Some(bytes)
}

impl ConsensusEngine {
    /// Commitment to the validator set that authenticates `height`: the hash of its
    /// validators in address order, each with stake and public key.
    pub fn validator_snapshot_commitment(&self, height: u64) -> (r: Option<[u8; 32]>)
        requires
            self.wf(),
        ensures
            (forall|j: u64| #[trigger] self@.snapshots.contains_key(j) ==> j > height) ==> r is None,
            forall|k: u64|
                is_activation_for(self@.snapshots.dom(), height, k) ==> match validator_set_bytes(
                    self.snapshot_list(k),
                    self@.snapshots[k].1,
                ) {
                    Some(b) => r matches Some(x) && x@ == sha256_of(b),
                    None => r is None,
                },
    {
        match self.validator_snapshot_with_activation_for_height(height) {
            None => None,
            Some((k, v, keys)) => {
                proof {
                    assert forall|k2: u64| is_activation_for(self@.snapshots.dom(), height, k2) implies k2
                        == k by {}
                }
                match set_commitment_bytes(&v, &keys) {
                    None => None,
                    Some(b) => Some(simple_hash(b.as_slice())),
                }
            },
        }
    }

    /// Commitment to a complete validator set whose validators all have an address,
    /// stake and a valid Ed25519 key; `None` otherwise.
    pub fn validator_snapshot_commitment_from(
        validators: &OrdMap<String, u128>,
        keys: &OrdMap<String, [u8; 32]>,
    ) -> (r: Option<[u8; 32]>)
        requires
            validators.wf(),
            keys.wf(),
        ensures
            complete_bindings(validators@, keys@) && validator_set_valid(validators.pairs(), keys@)
                ==> (validator_set_bytes(validators.pairs(), keys@) matches Some(b) && r matches Some(
                x,
            ) && x@ == sha256_of(b)),
            !(complete_bindings(validators@, keys@) && validator_set_valid(validators.pairs(), keys@))
                ==> r is None,
    {
        if !bindings_complete(validators, keys) {
            return None;
        }
        let n = validators.len();
        let mut i: usize = 0;
        while i < n
            invariant
                validators.wf(),
                keys.wf(),
                n == validators.pairs().len(),
                i <= n,
                forall|j: int|
                    0 <= j < i ==> (#[trigger] validators.pairs()[j]).0.len() > 0
                        && validators.pairs()[j].1 != 0 && keys@.contains_key(validators.pairs()[j].0)
                        && ed25519_key_valid(keys@[validators.pairs()[j].0]@),
            decreases n - i,
        {
            let address = validators.key_at(i);
            let stake = *validators.value_at(i);
            if address.as_str().is_empty() || stake == 0 {
                return None;
            }
            let key = match keys.get(address) {
                Some(k) => *k,
                None => return None,
            };
            if !ed25519_key_is_valid(&key) {
                return None;
            }
            i = i + 1;
        }
        proof {
            lemma_set_bytes_some(validators.pairs(), keys@);
        }
        match set_commitment_bytes(validators, keys) {
            Some(b) => Some(simple_hash(b.as_slice())),
            None => None,
        }
    }

    /// Registers `address` with `stake`, replacing an earlier stake.
    pub fn register_validator(&mut self, address: String, stake: u128) -> (r: Result<(), String>)
        requires
            old(self).wf(),
        ensures
            final(self).wf(),
            (address@.len() == 0 || stake == 0) ==> (r matches Err(e) && e@
                == "validator address and stake are required"@) && final(self)@ == old(self)@,
            !(address@.len() == 0 || stake == 0) ==> r is Ok && final(self)@ == (EngineModel {
                validators: old(self)@.validators.insert(address@, stake),
                ..old(self)@
            }),
    {
        if address.as_str().is_empty() || stake == 0 {
            return Err("validator address and stake are required".to_string());
        }
        self.validators.insert(address, stake);
        Ok(())
    }

    /// Removes `address` and its key from the registry.
    pub fn unregister_validator(&mut self, address: &str)
        requires
            old(self).wf(),
        ensures
            final(self).wf(),
            final(self)@ == (EngineModel {
                validators: old(self)@.validators.remove(address@),
                keys: old(self)@.keys.remove(address@),
                ..old(self)@
            }),
    {
        let key = address.to_string();
        self.validators.remove(&key);
        self.validator_keys.remove(&key);
    }

    /// Binds a valid Ed25519 public key to a registered validator. At bootstrap, while
    /// no snapshot exists, the binding that completes the registry also records it as
    /// the snapshot that authenticates the current height.
    pub fn register_validator_key(&mut self, address: &str, public_key: [u8; 32]) -> (r: Result<
        (),
        String,
    >)
        requires
            old(self).wf(),
        ensures
            final(self).wf(),
            !old(self)@.validators.contains_key(address@) || old(self)@.validators[address@] == 0
                ==> (r matches Err(e) && e@ == "validator must be registered before its signing key"@)
                && final(self)@ == old(self)@,
            old(self)@.validators.contains_key(address@) && old(self)@.validators[address@] != 0
                && !ed25519_key_valid(public_key@) ==> (r matches Err(e) && e@
                == "invalid validator public key"@) && final(self)@ == old(self)@,
            old(self)@.validators.contains_key(address@) && old(self)@.validators[address@] != 0
                && ed25519_key_valid(public_key@) ==> r is Ok && final(self)@ == key_bound(
                old(self)@,
                address@,
                public_key,
            ),
            final(self).validator_list() == old(self).validator_list(),
    {
        if self.validator_stake(address) == 0 {
            return Err("validator must be registered before its signing key".to_string());
        }
        if !ed25519_key_is_valid(&public_key) {
            return Err("invalid validator public key".to_string());
        }
        self.validator_keys.insert(address.to_string(), public_key);
        proof {
            self.validator_snapshots.lemma_len();
            assert(snapshot_views(self.validator_snapshots@).dom() =~= self.validator_snapshots@.dom());
        }
        if self.validator_snapshots.len() == 0 && bindings_complete(&self.validators, &self.validator_keys) {
            let v = self.validators.duplicate();
            let k = self.validator_keys.duplicate();
            let h = self.height;
            let _ = self.restore_validator_snapshot(h, v, k);
        }
        Ok(())
    }

    /// The key bound to `address`.
    pub fn validator_public_key(&self, address: &str) -> (r: Option<[u8; 32]>)
        requires
            self.wf(),
        ensures
            r == (if self@.keys.contains_key(address@) {
                Some(self@.keys[address@])
            } else {
                None
            }),
    {
        match self.validator_keys.get(&address.to_string()) {
            Some(k) => Some(*k),
            None => None,
        }
    }

    /// Copies of the registry, its keys and the slashing records.
    pub fn mutable_validator_state(&self) -> (r: Result<
        (OrdMap<String, u128>, OrdMap<String, [u8; 32]>, OrdMap<String, u128>),
        String,
    >)
        requires
            self.wf(),
        ensures
            r matches Ok((v, k, s)) && v.wf() && k.wf() && s.wf() && v@ == self@.validators && k@
                == self@.keys && s@ == self@.slashed,
    {
        Ok((self.validators.duplicate(), self.validator_keys.duplicate(), self.slashed.duplicate()))
    }

    /// Replaces registry, keys and slashing records; every validator must have a key.
    pub fn restore_mutable_validator_state(
        &mut self,
        validators: OrdMap<String, u128>,
        keys: OrdMap<String, [u8; 32]>,
        slashed: OrdMap<String, u128>,
    ) -> (r: Result<(), String>)
        requires
            old(self).wf(),
            validators.wf(),
            keys.wf(),
            slashed.wf(),
        ensures
            final(self).wf(),
            !complete_bindings(validators@, keys@) ==> (r matches Err(e) && e@
                == "cannot restore incomplete validator identity state"@) && final(self)@ == old(
                self,
            )@,
            complete_bindings(validators@, keys@) ==> r is Ok && final(self)@ == (EngineModel {
                validators: validators@,
                keys: keys@,
                slashed: slashed@,
                ..old(self)@
            }),
    {
        if !bindings_complete(&validators, &keys) {
            return Err("cannot restore incomplete validator identity state".to_string());
        }
        self.validators = validators;
        self.validator_keys = keys;
        self.slashed = slashed;
        Ok(())
    }

    /// The stake of `address`, zero when it is not registered.
    pub fn validator_stake(&self, address: &str) -> (s: u128)
        requires
            self.wf(),
        ensures
            s == (if self@.validators.contains_key(address@) {
                self@.validators[address@]
            } else {
                0
            }),
    {
        match self.validators.get(&address.to_string()) {
            Some(s) => *s,
            None => 0,
        }
    }

    /// The epoch of a height.
    pub fn epoch(height: u64) -> (e: u64)
        ensures
            e == height / EPOCH_LENGTH_BLOCKS,
    {
        height / EPOCH_LENGTH_BLOCKS
    }

    /// Whether a height opens an epoch, genesis excepted.
    pub fn is_epoch_boundary(height: u64) -> (b: bool)
        ensures
            b == (height > 0 && height % EPOCH_LENGTH_BLOCKS == 0),
    {
        height > 0 && height % EPOCH_LENGTH_BLOCKS == 0
    }

    /// Stake slashed from `address` so far.
    pub fn slashed_stake(&self, address: &str) -> (s: u128)
        requires
            self.wf(),
        ensures
            s == (if self@.slashed.contains_key(address@) {
                self@.slashed[address@]
            } else {
                0
            }),
    {
        match self.slashed.get(&address.to_string()) {
            Some(s) => *s,
            None => 0,
        }
    }

    /// A copy of the registry.
    pub fn validators_snapshot(&self) -> (v: OrdMap<String, u128>)
        requires
            self.wf(),
        ensures
            v.wf(),
            v@ == self@.validators,
            v.pairs() == self.validator_list(),
    {
        self.validators.duplicate()
    }

    /// The registry with its keys, when every validator has one.
    pub fn validator_snapshot_with_keys(&self) -> (r: Result<ValidatorSnapshot, String>)
        requires
            self.wf(),
        ensures
            complete_bindings(self@.validators, self@.keys) ==> (r matches Ok((v, k)) && v.wf()
                && k.wf() && v@ == self@.validators && k@ == self@.keys && v.pairs()
                == self.validator_list()),
            !complete_bindings(self@.validators, self@.keys) ==> (r matches Err(e) && e@
                == "validator registry contains an identity without a public key"@),
    {
        if !bindings_complete(&self.validators, &self.validator_keys) {
            return Err("validator registry contains an identity without a public key".to_string());
        }
        Ok((self.validators.duplicate(), self.validator_keys.duplicate()))
    }

    /// Total registered stake, saturating at `u128::MAX`.
    pub fn total_validator_stake(&self) -> (t: u128)
        requires
            self.wf(),
        ensures
            t == capped128(map_sum(self@.validators)),
    {
        proof {
            self.validators.lemma_sum();
        }
        sum_stakes(&self.validators)
    }

    /// Identifier of a block proposed by this engine's proposer.
    pub fn propose_id(&self, h: u64, parent: [u8; 32], state: [u8; 32], tx: [u8; 32]) -> (r: [u8; 32])
        ensures
            r@ == sha256_of(id_bytes(self@.chain_id, self@.proposer, h, parent@, state@, tx@)),
    {
        let mut b: Vec<u8> = Vec::new();
        push_u64(&mut b, self.chain_id);
        push_u64(&mut b, h);
        push_bytes(&mut b, parent.as_slice());
        push_bytes(&mut b, state.as_slice());
        push_bytes(&mut b, tx.as_slice());
        push_bytes(&mut b, self.proposer.as_str().as_bytes());
        assert(b@ =~= id_bytes(self@.chain_id, self@.proposer, h, parent@, state@, tx@));
        simple_hash(b.as_slice())
    }
}

/// The stakes of a registry added up, saturating at `u128::MAX`.
fn sum_stakes(v: &OrdMap<String, u128>) -> (t: u128)
    requires
        v.wf(),
    ensures
        t == capped128(pairs_sum(v.pairs())),
{
    let ghost s = v.pairs();
    let n = v.len();
    let mut acc: u128 = 0;
    let mut i: usize = 0;
    assert(s.take(0) =~= Seq::<(Seq<char>, u128)>::empty());
    while i < n
        invariant
            v.wf(),
            s == v.pairs(),
            n == s.len(),
            i <= n,
            acc == capped128(pairs_sum(s.take(i as int))),
            pairs_sum(s.take(i as int)) >= 0,
        decreases n - i,
    {
        proof {
            assert(s.take(i as int + 1).drop_last() =~= s.take(i as int));
        }
        acc = acc.saturating_add(*v.value_at(i));
        i = i + 1;
    }
    assert(s.take(n as int) =~= s);
    acc
}


/// The latest activation height at or before `h`, if any.
pub open spec fn activation_for(heights: Set<u64>, h: u64) -> Option<u64> {
    if exists|k: u64| is_activation_for(heights, h, k) {
        Some(choose|k: u64| is_activation_for(heights, h, k))
    } else {
        None
    }
}

pub proof fn lemma_activation_unique(heights: Set<u64>, h: u64, k: u64)
    requires
        is_activation_for(heights, h, k),
    ensures
        activation_for(heights, h) == Some(k),
{
    let c = choose|c: u64| is_activation_for(heights, h, c);
    assert(is_activation_for(heights, h, c));
}

pub proof fn lemma_activation_none(heights: Set<u64>, h: u64)
    requires
        forall|j: u64| #[trigger] heights.contains(j) ==> j > h,
    ensures
        activation_for(heights, h) is None,
{
}

/// The validator set that authenticates height `h`.
pub open spec fn snapshot_at(m: EngineModel, h: u64) -> Option<
    (Map<Seq<char>, u128>, Map<Seq<char>, [u8; 32]>),
> {
    match activation_for(m.snapshots.dom(), h) {
        Some(k) => Some(m.snapshots[k]),
        None => None,
    }
}

/// The engine after `pk` is bound to `address`: the key is recorded, and at bootstrap
/// (no snapshot yet) a registry whose every validator now has a key becomes the
/// snapshot for the current height.
pub open spec fn key_bound(m: EngineModel, address: Seq<char>, pk: [u8; 32]) -> EngineModel {
    let m1 = EngineModel { keys: m.keys.insert(address, pk), ..m };
    if m.snapshots.len() == 0 && complete_bindings(m1.validators, m1.keys) {
        EngineModel { snapshots: m.snapshots.insert(m.height, (m1.validators, m1.keys)), ..m1 }
    } else {
        m1
    }
}

/// The heights at which the votes recorded for block `id` were accepted.
pub open spec fn heights_for(m: EngineModel, id: Seq<u8>) -> Seq<u64> {
    if m.vote_heights.contains_key(id) {
        m.vote_heights[id]
    } else {
        Seq::empty()
    }
}

/// The votes recorded for block `id`.
pub open spec fn votes_for(m: EngineModel, id: Seq<u8>) -> Seq<Vote> {
    if m.votes.contains_key(id) {
        m.votes[id]
    } else {
        Seq::empty()
    }
}

/// Outcome of a vote for a block at `height`: its signature must verify, its voter
/// must be in the set that authenticates the height, with the key of the vote, and
/// must not have voted for the block yet.
pub open spec fn vote_outcome(m: EngineModel, v: Vote, height: u64) -> (EngineModel, Result<(), Seq<char>>) {
    if !ed25519_key_valid(v.public_key@) {
        (m, Err("invalid vote public key"@))
    } else if !ed25519_accepts(v.public_key@, vote_bytes(m.chain_id, v), v.signature@) {
        (m, Err("invalid vote signature"@))
    } else {
        match snapshot_at(m, height) {
            None => (m, Err("validator snapshot is unavailable for vote height"@)),
            Some((vals, keys)) => if !vals.contains_key(v.voter@) {
                (m, Err("voter is not an active validator at vote height"@))
            } else if !keys.contains_key(v.voter@) {
                (m, Err("validator signing key is not registered at vote height"@))
            } else if keys[v.voter@]@ != v.public_key@ {
                (m, Err("vote public key does not match validator identity"@))
            } else {
                let list = votes_for(m, v.block@);
                if exists|j: int| 0 <= j < list.len() && (#[trigger] list[j]).voter@ == v.voter@ {
                    (m, Err("duplicate voter"@))
                } else {
                    (
                        EngineModel {
                            votes: m.votes.insert(v.block@, list.push(v)),
                            vote_heights: m.vote_heights.insert(
                                v.block@,
                                heights_for(m, v.block@).push(height),
                            ),
                            ..m
                        },
                        Ok(()),
                    )
                }
            },
        }
    }
}

/// Outcome of slashing: the evidence must name two different blocks, a validator and a
/// penalty; both signatures must verify under the key the validator had at the
/// evidence height; the validator loses up to `penalty` of its stake, leaving the
/// registry at zero, and the loss is recorded.
pub open spec fn slash_outcome(m: EngineModel, e: SlashingEvidence, penalty: u128) -> (EngineModel, Result<u128, Seq<char>>) {
    let v = e.validator@;
    if e.block_a@ == e.block_b@ || v.len() == 0 || penalty == 0 {
        (m, Err("invalid slashing evidence"@))
    } else {
        match snapshot_at(m, e.height) {
            None => (m, Err("validator snapshot is unavailable for slashing evidence height"@)),
            Some((_, keys)) => if !keys.contains_key(v) {
                (m, Err("validator had no signing key at evidence height"@))
            } else if keys[v]@ != e.public_key@ {
                (
                    m,
                    Err(
                        "slashing evidence public key does not match validator identity at evidence height"@,
                    ),
                )
            } else if !ed25519_key_valid(keys[v]@) {
                (m, Err("invalid validator public key"@))
            } else if !ed25519_accepts(
                keys[v]@,
                slash_bytes(m.chain_id, e.height, e.block_a@, e.approve_a, v),
                e.signature_a@,
            ) || !ed25519_accepts(
                keys[v]@,
                slash_bytes(m.chain_id, e.height, e.block_b@, e.approve_b, v),
                e.signature_b@,
            ) {
                (m, Err("invalid slashing signature"@))
            } else if !m.validators.contains_key(v) {
                (m, Err("validator is not active"@))
            } else {
                let current = m.validators[v];
                let applied: u128 = if penalty < current {
                    penalty
                } else {
                    current
                };
                let remaining = (current - applied) as u128;
                (
                    EngineModel {
                        validators: if remaining == 0 {
                            m.validators.remove(v)
                        } else {
                            m.validators.insert(v, remaining)
                        },
                        slashed: m.slashed.insert(
                            v,
                            if m.slashed.contains_key(v) {
                                capped128(m.slashed[v] + applied)
                            } else {
                                applied
                            },
                        ),
                        ..m
                    },
                    Ok(applied),
                )
            },
        }
    }
}

/// Outcome of marking `block` final at `height`.
pub open spec fn finalize_outcome(m: EngineModel, height: u64, block: [u8; 32]) -> (EngineModel, Result<(), Seq<char>>) {
    if height > m.height {
        (m, Err("cannot finalize above current consensus height"@))
    } else if m.finalized matches Some((h, id)) && (height < h || (height == h && block@ != id@)) {
        (m, Err("finalized height regression or conflicting block"@))
    } else {
        (EngineModel { finalized: Some((height, block)), ..m }, Ok(()))
    }
}

/// Whether no voter appears twice among the votes for one block.
pub open spec fn unique_voters(m: EngineModel) -> bool {
    forall|b: Seq<u8>, i: int, j: int|
        #![trigger m.votes[b][i], m.votes[b][j]]
        m.votes.contains_key(b) && 0 <= i < j < m.votes[b].len() ==> m.votes[b][i].voter@
            != m.votes[b][j].voter@
}

/// Finality never moves back: a block marked final is at or above the finalized
/// height and at most the current height, and at the finalized height only the
/// finalized block is accepted again.
pub proof fn law_finality_never_regresses(m: EngineModel, height: u64, block: [u8; 32])
    ensures
        finalize_outcome(m, height, block).1 is Ok ==> height <= m.height && (m.finalized matches Some(
            (h, id),
        ) ==> h <= height && (h == height ==> id@ == block@)),
        finalize_outcome(m, height, block).1 is Err ==> finalize_outcome(m, height, block).0 == m,
{
}

/// An accepted vote never lets a validator vote twice for one block.
pub proof fn law_votes_keep_voters_unique(m: EngineModel, v: Vote, height: u64)
    requires
        unique_voters(m),
    ensures
        unique_voters(vote_outcome(m, v, height).0),
{
    let t = vote_outcome(m, v, height).0;
    if vote_outcome(m, v, height).1 is Ok {
        let list = votes_for(m, v.block@);
        assert forall|b: Seq<u8>, i: int, j: int|
            t.votes.contains_key(b) && 0 <= i < j < t.votes[b].len() implies #[trigger] t.votes[b][i].voter@
            != #[trigger] t.votes[b][j].voter@ by {
            if b == v.block@ {
                assert(t.votes[b] == list.push(v));
                if j == list.len() {
                    assert(list[i] == t.votes[b][i]);
                } else {
                    assert(list[i] == t.votes[b][i]);
                    assert(list[j] == t.votes[b][j]);
                }
            } else {
                assert(t.votes[b] == m.votes[b]);
            }
        }
    }
}

/// Slashing takes at most the penalty and at most the stake, and what it takes is
/// exactly what the validator's stake loses.
pub proof fn law_slash_takes_what_it_reports(m: EngineModel, e: SlashingEvidence, penalty: u128)
    ensures
        slash_outcome(m, e, penalty).1 matches Ok(applied) ==> ({
            let t = slash_outcome(m, e, penalty).0;
            let v = e.validator@;
            &&& applied <= penalty
            &&& m.validators.contains_key(v) && applied <= m.validators[v]
            &&& (if t.validators.contains_key(v) {
                t.validators[v]
            } else {
                0
            }) == m.validators[v] - applied
            &&& t.slashed.contains_key(v)
        }),
        slash_outcome(m, e, penalty).1 is Err ==> slash_outcome(m, e, penalty).0 == m,
{
}

/// Whether `approved` is at least two thirds of `total`.
pub fn two_thirds_reached(approved: u128, total: u128) -> (r: bool)
    ensures
        r == (3 * approved >= 2 * total),
{
    let x = approved / 2;
    let y = total / 3;
    if x > y {
        true
    } else if x < y {
        false
    } else {
        3 * (approved % 2) >= 2 * (total % 3)
    }
}

/// Whether an approval of the same voter comes before position `i`.
fn approved_earlier(l: &Vec<Vote>, i: usize) -> (r: bool)
    requires
        i < l@.len(),
    ensures
        r == exists|j: int| 0 <= j < i && (#[trigger] l@[j]).approve && l@[j].voter@ == l@[i as int].voter@,
{
    let mut j: usize = 0;
    while j < i
        invariant
            i < l@.len(),
            j <= i,
            forall|k: int| 0 <= k < j ==> !((#[trigger] l@[k]).approve && l@[k].voter@ == l@[i as int].voter@),
        decreases i - j,
    {
        if l[j].approve && l[j].voter == l[i].voter {
            return true;
        }
        j = j + 1;
    }
    false
}

proof fn lemma_first_approval_prefix(l: Seq<Vote>, k: int, i: int)
    requires
        0 <= i < k <= l.len(),
    ensures
        first_approval(l.take(k), i) == first_approval(l, i),
{
    assert forall|j: int| 0 <= j < i implies l.take(k)[j] == l[j] by {}
}

impl ConsensusEngine {
    /// Checks a vote's signature under its own public key.
    pub fn verify_vote_signature(&self, v: &Vote) -> (r: Result<(), String>)
        ensures
            !ed25519_key_valid(v.public_key@) ==> (r matches Err(e) && e@ == "invalid vote public key"@),
            ed25519_key_valid(v.public_key@) && !ed25519_accepts(
                v.public_key@,
                vote_bytes(self@.chain_id, *v),
                v.signature@,
            ) ==> (r matches Err(e) && e@ == "invalid vote signature"@),
            ed25519_key_valid(v.public_key@) && ed25519_accepts(
                v.public_key@,
                vote_bytes(self@.chain_id, *v),
                v.signature@,
            ) ==> r is Ok,
    {
        if !ed25519_key_is_valid(&v.public_key) {
            return Err("invalid vote public key".to_string());
        }
        let bytes = vote_signing_bytes(self.chain_id, v);
        if !ed25519_verify(v.public_key.as_slice(), bytes.as_slice(), &v.signature) {
            return Err("invalid vote signature".to_string());
        }
        Ok(())
    }

    /// Records a vote for a block at `height`, checked against the validator set that
    /// authenticates that height.
    pub fn vote_at_height(&mut self, v: Vote, height: u64) -> (r: Result<(), String>)
        requires
            old(self).wf(),
        ensures
            final(self).wf(),
            final(self)@ == vote_outcome(old(self)@, v, height).0,
            match vote_outcome(old(self)@, v, height).1 {
                Ok(_) => r is Ok,
                Err(m) => r matches Err(e) && e@ == m,
            },
            final(self).validator_list() == old(self).validator_list(),
    {
        self.verify_vote_signature(&v)?;
        let (activation, validators, keys) = match self.validator_snapshot_with_activation_for_height(
            height,
        ) {
            Some(s) => s,
            None => {
                proof {
                    lemma_activation_none(self@.snapshots.dom(), height);
                }
                return Err("validator snapshot is unavailable for vote height".to_string());
            },
        };
        proof {
            lemma_activation_unique(self@.snapshots.dom(), height, activation);
        }
        if !validators.contains_key(&v.voter) {
            return Err("voter is not an active validator at vote height".to_string());
        }
        let expected = match keys.get(&v.voter) {
            Some(k) => *k,
            None => return Err("validator signing key is not registered at vote height".to_string()),
        };
        if !bytes_equal(expected.as_slice(), v.public_key.as_slice()) {
            return Err("vote public key does not match validator identity".to_string());
        }
        let ghost m0 = self.votes@;
        let mut list = match self.votes.remove(&v.block) {
            Some(l) => l,
            None => Vec::new(),
        };
        let ghost l0 = list@;
        let ghost lv = list;
        let ghost pre = *self;
        proof {
            assert(l0 == votes_for(old(self)@, v.block@));
        }
        let mut i: usize = 0;
        while i < list.len()
            invariant
                list@ == l0,
                list == lv,
                *self == pre,
                self.wf(),
                self.votes@ == m0.remove(v.block@),
                m0.contains_key(v.block@) ==> lv == m0[v.block@],
                !m0.contains_key(v.block@) ==> l0.len() == 0,
                m0 == old(self).votes@,
                self.validator_list() == old(self).validator_list(),
                self@ == (EngineModel { votes: vote_lists(m0.remove(v.block@)), ..old(self)@ }),
                snapshot_at(old(self)@, height) == Some((validators@, keys@)),
                validators@.contains_key(v.voter@),
                keys@.contains_key(v.voter@),
                keys@[v.voter@]@ == v.public_key@,
                ed25519_key_valid(v.public_key@),
                ed25519_accepts(v.public_key@, vote_bytes(old(self)@.chain_id, v), v.signature@),
                l0 == votes_for(old(self)@, v.block@),
                i <= l0.len(),
                forall|j: int| 0 <= j < i ==> (#[trigger] l0[j]).voter@ != v.voter@,
            decreases l0.len() - i,
        {
            if list[i].voter == v.voter {
                proof {
                    assert(l0[i as int].voter@ == v.voter@);
                }
                self.votes.insert(v.block, list);
                proof {
                    assert(self.votes@ =~= m0) by {
                        if m0.contains_key(v.block@) {
                            assert(m0.remove(v.block@).insert(v.block@, lv) =~= m0);
                        }
                    }
                    assert(vote_lists(self.votes@) =~= vote_lists(m0));
                }
                return Err("duplicate voter".to_string());
            }
            i = i + 1;
        }
        let block = v.block;
        list.push(v);
        let ghost l1 = list@;
        self.votes.insert(block, list);
        proof {
            assert(vote_lists(self.votes@) =~= vote_lists(m0).insert(block@, l1));
        }
        let ghost hm0 = self.vote_heights@;
        let mut heights = match self.vote_heights.remove(&block) {
            Some(l) => l,
            None => Vec::new(),
        };
        proof {
            assert(heights@ == heights_for(old(self)@, block@));
        }
        heights.push(height);
        let ghost h1 = heights@;
        self.vote_heights.insert(block, heights);
        proof {
            assert(height_lists(self.vote_heights@) =~= height_lists(hm0).insert(block@, h1));
        }
        Ok(())
    }

    /// Records a vote at the current height.
    pub fn vote(&mut self, v: Vote) -> (r: Result<(), String>)
        requires
            old(self).wf(),
        ensures
            final(self).wf(),
            final(self)@ == vote_outcome(old(self)@, v, old(self)@.height).0,
            match vote_outcome(old(self)@, v, old(self)@.height).1 {
                Ok(_) => r is Ok,
                Err(m) => r matches Err(e) && e@ == m,
            },
    {
        let h = self.height;
        self.vote_at_height(v, h)
    }

    /// Count-based finality: at least `quorum` distinct validators approve block `id`,
    /// and a validator set authenticates `height`.
    pub fn finality_at_height(&self, id: &[u8; 32], height: u64, quorum: usize) -> (b: bool)
        requires
            self.wf(),
        ensures
            b == (quorum > 0 && snapshot_at(self@, height) is Some && self@.votes.contains_key(id@)
                && distinct_approvals(self@.votes[id@]) >= quorum),
    {
        if quorum == 0 {
            return false;
        }
        match self.validator_snapshot_with_activation_for_height(height) {
            None => {
                proof {
                    lemma_activation_none(self@.snapshots.dom(), height);
                }
                return false;
            },
            Some((k, _, _)) => {
                proof {
                    lemma_activation_unique(self@.snapshots.dom(), height, k);
                }
            },
        }
        let list = match self.votes.get(id) {
            Some(l) => l,
            None => return false,
        };
        let ghost l = list@;
        let mut count: usize = 0;
        let mut i: usize = 0;
        assert(l.take(0) =~= Seq::<Vote>::empty());
        while i < list.len()
            invariant
                l == list@,
                i <= l.len(),
                count == distinct_approvals(l.take(i as int)),
                count <= i,
            decreases l.len() - i,
        {
            let earlier = approved_earlier(list, i);
            proof {
                let t = l.take(i as int + 1);
                assert(t.drop_last() =~= l.take(i as int));
                lemma_first_approval_prefix(l, i as int + 1, i as int);
            }
            if list[i].approve && !earlier {
                count = count + 1;
            }
            i = i + 1;
        }
        assert(l.take(l.len() as int) =~= l);
        count >= quorum
    }

    /// Count-based finality at the current height.
    pub fn finality(&self, id: &[u8; 32], quorum: usize) -> (b: bool)
        requires
            self.wf(),
        ensures
            b == (quorum > 0 && snapshot_at(self@, self@.height) is Some && self@.votes.contains_key(
                id@,
            ) && distinct_approvals(self@.votes[id@]) >= quorum),
    {
        self.finality_at_height(id, self.height, quorum)
    }

    /// Canonical finality: the approvals of block `id` that were accepted at `height`,
    /// each weighted with its voter's stake in the set that authenticates `height`,
    /// reach two thirds of that set's stake; a voter is recorded once per block.
    pub fn weighted_finality_at_height(&self, id: &[u8; 32], height: u64) -> (b: bool)
        requires
            self.wf(),
        ensures
            b == (match snapshot_at(self@, height) {
                None => false,
                Some((vals, _)) => capped128(map_sum(vals)) != 0 && self@.votes.contains_key(id@)
                    && 3 * capped128(
                    approved_stake_at(self@.votes[id@], heights_for(self@, id@), vals, height),
                ) >= 2 * capped128(map_sum(vals)),
            }),
    {
        let (k, validators, _keys) = match self.validator_snapshot_with_activation_for_height(
            height,
        ) {
            None => {
                proof {
                    lemma_activation_none(self@.snapshots.dom(), height);
                }
                return false;
            },
            Some(s) => s,
        };
        proof {
            lemma_activation_unique(self@.snapshots.dom(), height, k);
            validators.lemma_sum();
        }
        let total = sum_stakes(&validators);
        if total == 0 {
            return false;
        }
        let list = match self.votes.get(id) {
            Some(l) => l,
            None => return false,
        };
        let empty: Vec<u64> = Vec::new();
        let hs = match self.vote_heights.get(id) {
            Some(h) => h,
            None => &empty,
        };
        proof {
            assert(hs@ == heights_for(self@, id@));
        }
        let ghost l = list@;
        let ghost stakes = validators@;
        let mut approved: u128 = 0;
        let mut i: usize = 0;
        assert(l.take(0) =~= Seq::<Vote>::empty());
        while i < list.len()
            invariant
                l == list@,
                validators.wf(),
                stakes == validators@,
                i <= l.len(),
                approved == capped128(approved_stake_at(l.take(i as int), hs@, stakes, height)),
            decreases l.len() - i,
        {
            proof {
                let t = l.take(i as int + 1);
                assert(t.drop_last() =~= l.take(i as int));
                lemma_approved_stake_at_nonneg(l.take(i as int), hs@, stakes, height);
            }
            if list[i].approve && i < hs.len() && hs[i] == height {
                match validators.get(&list[i].voter) {
                    Some(s) => {
                        approved = approved.saturating_add(*s);
                    },
                    None => {},
                }
            }
            i = i + 1;
        }
        assert(l.take(l.len() as int) =~= l);
        two_thirds_reached(approved, total)
    }

    /// Canonical finality at the current height.
    pub fn weighted_finality(&self, id: &[u8; 32]) -> (b: bool)
        requires
            self.wf(),
        ensures
            b == (match snapshot_at(self@, self@.height) {
                None => false,
                Some((vals, _)) => capped128(map_sum(vals)) != 0 && self@.votes.contains_key(id@)
                    && 3 * capped128(
                    approved_stake_at(self@.votes[id@], heights_for(self@, id@), vals, self@.height),
                ) >= 2 * capped128(map_sum(vals)),
            }),
    {
        self.weighted_finality_at_height(id, self.height)
    }

    /// Marks `block` final at `height`: never above the current height, never below
    /// the finalized height, and never a second block at the finalized height.
    pub fn mark_finalized(&mut self, height: u64, block: [u8; 32]) -> (r: Result<(), String>)
        requires
            old(self).wf(),
        ensures
            final(self).wf(),
            final(self)@ == finalize_outcome(old(self)@, height, block).0,
            match finalize_outcome(old(self)@, height, block).1 {
                Ok(_) => r is Ok,
                Err(m) => r matches Err(e) && e@ == m,
            },
            final(self).validator_list() == old(self).validator_list(),
    {
        if height > self.height {
            return Err("cannot finalize above current consensus height".to_string());
        }
        match self.finalized {
            Some((current, current_id)) => {
                if height < current || (height == current && !bytes_equal(
                    block.as_slice(),
                    current_id.as_slice(),
                )) {
                    return Err("finalized height regression or conflicting block".to_string());
                }
            },
            None => {},
        }
        self.finalized = Some((height, block));
        Ok(())
    }

    /// The finalized height and block.
    pub fn finalized(&self) -> (r: Option<(u64, [u8; 32])>)
        ensures
            r == self@.finalized,
    {
        self.finalized
    }

    pub fn set_height(&mut self, h: u64)
        requires
            old(self).wf(),
        ensures
            final(self).wf(),
            final(self)@ == (EngineModel { height: h, ..old(self)@ }),
            final(self).validator_list() == old(self).validator_list(),
    {
        self.height = h;
    }

    pub fn height(&self) -> (h: u64)
        ensures
            h == self@.height,
    {
        self.height
    }
}


impl ConsensusEngine {
    /// Slashes a validator on evidence of two conflicting signed votes, checked
    /// against the key the validator had at the evidence height; gives back the stake
    /// taken.
    pub fn slash(&mut self, evidence: SlashingEvidence, penalty: u128) -> (r: Result<u128, String>)
        requires
            old(self).wf(),
        ensures
            final(self).wf(),
            final(self)@ == slash_outcome(old(self)@, evidence, penalty).0,
            match slash_outcome(old(self)@, evidence, penalty).1 {
                Ok(v) => r == Ok::<u128, String>(v),
                Err(m) => r matches Err(e) && e@ == m,
            },
    {
        if bytes_equal(evidence.block_a.as_slice(), evidence.block_b.as_slice())
            || evidence.validator.as_str().is_empty() || penalty == 0 {
            return Err("invalid slashing evidence".to_string());
        }
        let (activation, _validators, keys) = match self.validator_snapshot_with_activation_for_height(
            evidence.height,
        ) {
            None => {
                proof {
                    lemma_activation_none(self@.snapshots.dom(), evidence.height);
                }
                return Err(
                    "validator snapshot is unavailable for slashing evidence height".to_string(),
                );
            },
            Some(s) => s,
        };
        proof {
            lemma_activation_unique(self@.snapshots.dom(), evidence.height, activation);
        }
        let expected = match keys.get(&evidence.validator) {
            Some(k) => *k,
            None => return Err("validator had no signing key at evidence height".to_string()),
        };
        if !bytes_equal(evidence.public_key.as_slice(), expected.as_slice()) {
            return Err(
                "slashing evidence public key does not match validator identity at evidence height".to_string(),
            );
        }
        if !ed25519_key_is_valid(&expected) {
            return Err("invalid validator public key".to_string());
        }
        let bytes_a = slash_signing_bytes(
            self.chain_id,
            evidence.height,
            &evidence.block_a,
            evidence.approve_a,
            &evidence.validator,
        );
        if !ed25519_verify(expected.as_slice(), bytes_a.as_slice(), &evidence.signature_a) {
            return Err("invalid slashing signature".to_string());
        }
        let bytes_b = slash_signing_bytes(
            self.chain_id,
            evidence.height,
            &evidence.block_b,
            evidence.approve_b,
            &evidence.validator,
        );
        if !ed25519_verify(expected.as_slice(), bytes_b.as_slice(), &evidence.signature_b) {
            return Err("invalid slashing signature".to_string());
        }
        let current = match self.validators.get(&evidence.validator) {
            Some(c) => *c,
            None => return Err("validator is not active".to_string()),
        };
        let applied = if penalty < current {
            penalty
        } else {
            current
        };
        let remaining = current - applied;
        if remaining == 0 {
            self.validators.remove(&evidence.validator);
        } else {
            self.validators.insert(evidence.validator.clone(), remaining);
        }
        let total = match self.slashed.get(&evidence.validator) {
            Some(x) => x.saturating_add(applied),
            None => applied,
        };
        self.slashed.insert(evidence.validator, total);
        Ok(applied)
    }
}

} // verus!
