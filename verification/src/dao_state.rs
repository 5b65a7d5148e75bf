//! DAO state machine executed as part of the chain state transition.
use crate::codec::{
    be, holds_at, lemma_holds_at_split, lemma_pow256_small, lemma_sp_num_at, lemma_sp_lp_at, be16, be64, len_prefix, lp, push_bytes, sat_mul_u64, push_lp, push_u16, push_u32, push_u64, sp_lp,
    sp_num, take_lp, take_num, take_u8, utf8_string,
};
use crate::hashing::{sha256_of, simple_hash};
use crate::mempool::{copy_opt_str, opt_str_bytes, opt_str_view, push_opt_str, utf8};
use crate::ordmap::{map_of, OrdMap};
use vstd::prelude::*;

verus! {

/// Tag that opens every DAO payload and snapshot.
pub open spec fn dao_magic() -> Seq<u8> {
    utf8("ATC-DAO-V2"@)
}

#[derive(Clone, Copy, Debug, PartialEq, Eq, Structural)]
pub enum Status {
    Pending,
    Active,
    Passed,
    Rejected,
    Queued,
    Executed,
    Cancelled,
}

pub open spec fn status_number(s: Status) -> u8 {
    match s {
        Status::Pending => 0,
        Status::Active => 1,
        Status::Passed => 2,
        Status::Rejected => 3,
        Status::Queued => 4,
        Status::Executed => 5,
        Status::Cancelled => 6,
    }
}

pub open spec fn status_of_number(n: u8) -> Option<Status> {
    if n == 0 {
        Some(Status::Pending)
    } else if n == 1 {
        Some(Status::Active)
    } else if n == 2 {
        Some(Status::Passed)
    } else if n == 3 {
        Some(Status::Rejected)
    } else if n == 4 {
        Some(Status::Queued)
    } else if n == 5 {
        Some(Status::Executed)
    } else if n == 6 {
        Some(Status::Cancelled)
    } else {
        None
    }
}

fn status_to_number(s: Status) -> (n: u8)
    ensures
        n == status_number(s),
        status_of_number(n) == Some(s),
{
    match s {
        Status::Pending => 0,
        Status::Active => 1,
        Status::Passed => 2,
        Status::Rejected => 3,
        Status::Queued => 4,
        Status::Executed => 5,
        Status::Cancelled => 6,
    }
}

fn number_to_status(n: u8) -> (s: Option<Status>)
    ensures
        s == status_of_number(n),
{
    if n == 0 {
        Some(Status::Pending)
    } else if n == 1 {
        Some(Status::Active)
    } else if n == 2 {
        Some(Status::Passed)
    } else if n == 3 {
        Some(Status::Rejected)
    } else if n == 4 {
        Some(Status::Queued)
    } else if n == 5 {
        Some(Status::Executed)
    } else if n == 6 {
        Some(Status::Cancelled)
    } else {
        None
    }
}

#[derive(Debug)]
pub struct Proposal {
    pub id: u64,
    pub title: String,
    pub description: String,
    pub proposer: String,
    pub start: u64,
    pub end: u64,
    pub status: Status,
    pub yes: u64,
    pub no: u64,
    pub abstain: u64,
    pub action_recipient: Option<String>,
    pub action_amount: u64,
}

pub struct ProposalModel {
    pub id: u64,
    pub title: Seq<char>,
    pub description: Seq<char>,
    pub proposer: Seq<char>,
    pub start: u64,
    pub end: u64,
    pub status: Status,
    pub yes: u64,
    pub no: u64,
    pub abstain: u64,
    pub action_recipient: Option<Seq<char>>,
    pub action_amount: u64,
}

impl View for Proposal {
    type V = ProposalModel;

    open spec fn view(&self) -> ProposalModel {
        ProposalModel {
            id: self.id,
            title: self.title@,
            description: self.description@,
            proposer: self.proposer@,
            start: self.start,
            end: self.end,
            status: self.status,
            yes: self.yes,
            no: self.no,
            abstain: self.abstain,
            action_recipient: opt_str_view(self.action_recipient),
            action_amount: self.action_amount,
        }
    }
}

#[derive(Debug)]
pub enum DaoEffect {
    TreasuryDeposit { amount: u64 },
    TreasuryPayout { recipient: String, amount: u64 },
}

pub enum EffectModel {
    TreasuryDeposit { amount: u64 },
    TreasuryPayout { recipient: Seq<char>, amount: u64 },
}

impl View for DaoEffect {
    type V = EffectModel;

    open spec fn view(&self) -> EffectModel {
        match self {
            DaoEffect::TreasuryDeposit { amount } => EffectModel::TreasuryDeposit { amount: *amount },
            DaoEffect::TreasuryPayout { recipient, amount } => EffectModel::TreasuryPayout {
                recipient: recipient@,
                amount: *amount,
            },
        }
    }
}

pub open spec fn opt_effect_view(e: Option<DaoEffect>) -> Option<EffectModel> {
    match e {
        Some(x) => Some(x@),
        None => None,
    }
}

/// Proposals, votes, treasury and timelocks of the on-chain DAO.
#[derive(Debug)]
pub struct DaoState {
    pub proposals: OrdMap<u64, Proposal>,
    pub votes: OrdMap<(u64, String), (u8, u64)>,
    pub treasury: u64,
    pub allocations: OrdMap<String, u64>,
    pub timelocks: OrdMap<u64, u64>,
    pub quorum: u64,
    pub approval_bps: u16,
}

pub struct DaoModel {
    pub proposals: Map<u64, ProposalModel>,
    pub votes: Map<(u64, Seq<char>), (u8, u64)>,
    pub treasury: u64,
    pub allocations: Map<Seq<char>, u64>,
    pub timelocks: Map<u64, u64>,
    pub quorum: u64,
    pub approval_bps: u16,
}

/// The models of the stored proposals, by id.
pub open spec fn proposal_models(m: Map<u64, Proposal>) -> Map<u64, ProposalModel> {
    m.map_values(|p: Proposal| p@)
}

proof fn lemma_models_insert(m: Map<u64, Proposal>, k: u64, p: Proposal)
    ensures
        proposal_models(m.insert(k, p)) == proposal_models(m).insert(k, p@),
{
    assert(proposal_models(m.insert(k, p)) =~= proposal_models(m).insert(k, p@));
}

proof fn lemma_models_remove(m: Map<u64, Proposal>, k: u64)
    ensures
        proposal_models(m.remove(k)) == proposal_models(m).remove(k),
{
    assert(proposal_models(m.remove(k)) =~= proposal_models(m).remove(k));
}

impl View for DaoState {
    type V = DaoModel;

    open spec fn view(&self) -> DaoModel {
        DaoModel {
            proposals: proposal_models(self.proposals@),
            votes: self.votes@,
            treasury: self.treasury,
            allocations: self.allocations@,
            timelocks: self.timelocks@,
            quorum: self.quorum,
            approval_bps: self.approval_bps,
        }
    }
}

/// Encoding of one proposal.
pub open spec fn proposal_bytes(p: ProposalModel) -> Seq<u8> {
    be64(p.id) + seq![status_number(p.status)] + lp(utf8(p.title)) + lp(utf8(p.description)) + lp(
        utf8(p.proposer),
    ) + be64(p.start) + be64(p.end) + be64(p.yes) + be64(p.no) + be64(p.abstain) + opt_str_bytes(
        p.action_recipient,
    ) + be64(p.action_amount)
}

pub open spec fn proposals_bytes(s: Seq<(u64, Proposal)>) -> Seq<u8>
    decreases s.len(),
{
    if s.len() == 0 {
        Seq::empty()
    } else {
        proposals_bytes(s.drop_last()) + proposal_bytes(s.last().1@)
    }
}

/// Proposal lists whose proposals have the same models, in the same order, encode
/// alike.
proof fn lemma_proposals_bytes_models(s: Seq<(u64, Proposal)>, t: Seq<(u64, Proposal)>)
    requires
        s.len() == t.len(),
        forall|i: int| 0 <= i < s.len() ==> (#[trigger] s[i]).1@ == t[i].1@,
    ensures
        proposals_bytes(s) == proposals_bytes(t),
    decreases s.len(),
{
    if s.len() > 0 {
        let s1 = s.drop_last();
        let t1 = t.drop_last();
        assert forall|i: int| 0 <= i < s1.len() implies (#[trigger] s1[i]).1@ == t1[i].1@ by {
            assert(s1[i] == s[i] && t1[i] == t[i]);
        }
        lemma_proposals_bytes_models(s1, t1);
        assert(s.last() == s[s.len() - 1]);
        assert(t.last() == t[t.len() - 1]);
    }
}

pub open spec fn votes_bytes(s: Seq<((u64, Seq<char>), (u8, u64))>) -> Seq<u8>
    decreases s.len(),
{
    if s.len() == 0 {
        Seq::empty()
    } else {
        votes_bytes(s.drop_last()) + be64(s.last().0.0) + lp(utf8(s.last().0.1)) + seq![
            s.last().1.0,
        ] + be64(s.last().1.1)
    }
}

pub open spec fn allocations_bytes(s: Seq<(Seq<char>, u64)>) -> Seq<u8>
    decreases s.len(),
{
    if s.len() == 0 {
        Seq::empty()
    } else {
        allocations_bytes(s.drop_last()) + lp(utf8(s.last().0)) + be64(s.last().1)
    }
}

pub open spec fn timelocks_bytes(s: Seq<(u64, u64)>) -> Seq<u8>
    decreases s.len(),
{
    if s.len() == 0 {
        Seq::empty()
    } else {
        timelocks_bytes(s.drop_last()) + be64(s.last().0) + be64(s.last().1)
    }
}

impl DaoState {
    pub open spec fn wf(&self) -> bool {
        &&& forall|k: u64| #[trigger]
            self.proposals@.contains_key(k) ==> self.proposals@[k].id == k
        &&& self.proposals.wf()
        &&& self.votes.wf()
        &&& self.allocations.wf()
        &&& self.timelocks.wf()
    }

    /// Well-formed DAO states with the same model have the same snapshot bytes.
    pub proof fn lemma_same_model_encoding(&self, other: &DaoState)
        requires
            self.wf(),
            other.wf(),
            self@ == other@,
        ensures
            self.encoding() == other.encoding(),
    {
        self.votes.lemma_same_view(&other.votes);
        self.allocations.lemma_same_view(&other.allocations);
        self.timelocks.lemma_same_view(&other.timelocks);
        assert(self.proposals@.dom() =~= proposal_models(self.proposals@).dom());
        assert(other.proposals@.dom() =~= proposal_models(other.proposals@).dom());
        self.proposals.lemma_same_keys(&other.proposals);
        let s = self.proposals.pairs();
        let t = other.proposals.pairs();
        assert forall|i: int| 0 <= i < s.len() implies (#[trigger] s[i]).1@ == t[i].1@ by {
            self.proposals.lemma_entry(i);
            other.proposals.lemma_entry(i);
            assert(proposal_models(self.proposals@)[s[i].0] == s[i].1@);
            assert(proposal_models(other.proposals@)[t[i].0] == t[i].1@);
        }
        lemma_proposals_bytes_models(s, t);
    }

    /// Canonical snapshot bytes: parameters, then every map in key order, each
    /// preceded by its entry count.
    pub open spec fn encoding(&self) -> Seq<u8> {
        dao_magic() + be64(self.quorum) + be16(self.approval_bps) + be64(self.treasury)
            + len_prefix(self.proposals.pairs().len()) + proposals_bytes(self.proposals.pairs())
            + len_prefix(self.votes.pairs().len()) + votes_bytes(self.votes.pairs()) + len_prefix(
            self.allocations.pairs().len(),
        ) + allocations_bytes(self.allocations.pairs()) + len_prefix(self.timelocks.pairs().len())
            + timelocks_bytes(self.timelocks.pairs())
    }

    /// An empty DAO; the quorum must be positive and the approval threshold at most 10000 bps.
    pub fn new(quorum: u64, approval_bps: u16) -> (r: Result<Self, String>)
        ensures
            (quorum == 0 || approval_bps > 10_000) <==> r is Err,
            r matches Err(e) ==> e@ == "invalid DAO parameters"@,
            r matches Ok(d) ==> d.wf() && d.quorum == quorum && d.approval_bps == approval_bps
                && d.treasury == 0 && d.proposals@.is_empty() && d.votes@.is_empty()
                && d.allocations@.is_empty() && d.timelocks@.is_empty(),
    {
        if quorum == 0 || approval_bps > 10_000 {
            return Err("invalid DAO parameters".to_string());
        }
        Ok(DaoState {
            proposals: OrdMap::new(),
            votes: OrdMap::new(),
            treasury: 0,
            allocations: OrdMap::new(),
            timelocks: OrdMap::new(),
            quorum,
            approval_bps,
        })
    }

    /// Commitment to the whole DAO state: the hash of its snapshot bytes.
    pub fn root(&self) -> (r: [u8; 32])
        requires
            self.wf(),
        ensures
            r@ == sha256_of(self.encoding()),
    {
        let e = self.encode();
        simple_hash(e.as_slice())
    }

    pub fn encode(&self) -> (o: Vec<u8>)
        requires
            self.wf(),
        ensures
            o@ == self.encoding(),
    {
        let mut o: Vec<u8> = Vec::new();
        push_bytes(&mut o, "ATC-DAO-V2".as_bytes());
        push_u64(&mut o, self.quorum);
        push_u16(&mut o, self.approval_bps);
        push_u64(&mut o, self.treasury);
        let ghost head = o@;
        let n = self.proposals.len();
        push_u32(&mut o, (n as u64 % 0x1_0000_0000) as u32);
        let mut i: usize = 0;
        while i < n
            invariant
                n == self.proposals.pairs().len(),
                i <= n,
                o@ == head + len_prefix(n as nat) + proposals_bytes(self.proposals.pairs().take(i as int)),
            decreases n - i,
        {
            let p = self.proposals.value_at(i);
            proof {
                assert(self.proposals.pairs().take(i + 1).drop_last() =~= self.proposals.pairs().take(i as int));
            }
            encode_proposal(&mut o, p);
            i = i + 1;
            assert(o@ =~= head + len_prefix(n as nat) + proposals_bytes(self.proposals.pairs().take(i as int)));
        }
        assert(self.proposals.pairs().take(n as int) =~= self.proposals.pairs());
        let ghost head = o@;
        let n = self.votes.len();
        push_u32(&mut o, (n as u64 % 0x1_0000_0000) as u32);
        let mut i: usize = 0;
        while i < n
            invariant
                n == self.votes.pairs().len(),
                i <= n,
                o@ == head + len_prefix(n as nat) + votes_bytes(self.votes.pairs().take(i as int)),
            decreases n - i,
        {
            let k = self.votes.key_at(i);
            let v = self.votes.value_at(i);
            proof {
                assert(self.votes.pairs().take(i + 1).drop_last() =~= self.votes.pairs().take(i as int));
            }
            push_u64(&mut o, k.0);
            push_lp(&mut o, k.1.as_str().as_bytes());
            o.push(v.0);
            push_u64(&mut o, v.1);
            i = i + 1;
            assert(o@ =~= head + len_prefix(n as nat) + votes_bytes(self.votes.pairs().take(i as int)));
        }
        assert(self.votes.pairs().take(n as int) =~= self.votes.pairs());
        let ghost head = o@;
        let n = self.allocations.len();
        push_u32(&mut o, (n as u64 % 0x1_0000_0000) as u32);
        let mut i: usize = 0;
        while i < n
            invariant
                n == self.allocations.pairs().len(),
                i <= n,
                o@ == head + len_prefix(n as nat) + allocations_bytes(
                    self.allocations.pairs().take(i as int),
                ),
            decreases n - i,
        {
            let k = self.allocations.key_at(i);
            let v = self.allocations.value_at(i);
            proof {
                assert(self.allocations.pairs().take(i + 1).drop_last() =~= self.allocations.pairs().take(
                    i as int,
                ));
            }
            push_lp(&mut o, k.as_str().as_bytes());
            push_u64(&mut o, *v);
            i = i + 1;
            assert(o@ =~= head + len_prefix(n as nat) + allocations_bytes(
                self.allocations.pairs().take(i as int),
            ));
        }
        assert(self.allocations.pairs().take(n as int) =~= self.allocations.pairs());
        let ghost head = o@;
        let n = self.timelocks.len();
        push_u32(&mut o, (n as u64 % 0x1_0000_0000) as u32);
        let mut i: usize = 0;
        while i < n
            invariant
                n == self.timelocks.pairs().len(),
                i <= n,
                o@ == head + len_prefix(n as nat) + timelocks_bytes(
                    self.timelocks.pairs().take(i as int),
                ),
            decreases n - i,
        {
            let k = self.timelocks.key_at(i);
            let v = self.timelocks.value_at(i);
            proof {
                assert(self.timelocks.pairs().take(i + 1).drop_last() =~= self.timelocks.pairs().take(
                    i as int,
                ));
            }
            push_u64(&mut o, *k);
            push_u64(&mut o, *v);
            i = i + 1;
            assert(o@ =~= head + len_prefix(n as nat) + timelocks_bytes(
                self.timelocks.pairs().take(i as int),
            ));
        }
        assert(self.timelocks.pairs().take(n as int) =~= self.timelocks.pairs());
        assert(o@ =~= self.encoding());
        o
    }
}

/// Reads one byte of a DAO payload or snapshot.
pub open spec fn rd1(b: Seq<u8>, q: int) -> Result<(u8, int), Seq<char>> {
    match sp_num(b, q, 1) {
        Some((v, q1)) => Ok((v as u8, q1)),
        None => Err("truncated DAO payload"@),
    }
}

pub open spec fn rd16(b: Seq<u8>, q: int) -> Result<(u16, int), Seq<char>> {
    match sp_num(b, q, 2) {
        Some((v, q1)) => Ok((v as u16, q1)),
        None => Err("truncated DAO u16"@),
    }
}

pub open spec fn rd32(b: Seq<u8>, q: int) -> Result<(u32, int), Seq<char>> {
    match sp_num(b, q, 4) {
        Some((v, q1)) => Ok((v as u32, q1)),
        None => Err("truncated DAO u32"@),
    }
}

pub open spec fn rd64(b: Seq<u8>, q: int) -> Result<(u64, int), Seq<char>> {
    match sp_num(b, q, 8) {
        Some((v, q1)) => Ok((v as u64, q1)),
        None => Err("truncated DAO integer"@),
    }
}

pub open spec fn rdstr(b: Seq<u8>, q: int) -> Result<(Seq<char>, int), Seq<char>> {
    match sp_lp(b, q) {
        None => Err("truncated DAO string"@),
        Some((bs, q1)) => if vstd::utf8::valid_utf8(bs) {
            Ok((vstd::utf8::decode_utf8(bs), q1))
        } else {
            Err("invalid DAO utf8"@)
        },
    }
}

fn get1(b: &[u8], p: &mut usize) -> (r: Result<u8, String>)
    ensures
        match rd1(b@, *old(p) as int) {
            Ok((v, q)) => r == Ok::<u8, String>(v) && *final(p) == q,
            Err(m) => r matches Err(e) && e@ == m,
        },
{
    match take_u8(b, p) {
        Some(v) => Ok(v),
        None => Err("truncated DAO payload".to_string()),
    }
}

fn get_u16(b: &[u8], p: &mut usize) -> (r: Result<u16, String>)
    ensures
        match rd16(b@, *old(p) as int) {
            Ok((v, q)) => r == Ok::<u16, String>(v) && *final(p) == q,
            Err(m) => r matches Err(e) && e@ == m,
        },
{
    match take_num(b, p, 2) {
        Some(v) => Ok(v as u16),
        None => Err("truncated DAO u16".to_string()),
    }
}

fn get_u32(b: &[u8], p: &mut usize) -> (r: Result<u32, String>)
    ensures
        match rd32(b@, *old(p) as int) {
            Ok((v, q)) => r == Ok::<u32, String>(v) && *final(p) == q,
            Err(m) => r matches Err(e) && e@ == m,
        },
{
    match take_num(b, p, 4) {
        Some(v) => Ok(v as u32),
        None => Err("truncated DAO u32".to_string()),
    }
}

fn get_u64(b: &[u8], p: &mut usize) -> (r: Result<u64, String>)
    ensures
        match rd64(b@, *old(p) as int) {
            Ok((v, q)) => r == Ok::<u64, String>(v) && *final(p) == q,
            Err(m) => r matches Err(e) && e@ == m,
        },
{
    match take_num(b, p, 8) {
        Some(v) => Ok(v as u64),
        None => Err("truncated DAO integer".to_string()),
    }
}

fn get_str(b: &[u8], p: &mut usize) -> (r: Result<String, String>)
    ensures
        match rdstr(b@, *old(p) as int) {
            Ok((v, q)) => r matches Ok(s) && s@ == v && *final(p) == q,
            Err(m) => r matches Err(e) && e@ == m,
        },
{
    match take_lp(b, p) {
        None => Err("truncated DAO string".to_string()),
        Some(bs) => match utf8_string(bs) {
            Some(s) => Ok(s),
            None => Err("invalid DAO utf8".to_string()),
        },
    }
}

pub open spec fn rd_opt_str(b: Seq<u8>, q: int) -> Result<(Option<Seq<char>>, int), Seq<char>> {
    match rd1(b, q) {
        Err(e) => Err(e),
        Ok((f, q1)) => if f == 0 {
            Ok((None, q1))
        } else if f == 1 {
            match rdstr(b, q1) {
                Err(e) => Err(e),
                Ok((x, q2)) => Ok((Some(x), q2)),
            }
        } else {
            Err("invalid DAO action recipient flag"@)
        },
    }
}

/// One proposal record of a snapshot.
#[verifier::opaque]
pub open spec fn rd_proposal(b: Seq<u8>, q: int) -> Result<(ProposalModel, int), Seq<char>> {
    match rd64(b, q) {
        Err(e) => Err(e),
        Ok((id, q)) => match rd1(b, q) {
            Err(e) => Err(e),
            Ok((st, q)) => match status_of_number(st) {
                None => Err("invalid DAO status"@),
                Some(status) => match rdstr(b, q) {
                    Err(e) => Err(e),
                    Ok((title, q)) => match rdstr(b, q) {
                        Err(e) => Err(e),
                        Ok((description, q)) => match rdstr(b, q) {
                            Err(e) => Err(e),
                            Ok((proposer, q)) => match rd64(b, q) {
                                Err(e) => Err(e),
                                Ok((start, q)) => match rd64(b, q) {
                                    Err(e) => Err(e),
                                    Ok((end, q)) => match rd64(b, q) {
                                        Err(e) => Err(e),
                                        Ok((yes, q)) => match rd64(b, q) {
                                            Err(e) => Err(e),
                                            Ok((no, q)) => match rd64(b, q) {
                                                Err(e) => Err(e),
                                                Ok((abstain, q)) => match rd_opt_str(b, q) {
                                                    Err(e) => Err(e),
                                                    Ok((action_recipient, q)) => match rd64(b, q) {
                                                        Err(e) => Err(e),
                                                        Ok((action_amount, q)) => Ok(
                                                            (
                                                                ProposalModel {
                                                                    id,
                                                                    title,
                                                                    description,
                                                                    proposer,
                                                                    start,
                                                                    end,
                                                                    status,
                                                                    yes,
                                                                    no,
                                                                    abstain,
                                                                    action_recipient,
                                                                    action_amount,
                                                                },
                                                                q,
                                                            ),
                                                        ),
                                                    },
                                                },
                                            },
                                        },
                                    },
                                },
                            },
                        },
                    },
                },
            },
        },
    }
}

/// The first `k` proposal records from `q`, later records replacing earlier ones with the same id.
pub open spec fn rd_proposals(b: Seq<u8>, q: int, k: nat) -> Result<
    (Map<u64, ProposalModel>, int),
    Seq<char>,
>
    decreases k,
{
    if k == 0 {
        Ok((Map::empty(), q))
    } else {
        match rd_proposals(b, q, (k - 1) as nat) {
            Err(e) => Err(e),
            Ok((m, q1)) => match rd_proposal(b, q1) {
                Err(e) => Err(e),
                Ok((p, q2)) => Ok((m.insert(p.id, p), q2)),
            },
        }
    }
}

pub open spec fn rd_votes(b: Seq<u8>, q: int, k: nat) -> Result<
    (Map<(u64, Seq<char>), (u8, u64)>, int),
    Seq<char>,
>
    decreases k,
{
    if k == 0 {
        Ok((Map::empty(), q))
    } else {
        match rd_votes(b, q, (k - 1) as nat) {
            Err(e) => Err(e),
            Ok((m, q)) => match rd64(b, q) {
                Err(e) => Err(e),
                Ok((id, q)) => match rdstr(b, q) {
                    Err(e) => Err(e),
                    Ok((voter, q)) => match rd1(b, q) {
                        Err(e) => Err(e),
                        Ok((kind, q)) => match rd64(b, q) {
                            Err(e) => Err(e),
                            Ok((weight, q)) => Ok((m.insert((id, voter), (kind, weight)), q)),
                        },
                    },
                },
            },
        }
    }
}

pub open spec fn rd_allocations(b: Seq<u8>, q: int, k: nat) -> Result<
    (Map<Seq<char>, u64>, int),
    Seq<char>,
>
    decreases k,
{
    if k == 0 {
        Ok((Map::empty(), q))
    } else {
        match rd_allocations(b, q, (k - 1) as nat) {
            Err(e) => Err(e),
            Ok((m, q)) => match rdstr(b, q) {
                Err(e) => Err(e),
                Ok((key, q)) => match rd64(b, q) {
                    Err(e) => Err(e),
                    Ok((v, q)) => Ok((m.insert(key, v), q)),
                },
            },
        }
    }
}

pub open spec fn rd_timelocks(b: Seq<u8>, q: int, k: nat) -> Result<(Map<u64, u64>, int), Seq<char>>
    decreases k,
{
    if k == 0 {
        Ok((Map::empty(), q))
    } else {
        match rd_timelocks(b, q, (k - 1) as nat) {
            Err(e) => Err(e),
            Ok((m, q)) => match rd64(b, q) {
                Err(e) => Err(e),
                Ok((key, q)) => match rd64(b, q) {
                    Err(e) => Err(e),
                    Ok((v, q)) => Ok((m.insert(key, v), q)),
                },
            },
        }
    }
}

/// The parameters after the DAO tag: quorum, approval threshold and treasury.
pub open spec fn rd_params(b: Seq<u8>) -> Result<(u64, u16, u64, int), Seq<char>> {
    match rd64(b, dao_magic().len() as int) {
        Err(e) => Err(e),
        Ok((quorum, q)) => match rd16(b, q) {
            Err(e) => Err(e),
            Ok((approval_bps, q)) => match rd64(b, q) {
                Err(e) => Err(e),
                Ok((treasury, q)) => Ok((quorum, approval_bps, treasury, q)),
            },
        },
    }
}

/// A count, then that many proposal records.
pub open spec fn rd_proposal_section(b: Seq<u8>, q: int) -> Result<
    (Map<u64, ProposalModel>, int),
    Seq<char>,
> {
    match rd32(b, q) {
        Err(e) => Err(e),
        Ok((n, q)) => rd_proposals(b, q, n as nat),
    }
}

/// A count, then that many vote records.
pub open spec fn rd_vote_section(b: Seq<u8>, q: int) -> Result<
    (Map<(u64, Seq<char>), (u8, u64)>, int),
    Seq<char>,
> {
    match rd32(b, q) {
        Err(e) => Err(e),
        Ok((n, q)) => rd_votes(b, q, n as nat),
    }
}

/// A count, then that many allocation records.
pub open spec fn rd_allocation_section(b: Seq<u8>, q: int) -> Result<
    (Map<Seq<char>, u64>, int),
    Seq<char>,
> {
    match rd32(b, q) {
        Err(e) => Err(e),
        Ok((n, q)) => rd_allocations(b, q, n as nat),
    }
}

/// A count, then that many timelock records.
pub open spec fn rd_timelock_section(b: Seq<u8>, q: int) -> Result<(Map<u64, u64>, int), Seq<char>> {
    match rd32(b, q) {
        Err(e) => Err(e),
        Ok((n, q)) => rd_timelocks(b, q, n as nat),
    }
}

/// What a DAO snapshot denotes: the magic tag, parameters, then each counted map;
/// trailing bytes are refused.
pub open spec fn dao_parse(b: Seq<u8>) -> Result<DaoModel, Seq<char>> {
    if !(dao_magic().len() <= b.len() && b.subrange(0, dao_magic().len() as int) == dao_magic()) {
        Err("invalid DAO snapshot"@)
    } else {
        match rd_params(b) {
            Err(e) => Err(e),
            Ok((quorum, approval_bps, treasury, q)) => match rd_proposal_section(b, q) {
                Err(e) => Err(e),
                Ok((proposals, q)) => match rd_vote_section(b, q) {
                    Err(e) => Err(e),
                    Ok((votes, q)) => match rd_allocation_section(b, q) {
                        Err(e) => Err(e),
                        Ok((allocations, q)) => match rd_timelock_section(b, q) {
                            Err(e) => Err(e),
                            Ok((timelocks, q)) => if q != b.len() {
                                Err("trailing DAO snapshot"@)
                            } else {
                                Ok(
                                    DaoModel {
                                        proposals,
                                        votes,
                                        treasury,
                                        allocations,
                                        timelocks,
                                        quorum,
                                        approval_bps,
                                    },
                                )
                            },
                        },
                    },
                },
            },
        }
    }
}

fn get_opt_str(b: &[u8], p: &mut usize) -> (r: Result<Option<String>, String>)
    ensures
        match rd_opt_str(b@, *old(p) as int) {
            Ok((v, q)) => r matches Ok(x) && opt_str_view(x) == v && *final(p) == q,
            Err(m) => r matches Err(e) && e@ == m,
        },
{
    let f = get1(b, p)?;
    if f == 0 {
        Ok(None)
    } else if f == 1 {
        Ok(Some(get_str(b, p)?))
    } else {
        Err("invalid DAO action recipient flag".to_string())
    }
}

fn read_proposal(b: &[u8], p: &mut usize) -> (r: Result<Proposal, String>)
    ensures
        match rd_proposal(b@, *old(p) as int) {
            Ok((v, q)) => r matches Ok(x) && x@ == v && *final(p) == q,
            Err(m) => r matches Err(e) && e@ == m,
        },
{
    reveal(rd_proposal);
    let id = get_u64(b, p)?;
    let status = match number_to_status(get1(b, p)?) {
        Some(s) => s,
        None => return Err("invalid DAO status".to_string()),
    };
    let title = get_str(b, p)?;
    let description = get_str(b, p)?;
    let proposer = get_str(b, p)?;
    let start = get_u64(b, p)?;
    let end = get_u64(b, p)?;
    let yes = get_u64(b, p)?;
    let no = get_u64(b, p)?;
    let abstain = get_u64(b, p)?;
    let action_recipient = get_opt_str(b, p)?;
    let action_amount = get_u64(b, p)?;
    Ok(
        Proposal {
            id,
            title,
            description,
            proposer,
            start,
            end,
            status,
            yes,
            no,
            abstain,
            action_recipient,
            action_amount,
        },
    )
}


pub open spec fn sat_add(a: u64, b: u64) -> u64 {
    if a + b > u64::MAX {
        u64::MAX
    } else {
        (a + b) as u64
    }
}

pub open spec fn sat_mul(a: u64, b: u64) -> u64 {
    if a * b > u64::MAX {
        u64::MAX
    } else {
        (a * b) as u64
    }
}

/// Outcome of one DAO operation: the state after it, its effect or error, and the
/// payload position after its operands.
pub type OpOutcome = (DaoModel, Result<Option<EffectModel>, Seq<char>>, int);

/// A proposal becomes active once voting has started.
pub open spec fn activated(p: ProposalModel, block: u64) -> ProposalModel {
    if p.status == Status::Pending && block >= p.start {
        ProposalModel { status: Status::Active, ..p }
    } else {
        p
    }
}

/// Operation 0: create a proposal.
pub open spec fn op_propose(m: DaoModel, b: Seq<u8>, q: int, sender: Seq<char>) -> OpOutcome {
    match rd64(b, q) {
        Err(e) => (m, Err(e), q),
        Ok((id, q)) => match rd64(b, q) {
            Err(e) => (m, Err(e), q),
            Ok((start, q)) => match rd64(b, q) {
                Err(e) => (m, Err(e), q),
                Ok((end, q)) => if end <= start || m.proposals.contains_key(id) {
                    (m, Err("invalid or duplicate proposal"@), q)
                } else {
                    match rdstr(b, q) {
                        Err(e) => (m, Err(e), q),
                        Ok((title, q)) => match rdstr(b, q) {
                            Err(e) => (m, Err(e), q),
                            Ok((description, q)) => match rd_opt_str(b, q) {
                                Err(e) => (m, Err(e), q),
                                Ok((action_recipient, q)) => match rd64(b, q) {
                                    Err(e) => (m, Err(e), q),
                                    Ok((action_amount, q)) => if action_amount > 0
                                        && action_recipient is None {
                                        (m, Err("treasury action requires recipient"@), q)
                                    } else {
                                        (
                                            DaoModel {
                                                proposals: m.proposals.insert(
                                                    id,
                                                    ProposalModel {
                                                        id,
                                                        title,
                                                        description,
                                                        proposer: sender,
                                                        start,
                                                        end,
                                                        status: Status::Pending,
                                                        yes: 0,
                                                        no: 0,
                                                        abstain: 0,
                                                        action_recipient,
                                                        action_amount,
                                                    },
                                                ),
                                                ..m
                                            },
                                            Ok(None),
                                            q,
                                        )
                                    },
                                },
                            },
                        },
                    }
                },
            },
        },
    }
}

/// Adds `weight` to the tally of one vote kind.
pub open spec fn tallied(p: ProposalModel, kind: u8, weight: u64) -> ProposalModel {
    if kind == 0 {
        ProposalModel { yes: sat_add(p.yes, weight), ..p }
    } else if kind == 1 {
        ProposalModel { no: sat_add(p.no, weight), ..p }
    } else {
        ProposalModel { abstain: sat_add(p.abstain, weight), ..p }
    }
}

/// Operation 1: the sender votes with its voting power.
pub open spec fn op_vote(
    m: DaoModel,
    b: Seq<u8>,
    q: int,
    block: u64,
    sender: Seq<char>,
    power: u64,
) -> OpOutcome {
    match rd64(b, q) {
        Err(e) => (m, Err(e), q),
        Ok((id, q)) => match rd1(b, q) {
            Err(e) => (m, Err(e), q),
            Ok((kind, q)) => if !(kind == 0 || kind == 1 || kind == 2) {
                (m, Err("invalid vote type"@), q)
            } else if !m.proposals.contains_key(id) {
                (m, Err("proposal not found"@), q)
            } else {
                let p = activated(m.proposals[id], block);
                let m1 = DaoModel { proposals: m.proposals.insert(id, p), ..m };
                if p.status != Status::Active || block >= p.end || power == 0
                    || m.votes.contains_key((id, sender)) {
                    (m1, Err("invalid DAO vote"@), q)
                } else {
                    (
                        DaoModel {
                            proposals: m.proposals.insert(id, tallied(p, kind, power)),
                            votes: m.votes.insert((id, sender), (kind, power)),
                            ..m
                        },
                        Ok(None),
                        q,
                    )
                }
            },
        },
    }
}

/// Whether a closed proposal is approved: quorum reached, some decided votes, and
/// yes votes at least the approval share of the decided ones.
pub open spec fn approved(p: ProposalModel, quorum: u64, approval_bps: u16) -> bool {
    let participation = sat_add(sat_add(p.yes, p.no), p.abstain);
    let decided = sat_add(p.yes, p.no);
    participation >= quorum && decided > 0 && sat_mul(p.yes, 10_000) >= sat_mul(
        decided,
        approval_bps as u64,
    )
}

/// How a closed DAO proposal is judged, in exact arithmetic over its yes (`y`), no
/// (`n`) and abstaining (`x`) votes: participation `y + n + x`, abstentions included,
/// must reach the quorum and some votes must be decided; then it is approved exactly
/// when `y * 10000` reaches `(y + n) * approval_bps`, the refusing direction stated
/// where that threshold fits in a `u64`.
pub proof fn law_approval_decides(p: ProposalModel, quorum: u64, approval_bps: u16)
    ensures
        ({
            let y = p.yes as int;
            let n = p.no as int;
            let x = p.abstain as int;
            let bps = approval_bps as int;
            &&& y + n + x < quorum ==> !approved(p, quorum, approval_bps)
            &&& y + n == 0 ==> !approved(p, quorum, approval_bps)
            &&& y + n + x >= quorum && y + n > 0 && y * 10000 >= (y + n) * bps ==> approved(
                p,
                quorum,
                approval_bps,
            )
            &&& y * 10000 < (y + n) * bps && (y + n) * bps <= u64::MAX ==> !approved(
                p,
                quorum,
                approval_bps,
            )
        }),
{
    let y = p.yes as int;
    let n = p.no as int;
    let bps = approval_bps as int;
    let d = sat_add(p.yes, p.no) as int;
    let m = u64::MAX as int;
    assert(d <= y + n);
    assert(d * bps <= (y + n) * bps) by (nonlinear_arith)
        requires
            d <= y + n,
            0 <= bps,
    ;
    assert(0 <= d * bps) by (nonlinear_arith)
        requires
            0 <= d,
            0 <= bps,
    ;
    assert(0 <= y * 10000) by (nonlinear_arith)
        requires
            0 <= y,
    ;
    if (y + n) * bps <= m && y * 10000 < (y + n) * bps {
        if bps == 0 {
            assert((y + n) * bps == 0);
        }
        if y + n == 0 {
            assert((y + n) * bps == 0);
        }
        assert(y + n <= (y + n) * bps) by (nonlinear_arith)
            requires
                y + n > 0,
                bps >= 1,
        ;
    }
}

/// Operation 2: close the voting window; approved proposals are queued behind a timelock.
pub open spec fn op_close(m: DaoModel, b: Seq<u8>, q: int, block: u64) -> OpOutcome {
    match rd64(b, q) {
        Err(e) => (m, Err(e), q),
        Ok((id, q)) => if !m.proposals.contains_key(id) {
            (m, Err("proposal not found"@), q)
        } else {
            let p = activated(m.proposals[id], block);
            if p.status != Status::Active || block < p.end {
                (
                    DaoModel { proposals: m.proposals.insert(id, p), ..m },
                    Err("proposal voting window invalid"@),
                    q,
                )
            } else if approved(p, m.quorum, m.approval_bps) {
                (
                    DaoModel {
                        proposals: m.proposals.insert(id, ProposalModel { status: Status::Queued, ..p }),
                        timelocks: m.timelocks.insert(id, sat_add(block, 1)),
                        ..m
                    },
                    Ok(None),
                    q,
                )
            } else {
                (
                    DaoModel {
                        proposals: m.proposals.insert(id, ProposalModel { status: Status::Rejected, ..p }),
                        ..m
                    },
                    Ok(None),
                    q,
                )
            }
        },
    }
}

/// Operation 3: execute a queued proposal whose timelock has expired, paying out of the treasury.
pub open spec fn op_execute(m: DaoModel, b: Seq<u8>, q: int, block: u64) -> OpOutcome {
    match rd64(b, q) {
        Err(e) => (m, Err(e), q),
        Ok((id, q)) => if !m.proposals.contains_key(id) {
            (m, Err("proposal not found"@), q)
        } else {
            let p = m.proposals[id];
            if p.status != Status::Queued {
                (m, Err("DAO timelock not expired"@), q)
            } else if !m.timelocks.contains_key(id) {
                (m, Err("missing timelock"@), q)
            } else if block < m.timelocks[id] {
                (m, Err("DAO timelock not expired"@), q)
            } else if p.action_amount > 0 && p.action_recipient is None {
                (m, Err("missing treasury action recipient"@), q)
            } else if p.action_amount > 0 && m.treasury < p.action_amount {
                (m, Err("insufficient DAO treasury for proposal execution"@), q)
            } else {
                (
                    DaoModel {
                        proposals: m.proposals.insert(id, ProposalModel { status: Status::Executed, ..p }),
                        timelocks: m.timelocks.remove(id),
                        treasury: if p.action_amount > 0 {
                            (m.treasury - p.action_amount) as u64
                        } else {
                            m.treasury
                        },
                        ..m
                    },
                    Ok(
                        if p.action_amount > 0 {
                            Some(
                                EffectModel::TreasuryPayout {
                                    recipient: p.action_recipient.unwrap(),
                                    amount: p.action_amount,
                                },
                            )
                        } else {
                            None
                        },
                    ),
                    q,
                )
            }
        },
    }
}

/// Operation 4: deposit into the treasury.
pub open spec fn op_deposit(m: DaoModel, b: Seq<u8>, q: int) -> OpOutcome {
    match rd64(b, q) {
        Err(e) => (m, Err(e), q),
        Ok((amount, q)) => if amount == 0 {
            (m, Err("treasury deposit must be non-zero"@), q)
        } else if m.treasury + amount > u64::MAX {
            (m, Err("treasury overflow"@), q)
        } else {
            (
                DaoModel { treasury: (m.treasury + amount) as u64, ..m },
                Ok(Some(EffectModel::TreasuryDeposit { amount })),
                q,
            )
        },
    }
}

/// What applying a payload does to the DAO: payloads without the DAO tag are ignored;
/// otherwise one operation runs, and bytes left after its operands fail it (keeping
/// whatever the operation already changed).
pub open spec fn dao_apply_spec(
    m: DaoModel,
    b: Seq<u8>,
    block: u64,
    sender: Seq<char>,
    power: u64,
) -> (DaoModel, Result<Option<EffectModel>, Seq<char>>) {
    if !(dao_magic().len() <= b.len() && b.subrange(0, dao_magic().len() as int) == dao_magic()) {
        (m, Ok(None))
    } else {
        match rd1(b, dao_magic().len() as int) {
            Err(e) => (m, Err(e)),
            Ok((op, q)) => {
                let out: OpOutcome = if op == 0 {
                    op_propose(m, b, q, sender)
                } else if op == 1 {
                    op_vote(m, b, q, block, sender, power)
                } else if op == 2 {
                    op_close(m, b, q, block)
                } else if op == 3 {
                    op_execute(m, b, q, block)
                } else if op == 4 {
                    op_deposit(m, b, q)
                } else if op == 5 {
                    (m, Err("direct DAO allocation is disabled; use an approved treasury proposal"@), q)
                } else if op == 6 {
                    (m, Err("direct DAO release is disabled; use an approved treasury proposal"@), q)
                } else {
                    (m, Err("unknown DAO operation"@), q)
                };
                match out.1 {
                    Err(e) => (out.0, Err(e)),
                    Ok(eff) => if out.2 != b.len() {
                        (out.0, Err("trailing DAO payload"@))
                    } else {
                        (out.0, Ok(eff))
                    },
                }
            },
        }
    }
}

/// Whether `b` begins with `prefix`.
pub fn starts_with(b: &[u8], prefix: &[u8]) -> (r: bool)
    ensures
        r == (prefix@.len() <= b@.len() && b@.subrange(0, prefix@.len() as int) == prefix@),
{
    if prefix.len() > b.len() {
        return false;
    }
    let mut i: usize = 0;
    while i < prefix.len()
        invariant
            prefix@.len() <= b@.len(),
            i <= prefix@.len(),
            forall|j: int| 0 <= j < i ==> b@[j] == prefix@[j],
        decreases prefix@.len() - i,
    {
        if b[i] != prefix[i] {
            assert(b@.subrange(0, prefix@.len() as int)[i as int] != prefix@[i as int]);
            return false;
        }
        i = i + 1;
    }
    assert(b@.subrange(0, prefix@.len() as int) =~= prefix@);
    true
}

impl DaoState {
    /// Rebuilds a DAO state from snapshot bytes.
    pub fn decode(bytes: &[u8]) -> (r: Result<Self, String>)
        ensures
            match dao_parse(bytes@) {
                Ok(m) => r matches Ok(d) && d.wf() && d@ == m,
                Err(msg) => r matches Err(e) && e@ == msg,
            },
    {
        if !starts_with(bytes, "ATC-DAO-V2".as_bytes()) {
            return Err("invalid DAO snapshot".to_string());
        }
        let mut q: usize = "ATC-DAO-V2".as_bytes().len();
        let quorum = get_u64(bytes, &mut q)?;
        let approval = get_u16(bytes, &mut q)?;
        let treasury = get_u64(bytes, &mut q)?;
        let pn = get_u32(bytes, &mut q)?;
        let proposals = read_proposals(bytes, &mut q, pn)?;
        let vn = get_u32(bytes, &mut q)?;
        let votes = read_votes(bytes, &mut q, vn)?;
        let an = get_u32(bytes, &mut q)?;
        let allocations = read_allocations(bytes, &mut q, an)?;
        let tn = get_u32(bytes, &mut q)?;
        let timelocks = read_timelocks(bytes, &mut q, tn)?;
        if q != bytes.len() {
            return Err("trailing DAO snapshot".to_string());
        }
        Ok(
            DaoState {
                proposals,
                votes,
                treasury,
                allocations,
                timelocks,
                quorum,
                approval_bps: approval,
            },
        )
    }
}

proof fn lemma_rd_proposals_err(b: Seq<u8>, q: int, i: nat, k: nat)
    requires
        i <= k,
        rd_proposals(b, q, i) is Err,
    ensures
        rd_proposals(b, q, k) == rd_proposals(b, q, i),
    decreases k,
{
    if i < k {
        lemma_rd_proposals_err(b, q, i, (k - 1) as nat);
    }
}

proof fn lemma_rd_votes_err(b: Seq<u8>, q: int, i: nat, k: nat)
    requires
        i <= k,
        rd_votes(b, q, i) is Err,
    ensures
        rd_votes(b, q, k) == rd_votes(b, q, i),
    decreases k,
{
    if i < k {
        lemma_rd_votes_err(b, q, i, (k - 1) as nat);
    }
}

proof fn lemma_rd_allocations_err(b: Seq<u8>, q: int, i: nat, k: nat)
    requires
        i <= k,
        rd_allocations(b, q, i) is Err,
    ensures
        rd_allocations(b, q, k) == rd_allocations(b, q, i),
    decreases k,
{
    if i < k {
        lemma_rd_allocations_err(b, q, i, (k - 1) as nat);
    }
}

proof fn lemma_rd_timelocks_err(b: Seq<u8>, q: int, i: nat, k: nat)
    requires
        i <= k,
        rd_timelocks(b, q, i) is Err,
    ensures
        rd_timelocks(b, q, k) == rd_timelocks(b, q, i),
    decreases k,
{
    if i < k {
        lemma_rd_timelocks_err(b, q, i, (k - 1) as nat);
    }
}

fn read_proposals(b: &[u8], p: &mut usize, n: u32) -> (r: Result<OrdMap<u64, Proposal>, String>)
    ensures
        match rd_proposals(b@, *old(p) as int, n as nat) {
            Ok((m, q)) => r matches Ok(x) && x.wf() && proposal_models(x@) == m
                && *final(p) == q && forall|k: u64| #[trigger]
                x@.contains_key(k) ==> x@[k].id == k,
            Err(msg) => r matches Err(e) && e@ == msg,
        },
{
    let ghost q0 = *p as int;
    let mut proposals: OrdMap<u64, Proposal> = OrdMap::new();
    assert(proposal_models(proposals@) =~= Map::<u64, ProposalModel>::empty());
    let mut i: u32 = 0;
    while i < n
        invariant
            i <= n,
            q0 == *old(p) as int,
            proposals.wf(),
            forall|k: u64| #[trigger] proposals@.contains_key(k) ==> proposals@[k].id == k,
            rd_proposals(b@, q0, i as nat) == Ok::<(Map<u64, ProposalModel>, int), Seq<char>>(
                (proposal_models(proposals@), *p as int),
            ),
        decreases n - i,
    {
        let rp = read_proposal(b, p);
        match rp {
            Err(e) => {
                proof {
                    lemma_rd_proposals_err(b@, q0, (i + 1) as nat, n as nat);
                }
                return Err(e);
            },
            Ok(x) => {
                let ghost pm = proposals@;
                let id = x.id;
                proposals.insert(id, x);
                assert(proposal_models(proposals@) =~= proposal_models(pm).insert(id, x@));
            },
        }
        i = i + 1;
    }
    Ok(proposals)
}

fn read_votes(b: &[u8], p: &mut usize, n: u32) -> (r: Result<OrdMap<(u64, String), (u8, u64)>, String>)
    ensures
        match rd_votes(b@, *old(p) as int, n as nat) {
            Ok((m, q)) => r matches Ok(x) && x.wf() && x@ == m && *final(p) == q,
            Err(msg) => r matches Err(e) && e@ == msg,
        },
{
    let ghost q0 = *p as int;
    let mut votes: OrdMap<(u64, String), (u8, u64)> = OrdMap::new();
    let mut i: u32 = 0;
    while i < n
        invariant
            i <= n,
            q0 == *old(p) as int,
            votes.wf(),
            rd_votes(b@, q0, i as nat) == Ok::<(Map<(u64, Seq<char>), (u8, u64)>, int), Seq<char>>(
                (votes@, *p as int),
            ),
        decreases n - i,
    {
        let r = read_vote(b, p);
        match r {
            Err(e) => {
                proof {
                    lemma_rd_votes_err(b@, q0, (i + 1) as nat, n as nat);
                }
                return Err(e);
            },
            Ok((id, voter, kind, weight)) => {
                votes.insert((id, voter), (kind, weight));
            },
        }
        i = i + 1;
    }
    Ok(votes)
}

fn read_vote(b: &[u8], p: &mut usize) -> (r: Result<(u64, String, u8, u64), String>)
    ensures
        match rd64(b@, *old(p) as int) {
            Err(m) => r matches Err(e) && e@ == m,
            Ok((id, q)) => match rdstr(b@, q) {
                Err(m) => r matches Err(e) && e@ == m,
                Ok((voter, q)) => match rd1(b@, q) {
                    Err(m) => r matches Err(e) && e@ == m,
                    Ok((kind, q)) => match rd64(b@, q) {
                        Err(m) => r matches Err(e) && e@ == m,
                        Ok((weight, q)) => r matches Ok(x) && x.0 == id && x.1@ == voter && x.2 == kind
                            && x.3 == weight && *final(p) == q,
                    },
                },
            },
        },
{
    let id = get_u64(b, p)?;
    let voter = get_str(b, p)?;
    let kind = get1(b, p)?;
    let weight = get_u64(b, p)?;
    Ok((id, voter, kind, weight))
}

fn read_allocations(b: &[u8], p: &mut usize, n: u32) -> (r: Result<OrdMap<String, u64>, String>)
    ensures
        match rd_allocations(b@, *old(p) as int, n as nat) {
            Ok((m, q)) => r matches Ok(x) && x.wf() && x@ == m && *final(p) == q,
            Err(msg) => r matches Err(e) && e@ == msg,
        },
{
    let ghost q0 = *p as int;
    let mut allocations: OrdMap<String, u64> = OrdMap::new();
    let mut i: u32 = 0;
    while i < n
        invariant
            i <= n,
            q0 == *old(p) as int,
            allocations.wf(),
            rd_allocations(b@, q0, i as nat) == Ok::<(Map<Seq<char>, u64>, int), Seq<char>>(
                (allocations@, *p as int),
            ),
        decreases n - i,
    {
        let ks = get_str(b, p);
        let k = match ks {
            Err(e) => {
                proof {
                    lemma_rd_allocations_err(b@, q0, (i + 1) as nat, n as nat);
                }
                return Err(e);
            },
            Ok(k) => k,
        };
        let vs = get_u64(b, p);
        let v = match vs {
            Err(e) => {
                proof {
                    lemma_rd_allocations_err(b@, q0, (i + 1) as nat, n as nat);
                }
                return Err(e);
            },
            Ok(v) => v,
        };
        allocations.insert(k, v);
        i = i + 1;
    }
    Ok(allocations)
}

fn read_timelocks(b: &[u8], p: &mut usize, n: u32) -> (r: Result<OrdMap<u64, u64>, String>)
    ensures
        match rd_timelocks(b@, *old(p) as int, n as nat) {
            Ok((m, q)) => r matches Ok(x) && x.wf() && x@ == m && *final(p) == q,
            Err(msg) => r matches Err(e) && e@ == msg,
        },
{
    let ghost q0 = *p as int;
    let mut timelocks: OrdMap<u64, u64> = OrdMap::new();
    let mut i: u32 = 0;
    while i < n
        invariant
            i <= n,
            q0 == *old(p) as int,
            timelocks.wf(),
            rd_timelocks(b@, q0, i as nat) == Ok::<(Map<u64, u64>, int), Seq<char>>(
                (timelocks@, *p as int),
            ),
        decreases n - i,
    {
        let ks = get_u64(b, p);
        let k = match ks {
            Err(e) => {
                proof {
                    lemma_rd_timelocks_err(b@, q0, (i + 1) as nat, n as nat);
                }
                return Err(e);
            },
            Ok(k) => k,
        };
        let vs = get_u64(b, p);
        let v = match vs {
            Err(e) => {
                proof {
                    lemma_rd_timelocks_err(b@, q0, (i + 1) as nat, n as nat);
                }
                return Err(e);
            },
            Ok(v) => v,
        };
        timelocks.insert(k, v);
        i = i + 1;
    }
    Ok(timelocks)
}

fn encode_proposal(o: &mut Vec<u8>, p: &Proposal)
    ensures
        final(o)@ == old(o)@ + proposal_bytes(p@),
{
    push_u64(o, p.id);
    o.push(status_to_number(p.status));
    push_lp(o, p.title.as_str().as_bytes());
    push_lp(o, p.description.as_str().as_bytes());
    push_lp(o, p.proposer.as_str().as_bytes());
    push_u64(o, p.start);
    push_u64(o, p.end);
    push_u64(o, p.yes);
    push_u64(o, p.no);
    push_u64(o, p.abstain);
    push_opt_str(o, &p.action_recipient);
    push_u64(o, p.action_amount);
    assert(final(o)@ =~= old(o)@ + proposal_bytes(p@));
}


/// Whether `r` reports the outcome `out` of an operation, with `qf` the payload
/// position after it.
spec fn reports(out: OpOutcome, r: Result<Option<DaoEffect>, String>, qf: int) -> bool {
    match out.1 {
        Ok(e) => r matches Ok(x) && opt_effect_view(x) == e && qf == out.2,
        Err(m) => r matches Err(x) && x@ == m,
    }
}

impl DaoState {
    fn propose(&mut self, b: &[u8], q: &mut usize, sender: &str) -> (r: Result<
        Option<DaoEffect>,
        String,
    >)
        requires
            old(self).wf(),
        ensures
            final(self).wf(),
            final(self)@ == op_propose(old(self)@, b@, *old(q) as int, sender@).0,
            reports(op_propose(old(self)@, b@, *old(q) as int, sender@), r, *final(q) as int),
    {
        let id = get_u64(b, q)?;
        let start = get_u64(b, q)?;
        let end = get_u64(b, q)?;
        if end <= start || self.proposals.contains_key(&id) {
            return Err("invalid or duplicate proposal".to_string());
        }
        let title = get_str(b, q)?;
        let description = get_str(b, q)?;
        let action_recipient = get_opt_str(b, q)?;
        let action_amount = get_u64(b, q)?;
        if action_amount > 0 && action_recipient.is_none() {
            return Err("treasury action requires recipient".to_string());
        }
        let proposal = Proposal {
            id,
            title,
            description,
            proposer: sender.to_string(),
            start,
            end,
            status: Status::Pending,
            yes: 0,
            no: 0,
            abstain: 0,
            action_recipient,
            action_amount,
        };
        let ghost m0 = self.proposals@;
        let ghost pv = proposal;
        self.proposals.insert(id, proposal);
        proof {
            lemma_models_insert(m0, id, pv);
        }
        Ok(None)
    }

    fn vote(&mut self, b: &[u8], q: &mut usize, block: u64, sender: &str, power: u64) -> (r: Result<
        Option<DaoEffect>,
        String,
    >)
        requires
            old(self).wf(),
        ensures
            final(self).wf(),
            final(self)@ == op_vote(old(self)@, b@, *old(q) as int, block, sender@, power).0,
            reports(
                op_vote(old(self)@, b@, *old(q) as int, block, sender@, power),
                r,
                *final(q) as int,
            ),
    {
        let id = get_u64(b, q)?;
        let kind = get1(b, q)?;
        if !(kind == 0 || kind == 1 || kind == 2) {
            return Err("invalid vote type".to_string());
        }
        let ghost m0 = self.proposals@;
        let mut p = match self.proposals.remove(&id) {
            Some(p) => p,
            None => {
                assert(m0.remove(id) =~= m0);
                return Err("proposal not found".to_string());
            },
        };
        proof {
            lemma_models_remove(m0, id);
        }
        if p.status == Status::Pending && block >= p.start {
            p.status = Status::Active;
        }
        let key = (id, sender.to_string());
        if p.status != Status::Active || block >= p.end || power == 0 || self.votes.contains_key(
            &key,
        ) {
            let ghost pv = p;
            self.proposals.insert(id, p);
            proof {
                lemma_models_insert(m0.remove(id), id, pv);
                assert(m0.remove(id).insert(id, pv) =~= m0.insert(id, pv));
                lemma_models_insert(m0, id, pv);
            }
            return Err("invalid DAO vote".to_string());
        }
        if kind == 0 {
            p.yes = p.yes.saturating_add(power);
        } else if kind == 1 {
            p.no = p.no.saturating_add(power);
        } else {
            p.abstain = p.abstain.saturating_add(power);
        }
        let ghost pv = p;
        self.proposals.insert(id, p);
        self.votes.insert(key, (kind, power));
        proof {
            assert(m0.remove(id).insert(id, pv) =~= m0.insert(id, pv));
            lemma_models_insert(m0, id, pv);
        }
        Ok(None)
    }
}


impl DaoState {
    fn close(&mut self, b: &[u8], q: &mut usize, block: u64) -> (r: Result<
        Option<DaoEffect>,
        String,
    >)
        requires
            old(self).wf(),
        ensures
            final(self).wf(),
            final(self)@ == op_close(old(self)@, b@, *old(q) as int, block).0,
            reports(op_close(old(self)@, b@, *old(q) as int, block), r, *final(q) as int),
    {
        let id = get_u64(b, q)?;
        let ghost m0 = self.proposals@;
        let mut p = match self.proposals.remove(&id) {
            Some(p) => p,
            None => {
                assert(m0.remove(id) =~= m0);
                return Err("proposal not found".to_string());
            },
        };
        proof {
            lemma_models_remove(m0, id);
            assert(m0.remove(id).insert(id, p) =~= m0.insert(id, p));
        }
        if p.status == Status::Pending && block >= p.start {
            p.status = Status::Active;
        }
        if p.status != Status::Active || block < p.end {
            let ghost pv = p;
            self.proposals.insert(id, p);
            proof {
                assert(m0.remove(id).insert(id, pv) =~= m0.insert(id, pv));
                lemma_models_insert(m0, id, pv);
            }
            return Err("proposal voting window invalid".to_string());
        }
        let participation = p.yes.saturating_add(p.no).saturating_add(p.abstain);
        let decided = p.yes.saturating_add(p.no);
        let passes = participation >= self.quorum && decided > 0 && sat_mul_u64(p.yes, 10_000)
            >= sat_mul_u64(decided, self.approval_bps as u64);
        if passes {
            p.status = Status::Queued;
        } else {
            p.status = Status::Rejected;
        }
        let ghost pv = p;
        self.proposals.insert(id, p);
        if passes {
            self.timelocks.insert(id, block.saturating_add(1));
        }
        proof {
            assert(m0.remove(id).insert(id, pv) =~= m0.insert(id, pv));
            lemma_models_insert(m0, id, pv);
        }
        Ok(None)
    }

    fn execute(&mut self, b: &[u8], q: &mut usize, block: u64) -> (r: Result<
        Option<DaoEffect>,
        String,
    >)
        requires
            old(self).wf(),
        ensures
            final(self).wf(),
            final(self)@ == op_execute(old(self)@, b@, *old(q) as int, block).0,
            reports(op_execute(old(self)@, b@, *old(q) as int, block), r, *final(q) as int),
    {
        let id = get_u64(b, q)?;
        let (status, amount, recipient) = match self.proposals.get(&id) {
            Some(p) => (p.status, p.action_amount, copy_opt_str(&p.action_recipient)),
            None => return Err("proposal not found".to_string()),
        };
        if status != Status::Queued {
            return Err("DAO timelock not expired".to_string());
        }
        let unlock = match self.timelocks.get(&id) {
            Some(t) => *t,
            None => return Err("missing timelock".to_string()),
        };
        if block < unlock {
            return Err("DAO timelock not expired".to_string());
        }
        if amount > 0 && recipient.is_none() {
            return Err("missing treasury action recipient".to_string());
        }
        if amount > 0 && self.treasury < amount {
            return Err("insufficient DAO treasury for proposal execution".to_string());
        }
        let ghost m0 = self.proposals@;
        let mut p = match self.proposals.remove(&id) {
            Some(p) => p,
            None => return Err("proposal not found".to_string()),
        };
        p.status = Status::Executed;
        let ghost pv = p;
        self.proposals.insert(id, p);
        self.timelocks.remove(&id);
        proof {
            assert(m0.remove(id).insert(id, pv) =~= m0.insert(id, pv));
            lemma_models_insert(m0, id, pv);
        }
        if amount > 0 {
            self.treasury = self.treasury - amount;
            match recipient {
                Some(rc) => Ok(Some(DaoEffect::TreasuryPayout { recipient: rc, amount })),
                None => Ok(None),
            }
        } else {
            Ok(None)
        }
    }

    fn deposit(&mut self, b: &[u8], q: &mut usize) -> (r: Result<Option<DaoEffect>, String>)
        requires
            old(self).wf(),
        ensures
            final(self).wf(),
            final(self)@ == op_deposit(old(self)@, b@, *old(q) as int).0,
            reports(op_deposit(old(self)@, b@, *old(q) as int), r, *final(q) as int),
    {
        let amount = get_u64(b, q)?;
        if amount == 0 {
            return Err("treasury deposit must be non-zero".to_string());
        }
        match self.treasury.checked_add(amount) {
            Some(t) => self.treasury = t,
            None => return Err("treasury overflow".to_string()),
        }
        Ok(Some(DaoEffect::TreasuryDeposit { amount }))
    }

    /// Applies a DAO payload sent by `sender` with `voting_power` in block `block`.
    /// Payloads without the DAO tag are ignored. Operations: propose, vote, close,
    /// execute, deposit; direct allocation and release are refused.
    pub fn apply(&mut self, payload: &[u8], block: u64, sender: &str, voting_power: u64) -> (r:
        Result<Option<DaoEffect>, String>)
        requires
            old(self).wf(),
        ensures
            final(self).wf(),
            final(self)@ == dao_apply_spec(old(self)@, payload@, block, sender@, voting_power).0,
            match dao_apply_spec(old(self)@, payload@, block, sender@, voting_power).1 {
                Ok(e) => r matches Ok(x) && opt_effect_view(x) == e,
                Err(m) => r matches Err(x) && x@ == m,
            },
    {
        if !starts_with(payload, "ATC-DAO-V2".as_bytes()) {
            return Ok(None);
        }
        let mut q: usize = "ATC-DAO-V2".as_bytes().len();
        let op = get1(payload, &mut q)?;
        let outcome = if op == 0 {
            self.propose(payload, &mut q, sender)
        } else if op == 1 {
            self.vote(payload, &mut q, block, sender, voting_power)
        } else if op == 2 {
            self.close(payload, &mut q, block)
        } else if op == 3 {
            self.execute(payload, &mut q, block)
        } else if op == 4 {
            self.deposit(payload, &mut q)
        } else if op == 5 {
            Err("direct DAO allocation is disabled; use an approved treasury proposal".to_string())
        } else if op == 6 {
            Err("direct DAO release is disabled; use an approved treasury proposal".to_string())
        } else {
            Err("unknown DAO operation".to_string())
        };
        let effect = outcome?;
        if q != payload.len() {
            return Err("trailing DAO payload".to_string());
        }
        Ok(effect)
    }
}


/// Every string of a proposal encodes within a length prefix.
pub open spec fn proposal_fits(p: ProposalModel) -> bool {
    &&& utf8(p.title).len() < 0x1_0000_0000
    &&& utf8(p.description).len() < 0x1_0000_0000
    &&& utf8(p.proposer).len() < 0x1_0000_0000
    &&& (p.action_recipient matches Some(r) ==> utf8(r).len() < 0x1_0000_0000)
}

impl DaoState {
    /// Every count and every string of the state fits its 32-bit length prefix.
    pub open spec fn fits(&self) -> bool {
        &&& self.proposals@.len() < 0x1_0000_0000
        &&& self.votes@.len() < 0x1_0000_0000
        &&& self.allocations@.len() < 0x1_0000_0000
        &&& self.timelocks@.len() < 0x1_0000_0000
        &&& forall|k: u64| #[trigger]
            self.proposals@.contains_key(k) ==> proposal_fits(self.proposals@[k]@)
        &&& forall|k: (u64, Seq<char>)| #[trigger]
            self.votes@.contains_key(k) ==> utf8(k.1).len() < 0x1_0000_0000
        &&& forall|k: Seq<char>| #[trigger]
            self.allocations@.contains_key(k) ==> utf8(k).len() < 0x1_0000_0000
    }
}

proof fn lemma_rd1_at(b: Seq<u8>, q: int, x: u8)
    requires
        holds_at(b, q, seq![x]),
    ensures
        rd1(b, q) == Ok::<(u8, int), Seq<char>>((x, q + 1)),
{
    reveal_with_fuel(be, 2);
    assert((x as nat) % 256 == x as nat);
    assert(be(x as nat, 1) =~= seq![x]);
    lemma_pow256_small();
    lemma_sp_num_at(b, q, x as nat, 1);
}

proof fn lemma_rd16_at(b: Seq<u8>, q: int, v: u16)
    requires
        holds_at(b, q, be16(v)),
    ensures
        rd16(b, q) == Ok::<(u16, int), Seq<char>>((v, q + 2)),
{
    lemma_pow256_small();
    lemma_sp_num_at(b, q, v as nat, 2);
}

proof fn lemma_rd64_at(b: Seq<u8>, q: int, v: u64)
    requires
        holds_at(b, q, be64(v)),
    ensures
        rd64(b, q) == Ok::<(u64, int), Seq<char>>((v, q + 8)),
{
    lemma_pow256_small();
    lemma_sp_num_at(b, q, v as nat, 8);
}

proof fn lemma_rd_count_at(b: Seq<u8>, q: int, n: nat)
    requires
        holds_at(b, q, len_prefix(n)),
        n < 0x1_0000_0000,
    ensures
        rd32(b, q) == Ok::<(u32, int), Seq<char>>((n as u32, q + 4)),
        (n as u32) as nat == n,
{
    lemma_pow256_small();
    lemma_sp_num_at(b, q, n, 4);
}

proof fn lemma_rdstr_at(b: Seq<u8>, q: int, s: Seq<char>)
    requires
        holds_at(b, q, lp(utf8(s))),
        utf8(s).len() < 0x1_0000_0000,
    ensures
        rdstr(b, q) == Ok::<(Seq<char>, int), Seq<char>>((s, q + lp(utf8(s)).len())),
{
    broadcast use crate::codec::lemma_be_length;

    lemma_sp_lp_at(b, q, utf8(s));
    vstd::utf8::encode_utf8_valid_utf8(s);
    vstd::utf8::encode_utf8_decode_utf8(s);
}

proof fn lemma_rd_opt_str_at(b: Seq<u8>, q: int, o: Option<Seq<char>>)
    requires
        holds_at(b, q, opt_str_bytes(o)),
        o matches Some(r) ==> utf8(r).len() < 0x1_0000_0000,
    ensures
        rd_opt_str(b, q) == Ok::<(Option<Seq<char>>, int), Seq<char>>(
            (o, q + opt_str_bytes(o).len()),
        ),
{
    broadcast use crate::codec::lemma_be_length;

    match o {
        None => {
            lemma_rd1_at(b, q, 0);
        },
        Some(r) => {
            lemma_holds_at_split(b, q, seq![1u8], lp(utf8(r)));
            lemma_rd1_at(b, q, 1);
            lemma_rdstr_at(b, q + 1, r);
        },
    }
}

#[verifier::spinoff_prover]
#[verifier::rlimit(40)]
proof fn lemma_rd_proposal_at(b: Seq<u8>, q: int, p: ProposalModel)
    requires
        holds_at(b, q, proposal_bytes(p)),
        proposal_fits(p),
    ensures
        rd_proposal(b, q) == Ok::<(ProposalModel, int), Seq<char>>(
            (p, q + proposal_bytes(p).len()),
        ),
{
    reveal(rd_proposal);
    broadcast use crate::codec::lemma_be_length;

    let a0 = be64(p.id);
    let a1 = a0 + seq![status_number(p.status)];
    let a2 = a1 + lp(utf8(p.title));
    let a3 = a2 + lp(utf8(p.description));
    let a4 = a3 + lp(utf8(p.proposer));
    let a5 = a4 + be64(p.start);
    let a6 = a5 + be64(p.end);
    let a7 = a6 + be64(p.yes);
    let a8 = a7 + be64(p.no);
    let a9 = a8 + be64(p.abstain);
    let a10 = a9 + opt_str_bytes(p.action_recipient);
    assert(a10 + be64(p.action_amount) == proposal_bytes(p));
    lemma_holds_at_split(b, q, a10, be64(p.action_amount));
    lemma_holds_at_split(b, q, a9, opt_str_bytes(p.action_recipient));
    lemma_holds_at_split(b, q, a8, be64(p.abstain));
    lemma_holds_at_split(b, q, a7, be64(p.no));
    lemma_holds_at_split(b, q, a6, be64(p.yes));
    lemma_holds_at_split(b, q, a5, be64(p.end));
    lemma_holds_at_split(b, q, a4, be64(p.start));
    lemma_holds_at_split(b, q, a3, lp(utf8(p.proposer)));
    lemma_holds_at_split(b, q, a2, lp(utf8(p.description)));
    lemma_holds_at_split(b, q, a1, lp(utf8(p.title)));
    lemma_holds_at_split(b, q, a0, seq![status_number(p.status)]);
    lemma_rd64_at(b, q, p.id);
    lemma_rd1_at(b, q + a0.len(), status_number(p.status));
    assert(status_of_number(status_number(p.status)) == Some(p.status));
    lemma_rdstr_at(b, q + a1.len(), p.title);
    lemma_rdstr_at(b, q + a2.len(), p.description);
    lemma_rdstr_at(b, q + a3.len(), p.proposer);
    lemma_rd64_at(b, q + a4.len(), p.start);
    lemma_rd64_at(b, q + a5.len(), p.end);
    lemma_rd64_at(b, q + a6.len(), p.yes);
    lemma_rd64_at(b, q + a7.len(), p.no);
    lemma_rd64_at(b, q + a8.len(), p.abstain);
    lemma_rd_opt_str_at(b, q + a9.len(), p.action_recipient);
    lemma_rd64_at(b, q + a10.len(), p.action_amount);
}


proof fn lemma_rd_proposals_at(b: Seq<u8>, q: int, s: Seq<(u64, Proposal)>, k: nat)
    requires
        k <= s.len(),
        holds_at(b, q, proposals_bytes(s.take(k as int))),
        forall|i: int| 0 <= i < s.len() ==> (#[trigger] s[i]).1.id == s[i].0,
        forall|i: int| 0 <= i < s.len() ==> proposal_fits((#[trigger] s[i]).1@),
    ensures
        rd_proposals(b, q, k) == Ok::<(Map<u64, ProposalModel>, int), Seq<char>>(
            (
                proposal_models(map_of(s.take(k as int))),
                q + proposals_bytes(s.take(k as int)).len(),
            ),
        ),
    decreases k,
{
    let t = s.take(k as int);
    if k == 0 {
        assert(proposal_models(map_of(t)) =~= Map::<u64, ProposalModel>::empty());
    } else {
        let u = s.take(k - 1);
        assert(t.drop_last() =~= u);
        let e = s[k - 1];
        lemma_holds_at_split(b, q, proposals_bytes(u), proposal_bytes(e.1@));
        lemma_rd_proposals_at(b, q, s, (k - 1) as nat);
        lemma_rd_proposal_at(b, q + proposals_bytes(u).len(), e.1@);
        lemma_models_insert(map_of(u), e.0, e.1);
    }
}

proof fn lemma_rd_votes_at(b: Seq<u8>, q: int, s: Seq<((u64, Seq<char>), (u8, u64))>, k: nat)
    requires
        k <= s.len(),
        holds_at(b, q, votes_bytes(s.take(k as int))),
        forall|i: int| 0 <= i < s.len() ==> utf8((#[trigger] s[i]).0.1).len() < 0x1_0000_0000,
    ensures
        rd_votes(b, q, k) == Ok::<(Map<(u64, Seq<char>), (u8, u64)>, int), Seq<char>>(
            (map_of(s.take(k as int)), q + votes_bytes(s.take(k as int)).len()),
        ),
    decreases k,
{
    broadcast use crate::codec::lemma_be_length;

    let t = s.take(k as int);
    if k > 0 {
        let u = s.take(k - 1);
        assert(t.drop_last() =~= u);
        let e = s[k - 1];
        let a0 = votes_bytes(u);
        let a1 = a0 + be64(e.0.0);
        let a2 = a1 + lp(utf8(e.0.1));
        let a3 = a2 + seq![e.1.0];
        lemma_holds_at_split(b, q, a3, be64(e.1.1));
        lemma_holds_at_split(b, q, a2, seq![e.1.0]);
        lemma_holds_at_split(b, q, a1, lp(utf8(e.0.1)));
        lemma_holds_at_split(b, q, a0, be64(e.0.0));
        lemma_rd_votes_at(b, q, s, (k - 1) as nat);
        lemma_rd64_at(b, q + a0.len(), e.0.0);
        lemma_rdstr_at(b, q + a1.len(), e.0.1);
        lemma_rd1_at(b, q + a2.len(), e.1.0);
        lemma_rd64_at(b, q + a3.len(), e.1.1);
    }
}

proof fn lemma_rd_allocations_at(b: Seq<u8>, q: int, s: Seq<(Seq<char>, u64)>, k: nat)
    requires
        k <= s.len(),
        holds_at(b, q, allocations_bytes(s.take(k as int))),
        forall|i: int| 0 <= i < s.len() ==> utf8((#[trigger] s[i]).0).len() < 0x1_0000_0000,
    ensures
        rd_allocations(b, q, k) == Ok::<(Map<Seq<char>, u64>, int), Seq<char>>(
            (map_of(s.take(k as int)), q + allocations_bytes(s.take(k as int)).len()),
        ),
    decreases k,
{
    broadcast use crate::codec::lemma_be_length;

    let t = s.take(k as int);
    if k > 0 {
        let u = s.take(k - 1);
        assert(t.drop_last() =~= u);
        let e = s[k - 1];
        let a0 = allocations_bytes(u);
        let a1 = a0 + lp(utf8(e.0));
        lemma_holds_at_split(b, q, a1, be64(e.1));
        lemma_holds_at_split(b, q, a0, lp(utf8(e.0)));
        lemma_rd_allocations_at(b, q, s, (k - 1) as nat);
        lemma_rdstr_at(b, q + a0.len(), e.0);
        lemma_rd64_at(b, q + a1.len(), e.1);
    }
}

proof fn lemma_rd_timelocks_at(b: Seq<u8>, q: int, s: Seq<(u64, u64)>, k: nat)
    requires
        k <= s.len(),
        holds_at(b, q, timelocks_bytes(s.take(k as int))),
    ensures
        rd_timelocks(b, q, k) == Ok::<(Map<u64, u64>, int), Seq<char>>(
            (map_of(s.take(k as int)), q + timelocks_bytes(s.take(k as int)).len()),
        ),
    decreases k,
{
    broadcast use crate::codec::lemma_be_length;

    let t = s.take(k as int);
    if k > 0 {
        let u = s.take(k - 1);
        assert(t.drop_last() =~= u);
        let e = s[k - 1];
        let a0 = timelocks_bytes(u);
        let a1 = a0 + be64(e.0);
        lemma_holds_at_split(b, q, a1, be64(e.1));
        lemma_holds_at_split(b, q, a0, be64(e.0));
        lemma_rd_timelocks_at(b, q, s, (k - 1) as nat);
        lemma_rd64_at(b, q + a0.len(), e.0);
        lemma_rd64_at(b, q + a1.len(), e.1);
    }
}


/// Decoding the snapshot of a DAO state gives that state back, when every count and
/// string of it fits its length prefix.

proof fn lemma_snapshot_pairs(d: DaoState)
    requires
        d.wf(),
        d.fits(),
    ensures
        d.proposals.pairs().len() < 0x1_0000_0000,
        d.votes.pairs().len() < 0x1_0000_0000,
        d.allocations.pairs().len() < 0x1_0000_0000,
        d.timelocks.pairs().len() < 0x1_0000_0000,
        forall|i: int|
            0 <= i < d.proposals.pairs().len() ==> (#[trigger] d.proposals.pairs()[i]).1.id
                == d.proposals.pairs()[i].0,
        forall|i: int|
            0 <= i < d.proposals.pairs().len() ==> proposal_fits(
                (#[trigger] d.proposals.pairs()[i]).1@,
            ),
        forall|i: int|
            0 <= i < d.votes.pairs().len() ==> utf8((#[trigger] d.votes.pairs()[i]).0.1).len()
                < 0x1_0000_0000,
        forall|i: int|
            0 <= i < d.allocations.pairs().len() ==> utf8(
                (#[trigger] d.allocations.pairs()[i]).0,
            ).len() < 0x1_0000_0000,
{
    let pp = d.proposals.pairs();
    let vp = d.votes.pairs();
    let ap = d.allocations.pairs();
    d.proposals.lemma_len();
    d.votes.lemma_len();
    d.allocations.lemma_len();
    d.timelocks.lemma_len();
    assert forall|i: int| 0 <= i < pp.len() implies (#[trigger] pp[i]).1.id == pp[i].0
        && proposal_fits(pp[i].1@) by {
        d.proposals.lemma_entry(i);
    }
    assert forall|i: int| 0 <= i < vp.len() implies utf8((#[trigger] vp[i]).0.1).len()
        < 0x1_0000_0000 by {
        d.votes.lemma_entry(i);
    }
    assert forall|i: int| 0 <= i < ap.len() implies utf8((#[trigger] ap[i]).0).len()
        < 0x1_0000_0000 by {
        d.allocations.lemma_entry(i);
    }
}

pub proof fn lemma_snapshot_roundtrip(d: DaoState)
    requires
        d.wf(),
        d.fits(),
    ensures
        dao_parse(d.encoding()) == Ok::<DaoModel, Seq<char>>(d@),
{
    lemma_snapshot_then(d, Seq::empty());
    assert(d.encoding() + Seq::<u8>::empty() =~= d.encoding());
}

/// A snapshot followed by more bytes is refused as trailing: decoding accepts a
/// snapshot's encoding only as the whole input.
pub proof fn law_snapshot_trailing_refused(d: DaoState, t: Seq<u8>)
    requires
        d.wf(),
        d.fits(),
        t.len() > 0,
    ensures
        dao_parse(d.encoding() + t) == Err::<DaoModel, Seq<char>>("trailing DAO snapshot"@),
{
    lemma_snapshot_then(d, t);
}

/// Parsing a snapshot's encoding followed by `t` reads every section of it back,
/// and ends at the snapshot's end.
proof fn lemma_snapshot_then(d: DaoState, t: Seq<u8>)
    requires
        d.wf(),
        d.fits(),
    ensures
        dao_parse(d.encoding() + t) == (if t.len() == 0 {
            Ok::<DaoModel, Seq<char>>(d@)
        } else {
            Err::<DaoModel, Seq<char>>("trailing DAO snapshot"@)
        }),
{
    lemma_snapshot_sections(d, t);
}

/// Each section of a snapshot's encoding reads back where the encoding stands at the
/// start of the input, the last one ending where the encoding ends.
#[verifier::spinoff_prover]
#[verifier::rlimit(100)]
proof fn lemma_snapshot_sections(d: DaoState, t: Seq<u8>)
    requires
        d.wf(),
        d.fits(),
    ensures
        ({
            let b = d.encoding() + t;
            let pp = d.proposals.pairs();
            let vp = d.votes.pairs();
            let ap = d.allocations.pairs();
            let p3: int = dao_magic().len() as int + 18;
            let p5: int = p3 + 4 + proposals_bytes(pp).len();
            let p7: int = p5 + 4 + votes_bytes(vp).len();
            let p9: int = p7 + 4 + allocations_bytes(ap).len();
            &&& dao_magic().len() <= b.len() && b.subrange(0, dao_magic().len() as int) == dao_magic()
            &&& b.len() == d.encoding().len() + t.len()
            &&& rd_params(b) == Ok::<(u64, u16, u64, int), Seq<char>>(
                (d.quorum, d.approval_bps, d.treasury, p3),
            )
            &&& rd_proposal_section(b, p3) == Ok::<(Map<u64, ProposalModel>, int), Seq<char>>(
                (d@.proposals, p5),
            )
            &&& rd_vote_section(b, p5) == Ok::<(Map<(u64, Seq<char>), (u8, u64)>, int), Seq<char>>(
                (d@.votes, p7),
            )
            &&& rd_allocation_section(b, p7) == Ok::<(Map<Seq<char>, u64>, int), Seq<char>>(
                (d@.allocations, p9),
            )
            &&& rd_timelock_section(b, p9) == Ok::<(Map<u64, u64>, int), Seq<char>>(
                (d@.timelocks, d.encoding().len() as int),
            )
        }),
{
    broadcast use crate::codec::lemma_be_length;

    let pp = d.proposals.pairs();
    let vp = d.votes.pairs();
    let ap = d.allocations.pairs();
    let tp = d.timelocks.pairs();
    lemma_snapshot_pairs(d);
    assert(pp.take(pp.len() as int) =~= pp);
    assert(vp.take(vp.len() as int) =~= vp);
    assert(ap.take(ap.len() as int) =~= ap);
    assert(tp.take(tp.len() as int) =~= tp);
    let enc = d.encoding();
    let b = enc + t;
    let e0 = dao_magic();
    let e1 = e0 + be64(d.quorum);
    let e2 = e1 + be16(d.approval_bps);
    let e3 = e2 + be64(d.treasury);
    let e4 = e3 + len_prefix(pp.len());
    let e5 = e4 + proposals_bytes(pp);
    let e6 = e5 + len_prefix(vp.len());
    let e7 = e6 + votes_bytes(vp);
    let e8 = e7 + len_prefix(ap.len());
    let e9 = e8 + allocations_bytes(ap);
    let e10 = e9 + len_prefix(tp.len());
    assert(e10 + timelocks_bytes(tp) == enc);
    assert(holds_at(b, 0, enc)) by {
        reveal(holds_at);
        assert(b.subrange(0, enc.len() as int) =~= enc);
    }
    lemma_holds_at_split(b, 0, e10, timelocks_bytes(tp));
    lemma_holds_at_split(b, 0, e9, len_prefix(tp.len()));
    lemma_holds_at_split(b, 0, e8, allocations_bytes(ap));
    lemma_holds_at_split(b, 0, e7, len_prefix(ap.len()));
    lemma_holds_at_split(b, 0, e6, votes_bytes(vp));
    lemma_holds_at_split(b, 0, e5, len_prefix(vp.len()));
    lemma_holds_at_split(b, 0, e4, proposals_bytes(pp));
    lemma_holds_at_split(b, 0, e3, len_prefix(pp.len()));
    lemma_holds_at_split(b, 0, e2, be64(d.treasury));
    lemma_holds_at_split(b, 0, e1, be16(d.approval_bps));
    lemma_holds_at_split(b, 0, e0, be64(d.quorum));
    crate::codec::lemma_holds_at_start(b, e0);
    assert(rd_params(b) == Ok::<(u64, u16, u64, int), Seq<char>>(
        (d.quorum, d.approval_bps, d.treasury, e3.len() as int),
    )) by {
        lemma_rd64_at(b, e0.len() as int, d.quorum);
        lemma_rd16_at(b, e1.len() as int, d.approval_bps);
        lemma_rd64_at(b, e2.len() as int, d.treasury);
    }
    assert(rd_proposal_section(b, e3.len() as int) == Ok::<
        (Map<u64, ProposalModel>, int),
        Seq<char>,
    >((d@.proposals, e5.len() as int))) by {
        lemma_rd_count_at(b, e3.len() as int, pp.len());
        lemma_rd_proposals_at(b, e4.len() as int, pp, pp.len());
    }
    assert(rd_vote_section(b, e5.len() as int) == Ok::<
        (Map<(u64, Seq<char>), (u8, u64)>, int),
        Seq<char>,
    >((d@.votes, e7.len() as int))) by {
        lemma_rd_count_at(b, e5.len() as int, vp.len());
        lemma_rd_votes_at(b, e6.len() as int, vp, vp.len());
    }
    assert(rd_allocation_section(b, e7.len() as int) == Ok::<
        (Map<Seq<char>, u64>, int),
        Seq<char>,
    >((d@.allocations, e9.len() as int))) by {
        lemma_rd_count_at(b, e7.len() as int, ap.len());
        lemma_rd_allocations_at(b, e8.len() as int, ap, ap.len());
    }
    assert(rd_timelock_section(b, e9.len() as int) == Ok::<(Map<u64, u64>, int), Seq<char>>(
        (d@.timelocks, enc.len() as int),
    )) by {
        lemma_rd_count_at(b, e9.len() as int, tp.len());
        lemma_rd_timelocks_at(b, e10.len() as int, tp, tp.len());
    }
    assert(b.len() == enc.len() + t.len());
    assert(dao_magic().len() <= b.len() && b.subrange(0, dao_magic().len() as int) == dao_magic());
}

} // verus!
