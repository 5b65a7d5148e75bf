//! On-chain governance: proposals, weighted votes, vote delegation, and a DAO that
//! queues passed proposals behind a timelock before they execute.
use crate::ordmap::{str_equal, OrdMap};
use vstd::prelude::*;

verus! {

// ---------------------------------------------------------------------------
// Proposals
// ---------------------------------------------------------------------------

#[derive(Debug, Clone, Copy, PartialEq, Eq, Structural)]
pub enum ProposalStatus {
    Pending,
    Active,
    Passed,
    Rejected,
    Queued,
    Executed,
    Cancelled,
}

#[derive(Debug, Clone)]
pub struct Proposal {
    pub id: u64,
    pub title: String,
    pub description: String,
    pub proposer: String,
    pub status: ProposalStatus,
    pub for_votes: u64,
    pub against_votes: u64,
    pub abstain_votes: u64,
    pub start_block: u64,
    pub end_block: u64,
}

/// `a + b`, or `u64::MAX` where the sum does not fit.
pub open spec fn sat_add(a: u64, b: u64) -> u64 {
    if a + b > u64::MAX {
        u64::MAX
    } else {
        (a + b) as u64
    }
}

/// `a * b`, or `u64::MAX` where the product does not fit.
pub open spec fn sat_mul(a: u64, b: u64) -> u64 {
    if a * b > u64::MAX {
        u64::MAX
    } else {
        (a * b) as u64
    }
}

/// The status a tally gives an active proposal: rejected below the quorum or with no
/// decided votes; passed where the votes for reach the approval threshold of the
/// decided votes (both products saturating).
pub open spec fn tally_outcome(p: Proposal, quorum: u64, approval_bps: u16) -> ProposalStatus {
    let participation = sat_add(sat_add(p.for_votes, p.against_votes), p.abstain_votes);
    let decided = sat_add(p.for_votes, p.against_votes);
    if participation < quorum {
        ProposalStatus::Rejected
    } else if decided == 0 {
        ProposalStatus::Rejected
    } else if sat_mul(p.for_votes, 10_000) >= sat_mul(decided, approval_bps as u64) {
        ProposalStatus::Passed
    } else {
        ProposalStatus::Rejected
    }
}

/// How a tally decides, in exact arithmetic over the votes for (`f`), against (`a`)
/// and abstaining (`x`): participation `f + a + x`, abstentions included, below the
/// quorum rejects; with quorum met, no decided votes rejects; otherwise the proposal
/// passes exactly when `f * 10000` reaches `(f + a) * approval_bps`, the rejecting
/// direction stated where that threshold fits in a `u64`.
pub proof fn law_tally_decides(p: Proposal, quorum: u64, approval_bps: u16)
    ensures
        ({
            let f = p.for_votes as int;
            let a = p.against_votes as int;
            let x = p.abstain_votes as int;
            let bps = approval_bps as int;
            let out = tally_outcome(p, quorum, approval_bps);
            &&& f + a + x < quorum ==> out == ProposalStatus::Rejected
            &&& f + a + x >= quorum && f + a == 0 ==> out == ProposalStatus::Rejected
            &&& f + a + x >= quorum && f + a > 0 && f * 10000 >= (f + a) * bps ==> out
                == ProposalStatus::Passed
            &&& f + a + x >= quorum && f + a > 0 && f * 10000 < (f + a) * bps && (f + a) * bps
                <= u64::MAX ==> out == ProposalStatus::Rejected
        }),
{
    let f = p.for_votes as int;
    let a = p.against_votes as int;
    let bps = approval_bps as int;
    let d = sat_add(p.for_votes, p.against_votes) as int;
    let m = u64::MAX as int;
    assert(d <= f + a);
    assert(d * bps <= (f + a) * bps) by (nonlinear_arith)
        requires
            d <= f + a,
            0 <= bps,
    ;
    assert(0 <= d * bps) by (nonlinear_arith)
        requires
            0 <= d,
            0 <= bps,
    ;
    assert(0 <= f * 10000) by (nonlinear_arith)
        requires
            0 <= f,
    ;
    if (f + a) * bps <= m && f + a > 0 && f * 10000 < (f + a) * bps {
        if bps == 0 {
            assert((f + a) * bps == 0);
        }
        assert(f + a <= (f + a) * bps) by (nonlinear_arith)
            requires
                f + a > 0,
                bps >= 1,
        ;
    }
}

/// Abstentions count toward the quorum and nowhere else: adding abstaining votes never
/// turns a passing tally into a rejection.
pub proof fn law_abstentions_keep_passing(p: Proposal, extra: u64, quorum: u64, approval_bps: u16)
    requires
        tally_outcome(p, quorum, approval_bps) == ProposalStatus::Passed,
    ensures
        tally_outcome(
            Proposal { abstain_votes: sat_add(p.abstain_votes, extra), ..p },
            quorum,
            approval_bps,
        ) == ProposalStatus::Passed,
{
}

/// A proposal that passes keeps passing when more votes for it are counted: extra
/// support never turns a passing tally into a rejection.
pub proof fn law_more_support_keeps_passing(p: Proposal, extra: u64, quorum: u64, approval_bps: u16)
    requires
        approval_bps <= 10_000,
        tally_outcome(p, quorum, approval_bps) == ProposalStatus::Passed,
    ensures
        tally_outcome(
            Proposal { for_votes: sat_add(p.for_votes, extra), ..p },
            quorum,
            approval_bps,
        ) == ProposalStatus::Passed,
{
    let f = p.for_votes as int;
    let a = p.against_votes as int;
    let b = approval_bps as int;
    let f2 = sat_add(p.for_votes, extra) as int;
    let d = sat_add(p.for_votes, p.against_votes) as int;
    let d2 = sat_add(sat_add(p.for_votes, extra), p.against_votes) as int;
    let m = u64::MAX as int;
    assert(f <= f2);
    assert(d <= d2);
    assert(d2 <= f2 + a);
    if f2 * 10000 <= m {
        assert(f * 10000 <= f2 * 10000) by (nonlinear_arith)
            requires
                f <= f2,
        ;
        assert(sat_mul(p.for_votes, 10_000) == f * 10000);
        assert(sat_mul(sat_add(p.for_votes, extra), 10_000) == f2 * 10000);
        if d * b <= m {
            assert(sat_mul(d as u64, b as u64) == d * b);
            assert(f * 10000 >= d * b);
            if f + a <= m {
                assert(d == f + a);
                assert(f2 * 10000 >= (f2 + a) * b) by (nonlinear_arith)
                    requires
                        f * 10000 >= (f + a) * b,
                        f <= f2,
                        0 <= b <= 10000,
                        0 <= a,
                ;
                assert(d2 * b <= (f2 + a) * b) by (nonlinear_arith)
                    requires
                        d2 <= f2 + a,
                        0 <= b,
                        0 <= d2,
                ;
            } else {
                assert(d == m);
                if b >= 2 {
                    assert(d * b > m) by (nonlinear_arith)
                        requires
                            d == m,
                            b >= 2,
                            m > 0,
                    ;
                }
                assert(d2 * b <= m * b) by (nonlinear_arith)
                    requires
                        d2 <= m,
                        0 <= b,
                ;
            }
        } else {
            assert(sat_mul(d as u64, b as u64) == m);
        }
    }
}

impl Proposal {
    /// A pending proposal with no votes, voting from `start` to `end`.
    pub fn new(id: u64, title: &str, desc: &str, proposer: &str, start: u64, end: u64) -> (p: Self)
        requires
            end > start,
        ensures
            p.id == id && p.title@ == title@ && p.description@ == desc@ && p.proposer@
                == proposer@,
            p.status == ProposalStatus::Pending,
            p.for_votes == 0 && p.against_votes == 0 && p.abstain_votes == 0,
            p.start_block == start && p.end_block == end,
    {
        Proposal {
            id,
            title: title.to_string(),
            description: desc.to_string(),
            proposer: proposer.to_string(),
            status: ProposalStatus::Pending,
            for_votes: 0,
            against_votes: 0,
            abstain_votes: 0,
            start_block: start,
            end_block: end,
        }
    }

    /// Opens voting on a pending proposal once its window has started.
    pub fn activate(&mut self, current_block: u64) -> (r: Result<(), String>)
        ensures
            old(self).status != ProposalStatus::Pending ==> (r matches Err(e) && e@
                == "proposal is not pending"@) && *final(self) == *old(self),
            old(self).status == ProposalStatus::Pending && current_block < old(self).start_block
                ==> (r matches Err(e) && e@ == "voting window has not started"@) && *final(self)
                == *old(self),
            old(self).status == ProposalStatus::Pending && current_block >= old(self).start_block
                ==> r is Ok && *final(self) == (Proposal {
                status: ProposalStatus::Active,
                ..*old(self)
            }),
    {
        if self.status != ProposalStatus::Pending {
            return Err("proposal is not pending".to_string());
        }
        if current_block < self.start_block {
            return Err("voting window has not started".to_string());
        }
        self.status = ProposalStatus::Active;
        Ok(())
    }

    /// Decides an active proposal from its votes.
    pub fn tally(&mut self, quorum: u64, approval_bps: u16) -> (r: Result<(), String>)
        ensures
            old(self).status != ProposalStatus::Active ==> (r matches Err(e) && e@
                == "proposal is not active"@) && *final(self) == *old(self),
            old(self).status == ProposalStatus::Active && approval_bps > 10_000 ==> (r matches Err(
                e,
            ) && e@ == "approval threshold exceeds 10000 bps"@) && *final(self) == *old(self),
            old(self).status == ProposalStatus::Active && approval_bps <= 10_000 ==> r is Ok
                && *final(self) == (Proposal {
                status: tally_outcome(*old(self), quorum, approval_bps),
                ..*old(self)
            }),
    {
        if self.status != ProposalStatus::Active {
            return Err("proposal is not active".to_string());
        }
        if approval_bps > 10_000 {
            return Err("approval threshold exceeds 10000 bps".to_string());
        }
        let participation = self.for_votes.saturating_add(self.against_votes).saturating_add(
            self.abstain_votes,
        );
        if participation < quorum {
            self.status = ProposalStatus::Rejected;
            return Ok(());
        }
        let decided = self.for_votes.saturating_add(self.against_votes);
        if decided == 0 {
            self.status = ProposalStatus::Rejected;
            return Ok(());
        }
        if crate::codec::sat_mul_u64(self.for_votes, 10_000) >= crate::codec::sat_mul_u64(decided, approval_bps as u64) {
            self.status = ProposalStatus::Passed;
        } else {
            self.status = ProposalStatus::Rejected;
        }
        Ok(())
    }

    /// Cancels a proposal that is neither executed nor already cancelled.
    pub fn cancel(&mut self) -> (r: Result<(), String>)
        ensures
            (old(self).status == ProposalStatus::Executed || old(self).status
                == ProposalStatus::Cancelled) ==> (r matches Err(e) && e@
                == "proposal cannot be cancelled"@) && *final(self) == *old(self),
            !(old(self).status == ProposalStatus::Executed || old(self).status
                == ProposalStatus::Cancelled) ==> r is Ok && *final(self) == (Proposal {
                status: ProposalStatus::Cancelled,
                ..*old(self)
            }),
    {
        if self.status == ProposalStatus::Executed || self.status == ProposalStatus::Cancelled {
            return Err("proposal cannot be cancelled".to_string());
        }
        self.status = ProposalStatus::Cancelled;
        Ok(())
    }
}

// ---------------------------------------------------------------------------
// Voting
// ---------------------------------------------------------------------------

#[derive(Debug, Clone, Copy, PartialEq, Eq, Structural)]
pub enum VoteType {
    For,
    Against,
    Abstain,
}

#[derive(Debug, Clone, PartialEq, Eq)]
pub struct Vote {
    pub voter: String,
    pub proposal_id: u64,
    pub vote_type: VoteType,
    pub weight: u64,
}

/// Votes by voter and proposal; a voter votes at most once on a proposal.
pub struct VotingSystem {
    votes: OrdMap<(String, u64), Vote>,
}

/// Sums of the weights for, against and abstaining on a proposal, over votes in order,
/// each sum saturating.
pub open spec fn tally_of(votes: Seq<((Seq<char>, u64), Vote)>, id: u64) -> (u64, u64, u64)
    decreases votes.len(),
{
    if votes.len() == 0 {
        (0, 0, 0)
    } else {
        let (f, a, x) = tally_of(votes.drop_last(), id);
        let v = votes.last().1;
        if v.proposal_id != id {
            (f, a, x)
        } else {
            match v.vote_type {
                VoteType::For => (sat_add(f, v.weight), a, x),
                VoteType::Against => (f, sat_add(a, v.weight), x),
                VoteType::Abstain => (f, a, sat_add(x, v.weight)),
            }
        }
    }
}

/// How many votes are on a proposal.
pub open spec fn count_of(votes: Seq<((Seq<char>, u64), Vote)>, id: u64) -> nat
    decreases votes.len(),
{
    if votes.len() == 0 {
        0
    } else {
        count_of(votes.drop_last(), id) + if votes.last().1.proposal_id == id {
            1nat
        } else {
            0nat
        }
    }
}

/// A tally with one more vote of `weight` of kind `t`, saturating.
pub open spec fn tally_add(tally: (u64, u64, u64), t: VoteType, weight: u64) -> (u64, u64, u64) {
    match t {
        VoteType::For => (sat_add(tally.0, weight), tally.1, tally.2),
        VoteType::Against => (tally.0, sat_add(tally.1, weight), tally.2),
        VoteType::Abstain => (tally.0, tally.1, sat_add(tally.2, weight)),
    }
}

/// `x`, or `u64::MAX` where it does not fit.
pub open spec fn cap64(x: int) -> u64 {
    if x > u64::MAX {
        u64::MAX
    } else {
        x as u64
    }
}

/// What a vote adds to the exact sums of a proposal's tally.
pub open spec fn weight_in(v: Vote, id: u64) -> (int, int, int) {
    if v.proposal_id != id {
        (0, 0, 0)
    } else {
        match v.vote_type {
            VoteType::For => (v.weight as int, 0, 0),
            VoteType::Against => (0, v.weight as int, 0),
            VoteType::Abstain => (0, 0, v.weight as int),
        }
    }
}

/// The exact sums of weights for, against and abstaining on a proposal.
pub open spec fn sums_of(votes: Seq<((Seq<char>, u64), Vote)>, id: u64) -> (int, int, int)
    decreases votes.len(),
{
    if votes.len() == 0 {
        (0, 0, 0)
    } else {
        let s = sums_of(votes.drop_last(), id);
        let w = weight_in(votes.last().1, id);
        (s.0 + w.0, s.1 + w.1, s.2 + w.2)
    }
}

proof fn lemma_tally_caps(votes: Seq<((Seq<char>, u64), Vote)>, id: u64)
    ensures
        ({
            let s = sums_of(votes, id);
            &&& s.0 >= 0 && s.1 >= 0 && s.2 >= 0
            &&& tally_of(votes, id) == (cap64(s.0), cap64(s.1), cap64(s.2))
        }),
    decreases votes.len(),
{
    if votes.len() > 0 {
        lemma_tally_caps(votes.drop_last(), id);
    }
}

proof fn lemma_sums_insert(votes: Seq<((Seq<char>, u64), Vote)>, i: int, e: ((Seq<char>, u64), Vote), id: u64)
    requires
        0 <= i <= votes.len(),
    ensures
        ({
            let s = sums_of(votes, id);
            let w = weight_in(e.1, id);
            sums_of(votes.insert(i, e), id) == (s.0 + w.0, s.1 + w.1, s.2 + w.2)
        }),
        count_of(votes.insert(i, e), id) == count_of(votes, id) + if e.1.proposal_id == id {
            1nat
        } else {
            0nat
        },
    decreases votes.len(),
{
    let n = votes.insert(i, e);
    if i == votes.len() {
        assert(n.drop_last() =~= votes);
    } else {
        lemma_sums_insert(votes.drop_last(), i, e, id);
        assert(n.drop_last() =~= votes.drop_last().insert(i, e));
        assert(n.last() == votes.last());
    }
}

/// Casting a vote adds its weight to its kind in the proposal's tally and one to the
/// proposal's voter count; the tallies and counts of other proposals stay.
proof fn lemma_vote_adds(votes: Seq<((Seq<char>, u64), Vote)>, i: int, e: ((Seq<char>, u64), Vote), id: u64)
    requires
        0 <= i <= votes.len(),
    ensures
        tally_of(votes.insert(i, e), id) == if e.1.proposal_id == id {
            tally_add(tally_of(votes, id), e.1.vote_type, e.1.weight)
        } else {
            tally_of(votes, id)
        },
        count_of(votes.insert(i, e), id) == count_of(votes, id) + if e.1.proposal_id == id {
            1nat
        } else {
            0nat
        },
{
    lemma_sums_insert(votes, i, e, id);
    lemma_tally_caps(votes, id);
    lemma_tally_caps(votes.insert(i, e), id);
}

/// The votes cast so far, as (voter, proposal) keyed by their view.
pub open spec fn vote_map_view(m: Map<(Seq<char>, u64), Vote>) -> Map<(Seq<char>, u64), Vote> {
    m
}

impl VotingSystem {
    pub closed spec fn wf(&self) -> bool {
        &&& self.votes.wf()
        &&& forall|k: (Seq<char>, u64)| #[trigger]
            self.votes@.contains_key(k) ==> self.votes@[k].voter@ == k.0
                && self.votes@[k].proposal_id == k.1
    }

    /// The votes, by voter and proposal.
    pub closed spec fn votes(&self) -> Map<(Seq<char>, u64), Vote> {
        self.votes@
    }

    /// The votes in key order.
    pub closed spec fn vote_list(&self) -> Seq<((Seq<char>, u64), Vote)> {
        self.votes.pairs()
    }

    pub fn new() -> (s: Self)
        ensures
            s.wf(),
            s.votes() == Map::<(Seq<char>, u64), Vote>::empty(),
    {
        VotingSystem { votes: OrdMap::new() }
    }

    /// Records a vote of positive weight; a second vote by the same voter on the same
    /// proposal is refused.
    pub fn cast_vote(&mut self, voter: &str, proposal_id: u64, vote_type: VoteType, weight: u64) -> (r: Result<(), String>)
        requires
            old(self).wf(),
        ensures
            final(self).wf(),
            weight == 0 ==> (r matches Err(e) && e@ == "vote weight must be non-zero"@)
                && final(self).votes() == old(self).votes(),
            weight != 0 && old(self).votes().contains_key((voter@, proposal_id)) ==> (r matches Err(
                e,
            ) && e@ == "Already voted"@) && final(self).votes() == old(self).votes(),
            weight != 0 && !old(self).votes().contains_key((voter@, proposal_id)) ==> r is Ok
                && final(self).votes().dom() == old(self).votes().dom().insert((voter@, proposal_id))
                && final(self).votes() == old(self).votes().insert(
                (voter@, proposal_id),
                final(self).votes()[(voter@, proposal_id)],
            ) && final(self).votes()[(voter@, proposal_id)].voter@ == voter@
                && final(self).votes()[(voter@, proposal_id)].proposal_id == proposal_id
                && final(self).votes()[(voter@, proposal_id)].vote_type == vote_type
                && final(self).votes()[(voter@, proposal_id)].weight == weight
                && (forall|id: u64|
                tally_of(final(self).vote_list(), id) == if id == proposal_id {
                    tally_add(tally_of(old(self).vote_list(), id), vote_type, weight)
                } else {
                    tally_of(old(self).vote_list(), id)
                }) && (forall|id: u64|
                count_of(final(self).vote_list(), id) == count_of(old(self).vote_list(), id) + if id
                    == proposal_id {
                    1nat
                } else {
                    0nat
                }),
    {
        if weight == 0 {
            return Err("vote weight must be non-zero".to_string());
        }
        let k = (voter.to_string(), proposal_id);
        if self.votes.contains_key(&k) {
            return Err("Already voted".to_string());
        }
        let v = Vote { voter: voter.to_string(), proposal_id, vote_type, weight };
        let ghost vv = v;
        self.votes.insert(k, v);
        proof {
            assert(self.votes@.dom() =~= old(self).votes@.dom().insert((voter@, proposal_id)));
            let i = choose|i: int|
                0 <= i <= old(self).votes.pairs().len() && #[trigger] self.votes.pairs()
                    == old(self).votes.pairs().insert(i, ((voter@, proposal_id), vv));
            assert forall|id: u64| true implies tally_of(self.vote_list(), id) == (if id == proposal_id {
                tally_add(tally_of(old(self).vote_list(), id), vote_type, weight)
            } else {
                tally_of(old(self).vote_list(), id)
            }) && count_of(self.vote_list(), id) == count_of(old(self).vote_list(), id) + if id
                == proposal_id {
                1nat
            } else {
                0nat
            } by {
                lemma_vote_adds(old(self).votes.pairs(), i, ((voter@, proposal_id), vv), id);
            }
        }
        Ok(())
    }

    /// The vote of `voter` on a proposal.
    pub fn get_vote(&self, voter: &str, proposal_id: u64) -> (r: Option<&Vote>)
        requires
            self.wf(),
        ensures
            match r {
                Some(v) => self.votes().contains_key((voter@, proposal_id)) && *v == self.votes()[(
                    voter@,
                    proposal_id,
                )],
                None => !self.votes().contains_key((voter@, proposal_id)),
            },
    {
        self.votes.get(&(voter.to_string(), proposal_id))
    }

    /// Weights for, against and abstaining on a proposal.
    pub fn tally(&self, id: u64) -> (r: (u64, u64, u64))
        requires
            self.wf(),
        ensures
            r == tally_of(self.vote_list(), id),
    {
        let n = self.votes.len();
        let mut f: u64 = 0;
        let mut a: u64 = 0;
        let mut x: u64 = 0;
        let mut i: usize = 0;
        let ghost pairs = self.votes.pairs();
        assert(pairs.take(0) =~= Seq::<((Seq<char>, u64), Vote)>::empty());
        while i < n
            invariant
                self.wf(),
                pairs == self.votes.pairs(),
                n == pairs.len(),
                i <= n,
                (f, a, x) == tally_of(pairs.take(i as int), id),
            decreases n - i,
        {
            let v = self.votes.value_at(i);
            proof {
                assert(pairs.take(i + 1).drop_last() =~= pairs.take(i as int));
                assert(pairs.take(i + 1).last() == pairs[i as int]);
            }
            if v.proposal_id == id {
                match v.vote_type {
                    VoteType::For => f = f.saturating_add(v.weight),
                    VoteType::Against => a = a.saturating_add(v.weight),
                    VoteType::Abstain => x = x.saturating_add(v.weight),
                }
            }
            i = i + 1;
        }
        assert(pairs.take(n as int) =~= pairs);
        (f, a, x)
    }

    /// How many voters voted on a proposal.
    pub fn voter_count(&self, id: u64) -> (r: usize)
        requires
            self.wf(),
        ensures
            r == count_of(self.vote_list(), id),
    {
        let n = self.votes.len();
        let mut c: usize = 0;
        let mut i: usize = 0;
        let ghost pairs = self.votes.pairs();
        assert(pairs.take(0) =~= Seq::<((Seq<char>, u64), Vote)>::empty());
        while i < n
            invariant
                self.wf(),
                pairs == self.votes.pairs(),
                n == pairs.len(),
                i <= n,
                c <= i,
                c == count_of(pairs.take(i as int), id),
            decreases n - i,
        {
            let v = self.votes.value_at(i);
            proof {
                assert(pairs.take(i + 1).drop_last() =~= pairs.take(i as int));
                assert(pairs.take(i + 1).last() == pairs[i as int]);
            }
            if v.proposal_id == id {
                c = c + 1;
            }
            i = i + 1;
        }
        assert(pairs.take(n as int) =~= pairs);
        c
    }
}

impl Default for VotingSystem {
    fn default() -> (s: Self)
        ensures
            s.wf(),
            s.votes() == Map::<(Seq<char>, u64), Vote>::empty(),
    {
        VotingSystem::new()
    }
}

// ---------------------------------------------------------------------------
// Delegation
// ---------------------------------------------------------------------------

/// Vote delegations: each voter names at most one delegate.
pub struct Delegation {
    delegations: OrdMap<String, String>,
}

/// Whether following delegations from `cur`, within `k` steps, reaches a voter who
/// delegates to nobody without passing `from`.
pub open spec fn walk_ends(m: Map<Seq<char>, String>, from: Seq<char>, cur: Seq<char>, k: nat) -> bool
    decreases k,
{
    if cur == from {
        false
    } else if !m.contains_key(cur) {
        true
    } else if k == 0 {
        false
    } else {
        walk_ends(m, from, m[cur]@, (k - 1) as nat)
    }
}

/// Where following delegations from `cur` stops: at a voter who delegates to nobody,
/// at a voter met before, or after `k` steps.
pub open spec fn resolve_walk(m: Map<Seq<char>, String>, cur: Seq<char>, seen: Set<Seq<char>>, k: nat) -> Seq<char>
    decreases k,
{
    if !m.contains_key(cur) || seen.contains(cur) || k == 0 {
        cur
    } else {
        resolve_walk(m, m[cur]@, seen.insert(cur), (k - 1) as nat)
    }
}

impl Delegation {
    pub closed spec fn wf(&self) -> bool {
        self.delegations.wf()
    }

    /// Each voter's delegate.
    pub closed spec fn delegates(&self) -> Map<Seq<char>, String> {
        self.delegations@
    }

    pub fn new() -> (d: Self)
        ensures
            d.wf(),
            d.delegates() == Map::<Seq<char>, String>::empty(),
    {
        Delegation { delegations: OrdMap::new() }
    }

    /// Whether delegating from `from` to `to` would close a cycle: following the
    /// delegations from `to` does not end at a voter who delegates to nobody without
    /// passing `from`.
    fn would_create_cycle(&self, from: &str, to: &str) -> (r: bool)
        requires
            self.wf(),
        ensures
            r == !walk_ends(self.delegates(), from@, to@, self.delegates().len()),
    {
        proof {
            self.delegations.lemma_len();
        }
        let mut current = to.to_string();
        let mut k = self.delegations.len();
        while true
            invariant
                self.wf(),
                walk_ends(self.delegates(), from@, current@, k as nat) == walk_ends(
                    self.delegates(),
                    from@,
                    to@,
                    self.delegates().len(),
                ),
            decreases k,
        {
            if str_equal(current.as_str(), from) {
                return true;
            }
            let next = match self.delegations.get(&current) {
                Some(n) => n.clone(),
                None => return false,
            };
            if k == 0 {
                return true;
            }
            current = next;
            k = k - 1;
        }
        true
    }

    /// Delegates `from`'s votes to `to`, unless that is `from` itself or would close a
    /// cycle.
    pub fn delegate(&mut self, from: &str, to: &str) -> (r: Result<(), String>)
        requires
            old(self).wf(),
        ensures
            final(self).wf(),
            from@ == to@ ==> (r matches Err(e) && e@ == "Cannot delegate to self"@)
                && final(self).delegates() == old(self).delegates(),
            from@ != to@ && !walk_ends(old(self).delegates(), from@, to@, old(self).delegates().len())
                ==> (r matches Err(e) && e@ == "Cycle detected"@) && final(self).delegates()
                == old(self).delegates(),
            from@ != to@ && walk_ends(old(self).delegates(), from@, to@, old(self).delegates().len())
                ==> r is Ok && final(self).delegates().dom() == old(self).delegates().dom().insert(
                from@,
            ) && final(self).delegates()[from@]@ == to@ && forall|v: Seq<char>|
                v != from@ && #[trigger] old(self).delegates().contains_key(v)
                    ==> final(self).delegates()[v] == old(self).delegates()[v],
    {
        if str_equal(from, to) {
            return Err("Cannot delegate to self".to_string());
        }
        if self.would_create_cycle(from, to) {
            return Err("Cycle detected".to_string());
        }
        self.delegations.insert(from.to_string(), to.to_string());
        proof {
            assert(self.delegations@.dom() =~= old(self).delegations@.dom().insert(from@));
        }
        Ok(())
    }

    /// Withdraws `from`'s delegation.
    pub fn undelegate(&mut self, from: &str)
        requires
            old(self).wf(),
        ensures
            final(self).wf(),
            final(self).delegates() == old(self).delegates().remove(from@),
    {
        let _ = self.delegations.remove(&from.to_string());
    }

    /// The delegate `from` names.
    pub fn get_delegate(&self, from: &str) -> (r: Option<&String>)
        requires
            self.wf(),
        ensures
            match r {
                Some(d) => self.delegates().contains_key(from@) && *d == self.delegates()[from@],
                None => !self.delegates().contains_key(from@),
            },
    {
        self.delegations.get(&from.to_string())
    }

    /// The voter who finally casts `voter`'s votes: delegations are followed until a
    /// voter who delegates to nobody, or a voter met before.
    pub fn resolve(&self, voter: &str) -> (r: String)
        requires
            self.wf(),
        ensures
            r@ == resolve_walk(self.delegates(), voter@, Set::empty(), self.delegates().len() + 1),
    {
        proof {
            self.delegations.lemma_len();
        }
        let mut current = voter.to_string();
        let mut seen: Vec<String> = Vec::new();
        let mut k: u128 = self.delegations.len() as u128 + 1;
        let ghost mut seen_set: Set<Seq<char>> = Set::empty();
        while true
            invariant
                self.wf(),
                forall|s: Seq<char>| seen_set.contains(s) <==> exists|j: int|
                    0 <= j < seen@.len() && (#[trigger] seen@[j])@ == s,
                resolve_walk(self.delegates(), current@, seen_set, k as nat) == resolve_walk(
                    self.delegates(),
                    voter@,
                    Set::empty(),
                    self.delegates().len() + 1,
                ),
            decreases k,
        {
            let next = match self.delegations.get(&current) {
                Some(n) => n.clone(),
                None => return current,
            };
            let mut j: usize = 0;
            while j < seen.len()
                invariant
                    self.wf(),
                    j <= seen@.len(),
                    forall|i: int| 0 <= i < j ==> (#[trigger] seen@[i])@ != current@,
                    forall|s: Seq<char>| seen_set.contains(s) <==> exists|i: int|
                        0 <= i < seen@.len() && (#[trigger] seen@[i])@ == s,
                    resolve_walk(self.delegates(), current@, seen_set, k as nat) == resolve_walk(
                        self.delegates(),
                        voter@,
                        Set::empty(),
                        self.delegates().len() + 1,
                    ),
                decreases seen@.len() - j,
            {
                if str_equal(seen[j].as_str(), current.as_str()) {
                    assert(seen_set.contains(current@));
                    return current;
                }
                j = j + 1;
            }
            if k == 0 {
                return current;
            }
            let ghost prev = current@;
            let ghost old_seen = seen@;
            seen.push(current.clone());
            proof {
                let old_set = seen_set;
                seen_set = seen_set.insert(prev);
                assert forall|s: Seq<char>| seen_set.contains(s) <==> exists|i: int|
                    0 <= i < seen@.len() && (#[trigger] seen@[i])@ == s by {
                    if s == prev {
                        assert(seen@[seen@.len() - 1]@ == s);
                    }
                    if old_set.contains(s) {
                        let i = choose|i: int| 0 <= i < old_seen.len() && (#[trigger] old_seen[i])@ == s;
                        assert(seen@[i] == old_seen[i]);
                    }
                    if exists|i: int| 0 <= i < seen@.len() && (#[trigger] seen@[i])@ == s {
                        let i = choose|i: int| 0 <= i < seen@.len() && (#[trigger] seen@[i])@ == s;
                        if i < old_seen.len() {
                            assert(old_seen[i] == seen@[i]);
                        }
                    }
                }
            }
            current = next;
            k = k - 1;
        }
        current
    }
}

impl Default for Delegation {
    fn default() -> (d: Self)
        ensures
            d.wf(),
            d.delegates() == Map::<Seq<char>, String>::empty(),
    {
        Delegation::new()
    }
}

// ---------------------------------------------------------------------------
// Timelock and treasury
// ---------------------------------------------------------------------------

/// Passed proposals wait `delay` blocks after they are queued before they execute.
pub struct Timelock {
    delay: u64,
    queued: OrdMap<u64, u64>,
}

impl Timelock {
    pub closed spec fn wf(&self) -> bool {
        self.queued.wf()
    }

    /// Blocks a queued proposal waits.
    pub closed spec fn delay_blocks(&self) -> u64 {
        self.delay
    }

    /// The block from which each queued proposal may execute.
    pub closed spec fn ready_at(&self) -> Map<u64, u64> {
        self.queued@
    }

    pub fn new(delay: u64) -> (t: Self)
        ensures
            t.wf(),
            t.delay_blocks() == delay,
            t.ready_at() == Map::<u64, u64>::empty(),
    {
        Timelock { delay, queued: OrdMap::new() }
    }

    /// Queues a proposal at `block`; it becomes ready `delay` blocks later (the sum
    /// saturating).
    pub fn queue(&mut self, id: u64, block: u64)
        requires
            old(self).wf(),
        ensures
            final(self).wf(),
            final(self).delay_blocks() == old(self).delay_blocks(),
            final(self).ready_at() == old(self).ready_at().insert(id, sat_add(block, old(self).delay_blocks())),
    {
        let at = block.saturating_add(self.delay);
        self.queued.insert(id, at);
    }

    /// Whether a queued proposal may execute at `block`.
    pub fn is_ready(&self, id: u64, block: u64) -> (r: bool)
        requires
            self.wf(),
        ensures
            r == (self.ready_at().contains_key(id) && block >= self.ready_at()[id]),
    {
        match self.queued.get(&id) {
            Some(at) => block >= *at,
            None => false,
        }
    }

    /// Releases a ready proposal from the queue.
    pub fn execute(&mut self, id: u64, block: u64) -> (r: Result<(), String>)
        requires
            old(self).wf(),
        ensures
            final(self).wf(),
            final(self).delay_blocks() == old(self).delay_blocks(),
            !(old(self).ready_at().contains_key(id) && block >= old(self).ready_at()[id]) ==> (r matches Err(e)
                && e@ == "timelock not expired"@) && final(self).ready_at() == old(self).ready_at(),
            (old(self).ready_at().contains_key(id) && block >= old(self).ready_at()[id]) ==> r is Ok
                && final(self).ready_at() == old(self).ready_at().remove(id),
    {
        if !self.is_ready(id, block) {
            return Err("timelock not expired".to_string());
        }
        let _ = self.queued.remove(&id);
        Ok(())
    }
}

/// Funds held by the DAO.
pub struct Treasury {
    pub balance: u64,
}

impl Treasury {
    pub fn new(balance: u64) -> (t: Self)
        ensures
            t.balance == balance,
    {
        Treasury { balance }
    }
}

// ---------------------------------------------------------------------------
// The DAO
// ---------------------------------------------------------------------------

pub struct Dao {
    pub proposals: OrdMap<u64, Proposal>,
    pub voting: VotingSystem,
    pub treasury: Treasury,
    pub timelock: Timelock,
    pub delegation: Delegation,
    pub quorum: u64,
    pub approval_bps: u16,
}

/// A proposal with the votes tallied for it.
pub open spec fn with_votes(p: Proposal, t: (u64, u64, u64)) -> Proposal {
    Proposal { for_votes: t.0, against_votes: t.1, abstain_votes: t.2, ..p }
}

impl Dao {
    pub open spec fn wf(&self) -> bool {
        &&& self.proposals.wf()
        &&& self.voting.wf()
        &&& self.timelock.wf()
        &&& self.delegation.wf()
    }

    /// A DAO with no proposals; the quorum must be positive and the approval threshold
    /// at most 10000 basis points.
    pub fn new(initial_treasury: u64, timelock_blocks: u64, quorum: u64, approval_bps: u16) -> (r: Result<Self, String>)
        ensures
            quorum == 0 ==> (r matches Err(e) && e@ == "quorum must be non-zero"@),
            quorum != 0 && approval_bps > 10_000 ==> (r matches Err(e) && e@
                == "approval threshold exceeds 10000 bps"@),
            quorum != 0 && approval_bps <= 10_000 ==> (r matches Ok(d) && d.wf()
                && d.proposals@ == Map::<u64, Proposal>::empty() && d.voting.votes() == Map::<
                (Seq<char>, u64),
                Vote,
            >::empty() && d.treasury.balance == initial_treasury && d.timelock.delay_blocks()
                == timelock_blocks && d.timelock.ready_at() == Map::<u64, u64>::empty()
                && d.delegation.delegates() == Map::<Seq<char>, String>::empty() && d.quorum
                == quorum && d.approval_bps == approval_bps),
    {
        if quorum == 0 {
            return Err("quorum must be non-zero".to_string());
        }
        if approval_bps > 10_000 {
            return Err("approval threshold exceeds 10000 bps".to_string());
        }
        Ok(
            Dao {
                proposals: OrdMap::new(),
                voting: VotingSystem::new(),
                treasury: Treasury::new(initial_treasury),
                timelock: Timelock::new(timelock_blocks),
                delegation: Delegation::new(),
                quorum,
                approval_bps,
            },
        )
    }

    /// Adds a proposal under a new identifier.
    pub fn create_proposal(&mut self, p: Proposal) -> (r: Result<(), String>)
        requires
            old(self).wf(),
        ensures
            final(self).wf(),
            old(self).proposals@.contains_key(p.id) ==> (r matches Err(e) && e@
                == "proposal id already exists"@) && final(self).proposals@ == old(self).proposals@,
            !old(self).proposals@.contains_key(p.id) ==> r is Ok && final(self).proposals@ == old(self).proposals@.insert(p.id, p),
            final(self).voting.votes() == old(self).voting.votes(),
            final(self).timelock.ready_at() == old(self).timelock.ready_at(),
    {
        if self.proposals.contains_key(&p.id) {
            return Err("proposal id already exists".to_string());
        }
        let id = p.id;
        self.proposals.insert(id, p);
        Ok(())
    }

    /// Opens voting on a proposal.
    pub fn activate(&mut self, id: u64, block: u64) -> (r: Result<(), String>)
        requires
            old(self).wf(),
        ensures
            final(self).wf(),
            final(self).voting.votes() == old(self).voting.votes(),
            final(self).timelock.ready_at() == old(self).timelock.ready_at(),
            !old(self).proposals@.contains_key(id) ==> (r matches Err(e) && e@
                == "proposal not found"@) && final(self).proposals@ == old(self).proposals@,
            old(self).proposals@.contains_key(id) ==> ({
                let p = old(self).proposals@[id];
                &&& p.status != ProposalStatus::Pending ==> (r matches Err(e) && e@
                    == "proposal is not pending"@) && final(self).proposals@ == old(self).proposals@
                &&& p.status == ProposalStatus::Pending && block < p.start_block ==> (r matches Err(
                    e,
                ) && e@ == "voting window has not started"@) && final(self).proposals@ == old(self).proposals@
                &&& p.status == ProposalStatus::Pending && block >= p.start_block ==> r is Ok
                    && final(self).proposals@ == old(self).proposals@.insert(
                    id,
                    Proposal { status: ProposalStatus::Active, ..p },
                )
            }),
    {
        let mut p = match self.proposals.remove(&id) {
            Some(p) => p,
            None => return Err("proposal not found".to_string()),
        };
        let r = p.activate(block);
        self.proposals.insert(id, p);
        proof {
            assert(self.proposals@ =~= old(self).proposals@.insert(id, self.proposals@[id]));
        }
        r
    }

    /// Records a weighted vote on an active proposal.
    pub fn vote(&mut self, id: u64, voter: &str, kind: VoteType, weight: u64) -> (r: Result<(), String>)
        requires
            old(self).wf(),
        ensures
            final(self).wf(),
            final(self).proposals@ == old(self).proposals@,
            final(self).timelock.ready_at() == old(self).timelock.ready_at(),
            !old(self).proposals@.contains_key(id) ==> (r matches Err(e) && e@
                == "proposal not found"@) && final(self).voting.votes() == old(self).voting.votes(),
            old(self).proposals@.contains_key(id) && old(self).proposals@[id].status
                != ProposalStatus::Active ==> (r matches Err(e) && e@ == "proposal is not active"@)
                && final(self).voting.votes() == old(self).voting.votes(),
            old(self).proposals@.contains_key(id) && old(self).proposals@[id].status
                == ProposalStatus::Active ==> ({
                &&& weight == 0 ==> (r matches Err(e) && e@ == "vote weight must be non-zero"@)
                    && final(self).voting.votes() == old(self).voting.votes()
                &&& weight != 0 && old(self).voting.votes().contains_key((voter@, id)) ==> (r matches Err(
                    e,
                ) && e@ == "Already voted"@) && final(self).voting.votes() == old(self).voting.votes()
                &&& weight != 0 && !old(self).voting.votes().contains_key((voter@, id)) ==> r is Ok
                    && final(self).voting.votes().dom() == old(self).voting.votes().dom().insert(
                    (voter@, id),
                ) && final(self).voting.votes() == old(self).voting.votes().insert(
                    (voter@, id),
                    final(self).voting.votes()[(voter@, id)],
                ) && final(self).voting.votes()[(voter@, id)].vote_type == kind && final(self).voting.votes()[(voter@, id)].weight == weight
            }),
    {
        let status = match self.proposals.get(&id) {
            Some(p) => p.status,
            None => return Err("proposal not found".to_string()),
        };
        if status != ProposalStatus::Active {
            return Err("proposal is not active".to_string());
        }
        self.voting.cast_vote(voter, id, kind, weight)
    }

    /// Closes voting on a proposal whose window has ended: its votes are tallied, and a
    /// passed proposal is queued behind the timelock. Gives the proposal's new status.
    pub fn close(&mut self, id: u64, block: u64) -> (r: Result<ProposalStatus, String>)
        requires
            old(self).wf(),
        ensures
            final(self).wf(),
            final(self).voting.votes() == old(self).voting.votes(),
            !old(self).proposals@.contains_key(id) ==> (r matches Err(e) && e@
                == "proposal not found"@) && final(self).proposals@ == old(self).proposals@
                && final(self).timelock.ready_at() == old(self).timelock.ready_at(),
            old(self).proposals@.contains_key(id) && block < old(self).proposals@[id].end_block
                ==> (r matches Err(e) && e@ == "voting window is still open"@) && final(self).proposals@ == old(self).proposals@ && final(self).timelock.ready_at() == old(self).timelock.ready_at(),
            old(self).proposals@.contains_key(id) && block >= old(self).proposals@[id].end_block
                ==> ({
                let p = with_votes(old(self).proposals@[id], tally_of(old(self).voting.vote_list(), id));
                let st = tally_outcome(p, old(self).quorum, old(self).approval_bps);
                &&& p.status != ProposalStatus::Active ==> (r matches Err(e) && e@
                    == "proposal is not active"@) && final(self).proposals@ == old(self).proposals@.insert(id, p)
                    && final(self).timelock.ready_at() == old(self).timelock.ready_at()
                &&& p.status == ProposalStatus::Active && old(self).approval_bps > 10_000 ==> (r matches Err(
                    e,
                ) && e@ == "approval threshold exceeds 10000 bps"@) && final(self).proposals@
                    == old(self).proposals@.insert(id, p) && final(self).timelock.ready_at() == old(self).timelock.ready_at()
                &&& p.status == ProposalStatus::Active && old(self).approval_bps <= 10_000
                    && st == ProposalStatus::Passed ==> r == Ok::<ProposalStatus, String>(
                    ProposalStatus::Queued,
                ) && final(self).proposals@ == old(self).proposals@.insert(
                    id,
                    Proposal { status: ProposalStatus::Queued, ..p },
                ) && final(self).timelock.ready_at() == old(self).timelock.ready_at().insert(
                    id,
                    sat_add(block, old(self).timelock.delay_blocks()),
                )
                &&& p.status == ProposalStatus::Active && old(self).approval_bps <= 10_000
                    && st != ProposalStatus::Passed ==> r == Ok::<ProposalStatus, String>(st)
                    && final(self).proposals@ == old(self).proposals@.insert(
                    id,
                    Proposal { status: st, ..p },
                ) && final(self).timelock.ready_at() == old(self).timelock.ready_at()
            }),
    {
        let mut p = match self.proposals.remove(&id) {
            Some(p) => p,
            None => return Err("proposal not found".to_string()),
        };
        if block < p.end_block {
            self.proposals.insert(id, p);
            proof {
                assert(self.proposals@ =~= old(self).proposals@);
            }
            return Err("voting window is still open".to_string());
        }
        let (f, a, x) = self.voting.tally(id);
        p.for_votes = f;
        p.against_votes = a;
        p.abstain_votes = x;
        match p.tally(self.quorum, self.approval_bps) {
            Ok(()) => {},
            Err(e) => {
                self.proposals.insert(id, p);
                proof {
                    assert(self.proposals@ =~= old(self).proposals@.insert(id, self.proposals@[id]));
                }
                return Err(e);
            },
        }
        if p.status == ProposalStatus::Passed {
            self.timelock.queue(id, block);
            p.status = ProposalStatus::Queued;
        }
        let status = p.status;
        self.proposals.insert(id, p);
        proof {
            assert(self.proposals@ =~= old(self).proposals@.insert(id, self.proposals@[id]));
        }
        Ok(status)
    }

    /// Executes a queued proposal once its timelock has expired.
    pub fn execute(&mut self, id: u64, block: u64) -> (r: Result<(), String>)
        requires
            old(self).wf(),
        ensures
            final(self).wf(),
            final(self).voting.votes() == old(self).voting.votes(),
            !(old(self).timelock.ready_at().contains_key(id) && block >= old(self).timelock.ready_at()[id]) ==> (r matches Err(e) && e@ == "timelock not expired"@)
                && final(self).proposals@ == old(self).proposals@ && final(self).timelock.ready_at()
                == old(self).timelock.ready_at(),
            (old(self).timelock.ready_at().contains_key(id) && block >= old(self).timelock.ready_at()[id]) && !old(self).proposals@.contains_key(id) ==> (r matches Err(
                e,
            ) && e@ == "proposal not found"@) && final(self).proposals@ == old(self).proposals@
                && final(self).timelock.ready_at() == old(self).timelock.ready_at(),
            (old(self).timelock.ready_at().contains_key(id) && block >= old(self).timelock.ready_at()[id]) && old(self).proposals@.contains_key(id) && old(self).proposals@[id].status != ProposalStatus::Queued ==> (r matches Err(e) && e@
                == "proposal is not queued"@) && final(self).proposals@ == old(self).proposals@
                && final(self).timelock.ready_at() == old(self).timelock.ready_at(),
            (old(self).timelock.ready_at().contains_key(id) && block >= old(self).timelock.ready_at()[id]) && old(self).proposals@.contains_key(id) && old(self).proposals@[id].status == ProposalStatus::Queued ==> r is Ok && final(self).proposals@
                == old(self).proposals@.insert(
                id,
                Proposal { status: ProposalStatus::Executed, ..old(self).proposals@[id] },
            ) && final(self).timelock.ready_at() == old(self).timelock.ready_at().remove(id),
    {
        if !self.timelock.is_ready(id, block) {
            return Err("timelock not expired".to_string());
        }
        let status = match self.proposals.get(&id) {
            Some(p) => p.status,
            None => return Err("proposal not found".to_string()),
        };
        if status != ProposalStatus::Queued {
            return Err("proposal is not queued".to_string());
        }
        let _ = self.timelock.execute(id, block);
        let mut p = match self.proposals.remove(&id) {
            Some(p) => p,
            None => return Ok(()),
        };
        p.status = ProposalStatus::Executed;
        self.proposals.insert(id, p);
        Ok(())
    }
}

} // verus!
