//! Reproducible canonical chain genesis configuration.
use crate::economics::{BLOCK_TIME_SECONDS, HALVING_EVENTS, HALVING_INTERVAL_BLOCKS, MAX_ATC_SUPPLY};
use crate::ordmap::{map_of, str_equal, str_lt, OrdMap};
use vstd::prelude::*;

verus! {

pub const PROTOCOL_VERSION: &'static str = "1.0.0";

pub const NETWORK_ID: &'static str = "a-townchain-mainnet";

#[derive(Clone, Debug, PartialEq, Eq)]
pub struct Genesis {
    pub chain_id: u64,
    pub timestamp: u64,
    pub protocol_version: String,
    pub network_id: String,
    pub block_time_seconds: u64,
    pub halving_interval_blocks: u64,
    pub halving_events: u64,
    pub max_supply: u128,
    pub initial_allocations: Vec<(String, u64)>,
}

/// Allocations taken by the characters of their names.
pub open spec fn allocations_view(a: Seq<(String, u64)>) -> Seq<(Seq<char>, u64)> {
    a.map_values(|x: (String, u64)| (x.0@, x.1))
}

/// Each allocated name with the smallest amount allocated to it.
pub open spec fn smallest_allocations(a: Seq<(Seq<char>, u64)>) -> Map<Seq<char>, u64>
    decreases a.len(),
{
    if a.len() == 0 {
        Map::empty()
    } else {
        let m = smallest_allocations(a.drop_last());
        let x = a.last();
        if m.contains_key(x.0) && m[x.0] <= x.1 {
            m
        } else {
            m.insert(x.0, x.1)
        }
    }
}

/// The sum of the allocated amounts.
pub open spec fn allocation_total(a: Seq<(Seq<char>, u64)>) -> int
    decreases a.len(),
{
    if a.len() == 0 {
        0
    } else {
        allocation_total(a.drop_last()) + a.last().1
    }
}

/// Why a genesis configuration is refused, if it is.
pub open spec fn genesis_check(g: Genesis) -> Result<(), Seq<char>> {
    let a = allocations_view(g.initial_allocations@);
    if g.chain_id == 0 {
        Err("chain id must be non-zero"@)
    } else if g.protocol_version@ != PROTOCOL_VERSION@ {
        Err("unsupported protocol version"@)
    } else if g.network_id@ != NETWORK_ID@ {
        Err("unsupported network id"@)
    } else if g.block_time_seconds != BLOCK_TIME_SECONDS {
        Err("invalid block time"@)
    } else if g.halving_interval_blocks != HALVING_INTERVAL_BLOCKS {
        Err("invalid halving interval"@)
    } else if g.halving_events != HALVING_EVENTS {
        Err("invalid halving event count"@)
    } else if g.max_supply != MAX_ATC_SUPPLY {
        Err("invalid maximum supply"@)
    } else if exists|i: int| 0 <= i < a.len() && (#[trigger] a[i]).1 == 0 {
        Err("zero allocation"@)
    } else if allocation_total(a) > u64::MAX {
        Err("genesis allocation overflow"@)
    } else if allocation_total(a) > g.max_supply {
        Err("genesis allocations exceed maximum supply"@)
    } else {
        Ok(())
    }
}

proof fn lemma_total_prefix(a: Seq<(Seq<char>, u64)>, i: int)
    requires
        0 <= i <= a.len(),
    ensures
        allocation_total(a.take(i)) <= allocation_total(a),
        allocation_total(a.take(i)) >= 0,
    decreases a.len(),
{
    if i < a.len() {
        let t = a.drop_last();
        assert(t.take(i) =~= a.take(i));
        lemma_total_prefix(t, i);
    } else {
        assert(a.take(i) =~= a);
        lemma_total_nonneg(a);
    }
}

proof fn lemma_total_nonneg(a: Seq<(Seq<char>, u64)>)
    ensures
        allocation_total(a) >= 0,
    decreases a.len(),
{
    if a.len() > 0 {
        lemma_total_nonneg(a.drop_last());
    }
}

impl Genesis {
    /// The canonical genesis of a chain: the protocol's parameters, and the allocations
    /// sorted by name with one entry per name, the smallest amount given for it.
    pub fn new(chain_id: u64, timestamp: u64, allocations: Vec<(String, u64)>) -> (g: Self)
        ensures
            g.chain_id == chain_id,
            g.timestamp == timestamp,
            g.protocol_version@ == PROTOCOL_VERSION@,
            g.network_id@ == NETWORK_ID@,
            g.block_time_seconds == BLOCK_TIME_SECONDS,
            g.halving_interval_blocks == HALVING_INTERVAL_BLOCKS,
            g.halving_events == HALVING_EVENTS,
            g.max_supply == MAX_ATC_SUPPLY,
            map_of(allocations_view(g.initial_allocations@)) == smallest_allocations(
                allocations_view(allocations@),
            ),
            forall|i: int, j: int|
                0 <= i < j < g.initial_allocations@.len() ==> str_lt(
                    (#[trigger] g.initial_allocations@[i]).0@,
                    (#[trigger] g.initial_allocations@[j]).0@,
                ),
    {
        let ghost av = allocations_view(allocations@);
        let mut smallest: OrdMap<String, u64> = OrdMap::new();
        let mut i: usize = 0;
        assert(av.take(0) =~= Seq::<(Seq<char>, u64)>::empty());
        while i < allocations.len()
            invariant
                av == allocations_view(allocations@),
                i <= allocations@.len(),
                smallest.wf(),
                smallest@ == smallest_allocations(av.take(i as int)),
            decreases allocations@.len() - i,
        {
            let name = &allocations[i].0;
            let amount = allocations[i].1;
            proof {
                assert(av.take(i as int + 1).drop_last() =~= av.take(i as int));
            }
            let keep = match smallest.get(name) {
                Some(v) => *v <= amount,
                None => false,
            };
            if !keep {
                smallest.insert(name.clone(), amount);
            }
            i = i + 1;
        }
        assert(av.take(allocations@.len() as int) =~= av);
        let n = smallest.len();
        let mut out: Vec<(String, u64)> = Vec::new();
        let mut k: usize = 0;
        proof {
            smallest.lemma_wf_sorted();
        }
        while k < n
            invariant
                smallest.wf(),
                smallest.sorted(),
                n == smallest.pairs().len(),
                k <= n,
                out@.len() == k,
                forall|j: int| 0 <= j < k ==> (#[trigger] out@[j]).0@ == smallest.pairs()[j].0
                    && out@[j].1 == smallest.pairs()[j].1,
            decreases n - k,
        {
            out.push((smallest.key_at(k).clone(), *smallest.value_at(k)));
            k = k + 1;
        }
        assert(allocations_view(out@) =~= smallest.pairs());
        Genesis {
            chain_id,
            timestamp,
            protocol_version: PROTOCOL_VERSION.to_string(),
            network_id: NETWORK_ID.to_string(),
            block_time_seconds: BLOCK_TIME_SECONDS,
            halving_interval_blocks: HALVING_INTERVAL_BLOCKS,
            halving_events: HALVING_EVENTS,
            max_supply: MAX_ATC_SUPPLY as u128,
            initial_allocations: out,
        }
    }

    /// Checks the configuration against the protocol's parameters and the supply cap.
    pub fn validate(&self) -> (r: Result<(), String>)
        ensures
            match genesis_check(*self) {
                Ok(_) => r is Ok,
                Err(m) => r matches Err(e) && e@ == m,
            },
    {
        if self.chain_id == 0 {
            return Err("chain id must be non-zero".to_string());
        }
        if !str_equal(self.protocol_version.as_str(), PROTOCOL_VERSION) {
            return Err("unsupported protocol version".to_string());
        }
        if !str_equal(self.network_id.as_str(), NETWORK_ID) {
            return Err("unsupported network id".to_string());
        }
        if self.block_time_seconds != BLOCK_TIME_SECONDS {
            return Err("invalid block time".to_string());
        }
        if self.halving_interval_blocks != HALVING_INTERVAL_BLOCKS {
            return Err("invalid halving interval".to_string());
        }
        if self.halving_events != HALVING_EVENTS {
            return Err("invalid halving event count".to_string());
        }
        if self.max_supply != MAX_ATC_SUPPLY as u128 {
            return Err("invalid maximum supply".to_string());
        }
        let ghost a = allocations_view(self.initial_allocations@);
        let n = self.initial_allocations.len();
        let mut i: usize = 0;
        while i < n
            invariant
                a == allocations_view(self.initial_allocations@),
                n == a.len(),
                self.chain_id != 0,
                self.protocol_version@ == PROTOCOL_VERSION@,
                self.network_id@ == NETWORK_ID@,
                self.block_time_seconds == BLOCK_TIME_SECONDS,
                self.halving_interval_blocks == HALVING_INTERVAL_BLOCKS,
                self.halving_events == HALVING_EVENTS,
                self.max_supply == MAX_ATC_SUPPLY,
                i <= n,
                forall|j: int| 0 <= j < i ==> (#[trigger] a[j]).1 != 0,
            decreases n - i,
        {
            if self.initial_allocations[i].1 == 0 {
                proof {
                    assert(a[i as int].1 == 0);
                }
                return Err("zero allocation".to_string());
            }
            i = i + 1;
        }
        let mut total: u64 = 0;
        let mut j: usize = 0;
        assert(a.take(0) =~= Seq::<(Seq<char>, u64)>::empty());
        while j < n
            invariant
                a == allocations_view(self.initial_allocations@),
                n == a.len(),
                self.chain_id != 0,
                self.protocol_version@ == PROTOCOL_VERSION@,
                self.network_id@ == NETWORK_ID@,
                self.block_time_seconds == BLOCK_TIME_SECONDS,
                self.halving_interval_blocks == HALVING_INTERVAL_BLOCKS,
                self.halving_events == HALVING_EVENTS,
                self.max_supply == MAX_ATC_SUPPLY,
                forall|k: int| 0 <= k < n ==> (#[trigger] a[k]).1 != 0,
                j <= n,
                total == allocation_total(a.take(j as int)),
            decreases n - j,
        {
            proof {
                assert(a.take(j as int + 1).drop_last() =~= a.take(j as int));
                lemma_total_prefix(a, j as int + 1);
            }
            total = match total.checked_add(self.initial_allocations[j].1) {
                Some(t) => t,
                None => return Err("genesis allocation overflow".to_string()),
            };
            j = j + 1;
        }
        assert(a.take(n as int) =~= a);
        if total as u128 > self.max_supply {
            return Err("genesis allocations exceed maximum supply".to_string());
        }
        Ok(())
    }
}

} // verus!
