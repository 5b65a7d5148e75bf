//! Canonical L1 monetary and timing invariants.
use vstd::prelude::*;

verus! {

/// Native coin symbol.
pub const NATIVE_COIN_SYMBOL: &'static str = "ATC";

/// Maximum lifetime supply, in whole ATC.
pub const MAX_ATC_SUPPLY: u64 = 360_000_000;

/// Consensus block interval.
pub const BLOCK_TIME_SECONDS: u64 = 360;

/// Number of blocks between halving events.
pub const HALVING_INTERVAL_BLOCKS: u64 = 360_000;

/// Number of halving events in the emission schedule.
pub const HALVING_EVENTS: u64 = 36;

/// Post-genesis minting happens only through the block-reward path.
pub const POST_GENESIS_MINT_ALLOWED: bool = true;

/// Initial block reward in whole ATC.
pub const INITIAL_BLOCK_REWARD_ATC: u64 = 500;

/// Base units in one whole ATC.
pub const ATC_BASE_UNITS: u128 = 1_000_000_000_000_000_000;

/// Maximum lifetime supply in base units.
pub const MAX_SUPPLY: u128 = 360_000_000_000_000_000_000_000_000;

/// Whole-ATC reward of a height: nothing at genesis, the initial reward halved once
/// per elapsed interval, nothing after the last halving.
pub open spec fn spec_block_reward(height: u64) -> u64 {
    if height == 0 {
        0
    } else if (height - 1) / (HALVING_INTERVAL_BLOCKS as int) >= HALVING_EVENTS {
        0
    } else {
        (INITIAL_BLOCK_REWARD_ATC as nat / vstd::arithmetic::power2::pow2(
            ((height - 1) / (HALVING_INTERVAL_BLOCKS as int)) as nat,
        )) as u64
    }
}

/// Integer block reward for a height.
pub fn block_reward_at_height(height: u64) -> (r: u64)
    ensures
        r == spec_block_reward(height),
        r <= INITIAL_BLOCK_REWARD_ATC,
{
    if height == 0 {
        return 0;
    }
    let era = (height - 1) / HALVING_INTERVAL_BLOCKS;
    if era >= HALVING_EVENTS {
        return 0;
    }
    proof {
        vstd::bits::lemma_u64_shr_is_div(INITIAL_BLOCK_REWARD_ATC, era);
        vstd::arithmetic::power2::lemma_pow2_pos(era as nat);
        vstd::arithmetic::div_mod::lemma_div_is_ordered_by_denominator(
            INITIAL_BLOCK_REWARD_ATC as int,
            1,
            vstd::arithmetic::power2::pow2(era as nat) as int,
        );
    }
    INITIAL_BLOCK_REWARD_ATC >> era
}

/// Base-unit reward of a height: the scheduled subsidy, cut to what the supply cap
/// still allows after `issued` base units.
pub open spec fn spec_block_reward_base_units(height: u64, issued: u128) -> u128 {
    let raw = crate::monetary::spec_raw_subsidy(height);
    let room: u128 = if issued >= MAX_SUPPLY { 0 } else { (MAX_SUPPLY - issued) as u128 };
    if raw < room { raw } else { room }
}

pub fn block_reward_base_units(height: u64, issued: u128) -> (r: u128)
    ensures
        r == spec_block_reward_base_units(height, issued),
        issued <= MAX_SUPPLY ==> issued + r <= MAX_SUPPLY,
{
    let raw = crate::monetary::raw_subsidy_atc(height);
    let room = MAX_SUPPLY.saturating_sub(issued);
    if raw < room {
        raw
    } else {
        room
    }
}

/// Past genesis, each halving interval pays half the reward of the interval before.
pub proof fn law_reward_halves_each_interval(height: u64)
    requires
        height >= 1,
        height + HALVING_INTERVAL_BLOCKS <= u64::MAX,
        (height - 1) / (HALVING_INTERVAL_BLOCKS as int) + 1 < HALVING_EVENTS,
    ensures
        spec_block_reward((height + HALVING_INTERVAL_BLOCKS) as u64) == spec_block_reward(height)
            / 2,
{
    let e = ((height - 1) / (HALVING_INTERVAL_BLOCKS as int)) as nat;
    assert((height + HALVING_INTERVAL_BLOCKS - 1) / (HALVING_INTERVAL_BLOCKS as int) == e + 1);
    vstd::arithmetic::power2::lemma_pow2_adds(e, 1);
    vstd::arithmetic::power2::lemma2_to64();
    vstd::arithmetic::power2::lemma_pow2_pos(e);
    vstd::arithmetic::div_mod::lemma_div_denominator(
        INITIAL_BLOCK_REWARD_ATC as int,
        vstd::arithmetic::power2::pow2(e) as int,
        2,
    );
}

/// No height is paid more than the initial reward, and nothing is paid from the
/// end of the last halving interval on.
pub proof fn law_reward_bounded_and_terminates(height: u64)
    ensures
        spec_block_reward(height) <= INITIAL_BLOCK_REWARD_ATC,
        height > HALVING_INTERVAL_BLOCKS * HALVING_EVENTS ==> spec_block_reward(height) == 0,
{
    if height > 0 && (height - 1) / (HALVING_INTERVAL_BLOCKS as int) < HALVING_EVENTS {
        let e = ((height - 1) / (HALVING_INTERVAL_BLOCKS as int)) as nat;
        vstd::arithmetic::power2::lemma_pow2_pos(e);
        vstd::arithmetic::div_mod::lemma_div_is_ordered_by_denominator(
            INITIAL_BLOCK_REWARD_ATC as int,
            1,
            vstd::arithmetic::power2::pow2(e) as int,
        );
    }
}

/// Genesis pays nothing and every later height of the first halving interval pays the
/// full initial reward.
pub proof fn law_first_interval_pays_initial_reward(height: u64)
    ensures
        height == 0 ==> spec_block_reward(height) == 0,
        1 <= height <= HALVING_INTERVAL_BLOCKS ==> spec_block_reward(height) == INITIAL_BLOCK_REWARD_ATC,
{
    if 1 <= height <= HALVING_INTERVAL_BLOCKS {
        assert((height - 1) / (HALVING_INTERVAL_BLOCKS as int) == 0);
        vstd::arithmetic::power2::lemma2_to64();
        assert(vstd::arithmetic::power2::pow2(0) == 1);
        assert(INITIAL_BLOCK_REWARD_ATC as nat / vstd::arithmetic::power2::pow2(0) == 500);
    }
}

} // verus!
