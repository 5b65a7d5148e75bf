//! Monetary-policy binding: the halving schedule in 18-decimal base units.
use vstd::prelude::*;

verus! {

pub const MAX_SUPPLY_ATC: u64 = 360_000_000;

pub const TARGET_BLOCK_TIME_SECS: u64 = 360;

pub const HALVING_INTERVAL_BLOCKS: u64 = 360_000;

pub const HALVING_COUNT: u32 = 36;

pub const INITIAL_SUBSIDY_ATC: u64 = 500;

pub const FINAL_EMISSION_BLOCK: u64 = 12_959_999;

pub const POST_HALVING_BLOCK: u64 = 12_960_000;

/// Base units in one whole ATC.
pub const BASE_UNITS_PER_ATC: u128 = 1_000_000_000_000_000_000;

/// Halving epoch of a height, saturating at the number of halvings.
pub open spec fn spec_halving_epoch(height: u64) -> u32 {
    if height / HALVING_INTERVAL_BLOCKS >= HALVING_COUNT as u64 {
        HALVING_COUNT
    } else {
        (height / HALVING_INTERVAL_BLOCKS) as u32
    }
}

/// Subsidy of a height in base units: the initial subsidy halved once per epoch,
/// zero from the last epoch on.
pub open spec fn spec_raw_subsidy(height: u64) -> u128 {
    let epoch = spec_halving_epoch(height);
    if epoch >= HALVING_COUNT {
        0
    } else {
        ((INITIAL_SUBSIDY_ATC as u128 * BASE_UNITS_PER_ATC) as nat / vstd::arithmetic::power2::pow2(
            epoch as nat,
        )) as u128
    }
}

pub fn halving_epoch(height: u64) -> (e: u32)
    ensures
        e == spec_halving_epoch(height),
        e <= HALVING_COUNT,
{
    let epoch = height / HALVING_INTERVAL_BLOCKS;
    if epoch >= HALVING_COUNT as u64 {
        HALVING_COUNT
    } else {
        epoch as u32
    }
}

pub fn raw_subsidy_atc(height: u64) -> (s: u128)
    ensures
        s == spec_raw_subsidy(height),
        s <= INITIAL_SUBSIDY_ATC as u128 * BASE_UNITS_PER_ATC,
{
    let epoch = halving_epoch(height);
    if epoch >= HALVING_COUNT {
        return 0;
    }
    let base: u128 = (INITIAL_SUBSIDY_ATC as u128) * 1_000_000_000_000_000_000u128;
    proof {
        vstd::bits::lemma_u128_shr_is_div(base, epoch as u128);
        vstd::arithmetic::power2::lemma_pow2_pos(epoch as nat);
        vstd::arithmetic::div_mod::lemma_div_is_ordered_by_denominator(
            base as int,
            1,
            vstd::arithmetic::power2::pow2(epoch as nat) as int,
        );
    }
    base >> (epoch as u128)
}


/// No height's subsidy passes the initial subsidy.
pub proof fn lemma_raw_subsidy_bounded(height: u64)
    ensures
        spec_raw_subsidy(height) <= INITIAL_SUBSIDY_ATC as u128 * BASE_UNITS_PER_ATC,
{
    let epoch = spec_halving_epoch(height);
    if epoch < HALVING_COUNT {
        vstd::arithmetic::power2::lemma_pow2_pos(epoch as nat);
        vstd::arithmetic::div_mod::lemma_div_is_ordered_by_denominator(
            (INITIAL_SUBSIDY_ATC as u128 * BASE_UNITS_PER_ATC) as int,
            1,
            vstd::arithmetic::power2::pow2(epoch as nat) as int,
        );
    }
}

/// The subsidy schedule: every height of the first interval earns the full initial
/// subsidy, each further interval halves it (rounding down), and from the last
/// halving on nothing is paid.
pub proof fn law_subsidy_halves_each_interval(h: u64)
    ensures
        h < HALVING_INTERVAL_BLOCKS ==> spec_raw_subsidy(h) == INITIAL_SUBSIDY_ATC as u128
            * BASE_UNITS_PER_ATC,
        h as int + HALVING_INTERVAL_BLOCKS <= u64::MAX && h / HALVING_INTERVAL_BLOCKS + 1
            < HALVING_COUNT ==> spec_raw_subsidy((h + HALVING_INTERVAL_BLOCKS) as u64)
            == spec_raw_subsidy(h) / 2,
        h / HALVING_INTERVAL_BLOCKS >= HALVING_COUNT ==> spec_raw_subsidy(h) == 0,
{
    let x = (INITIAL_SUBSIDY_ATC as u128 * BASE_UNITS_PER_ATC) as int;
    if h < HALVING_INTERVAL_BLOCKS {
        assert(h / HALVING_INTERVAL_BLOCKS == 0);
        vstd::arithmetic::power2::lemma2_to64();
    }
    if h as int + HALVING_INTERVAL_BLOCKS <= u64::MAX && h / HALVING_INTERVAL_BLOCKS + 1
        < HALVING_COUNT {
        let i = HALVING_INTERVAL_BLOCKS as int;
        let e = (h / HALVING_INTERVAL_BLOCKS) as nat;
        vstd::arithmetic::div_mod::lemma_div_plus_one(h as int, i);
        assert((h + HALVING_INTERVAL_BLOCKS) as u64 / HALVING_INTERVAL_BLOCKS == e + 1);
        vstd::arithmetic::power2::lemma_pow2_pos(e);
        vstd::arithmetic::power2::lemma_pow2_unfold(e + 1);
        vstd::arithmetic::div_mod::lemma_div_denominator(
            x,
            vstd::arithmetic::power2::pow2(e) as int,
            2,
        );
        assert(vstd::arithmetic::power2::pow2(e) as int * 2 == vstd::arithmetic::power2::pow2(e + 1));
        vstd::arithmetic::div_mod::lemma_div_is_ordered_by_denominator(
            x,
            1,
            vstd::arithmetic::power2::pow2(e) as int,
        );
        vstd::arithmetic::div_mod::lemma_div_is_ordered_by_denominator(
            x,
            1,
            vstd::arithmetic::power2::pow2(e + 1) as int,
        );
    }
}

} // verus!
