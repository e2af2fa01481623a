//! Recovery of homophonic substitution ciphers by stochastic hill climbing.
//!
//! A substitution key maps every cipher symbol to a plaintext symbol; the
//! climber searches the key space for the key whose decoding of a given
//! ciphertext scores best under an n-gram language model.  All scores and
//! probabilities are fixed-point integers in microunits (one unit equals
//! `SCALE` microunits), so the whole search is plain integer arithmetic.

use vstd::prelude::*;

pub mod encoding;
pub mod hill;
pub mod key;
pub mod pre;
mod rng;
pub mod stats;
pub mod util;

verus! {

/// Number of microunits in one whole unit of score or probability.
pub const SCALE: u64 = 1000000;

/// Largest n-gram score the model accepts, in microunits.  Keeping every
/// stored score and the floor below this cap lets a whole buffer be scored
/// in 64-bit arithmetic.
pub const SCORE_CAP: i64 = 1000000000000;

/// Longest buffer the scorer accepts: `LEN_CAP` windows of scores up to
/// `SCORE_CAP` microunits sum comfortably below `i64::MAX`.
pub const LEN_CAP: usize = 1000000;

/// Temperature of the acceptance rule, in whole energy units.
pub const TEMPERATURE: u64 = 3500;

/// Tolerance threshold of the acceptance rule, in microunits.
pub const THRESHOLD: u64 = 8500;

/// Scale applied to a raw buffer score to form an energy, per buffer symbol.
pub const ENERGY_VALUE: i64 = 5000;

/// The energy of a climber that has not yet scored anything: below every
/// real energy.
pub const MIN_ENERGY: i64 = i64::MIN;

/// Tolerance reported for regressions beyond a whole unit: at least one whole
/// unit, so the uniform draw always falls below it.
pub const TOLERANCE_CAP: u64 = 2000000;

/// The tail of the truncated exponential series: the sum of `rounds` further
/// terms, starting from term index `k` with current term `term`, each next
/// term being `term * x / ((k + 1) * SCALE)` in microunits.
pub open spec fn expm1_sum(x: int, term: int, k: nat, rounds: nat) -> int
    decreases rounds,
{
    if rounds == 0 {
        0
    } else {
        term + expm1_sum(x, term * x / ((k + 1) * (SCALE as int)), k + 1, (rounds - 1) as nat)
    }
}

/// The truncated series for `exp(x) - 1` in microunits: twelve terms of
/// `x^k / k!`, each computed with truncating division.
pub open spec fn expm1_approx(x: int) -> int {
    expm1_sum(x, x, 1, 12)
}

/// The tolerance the acceptance rule grants a step from energy `prev` to
/// energy `next`, in microunits: zero for an improvement, the capped
/// truncated series for `exp((prev - next) / TEMPERATURE) - 1` otherwise.
pub open spec fn tolerance_spec(prev: int, next: int) -> int {
    if next > prev {
        0
    } else {
        let x = (prev - next) / (TEMPERATURE as int);
        if x > SCALE {
            TOLERANCE_CAP as int
        } else {
            expm1_approx(x)
        }
    }
}

/// The truncated exponential series for arguments of at most one whole unit.
fn expm1(x: u64) -> (r: u64)
    requires
        x <= SCALE,
    ensures
        r == expm1_approx(x as int),
        r <= 12 * SCALE,
{
    let mut acc: u64 = 0;
    let mut term: u64 = x;
    let mut k: u64 = 1;
    while k <= 12
        invariant
            1 <= k <= 13,
            x <= SCALE,
            term <= SCALE,
            acc <= (k - 1) * SCALE,
            expm1_approx(x as int) == acc + expm1_sum(
                x as int,
                term as int,
                k as nat,
                (13 - k) as nat,
            ),
        decreases 13 - k,
    {
        proof {
            assert(term * x <= 1000000000000) by (nonlinear_arith)
                requires
                    term <= 1000000,
                    x <= 1000000,
            ;
            vstd::arithmetic::div_mod::lemma_div_is_ordered_by_denominator(
                (term * x) as int,
                2000000,
                ((k + 1) * 1000000) as int,
            );
            vstd::arithmetic::div_mod::lemma_div_is_ordered(
                (term * x) as int,
                1000000000000,
                2000000,
            );
        }
        acc = acc + term;
        term = term * x / ((k + 1) * SCALE);
        k = k + 1;
    }
    acc
}

/// The tolerance the acceptance rule grants a step from energy `prev` to
/// `next`.
pub fn lavy_tolerance(prev: i64, next: i64) -> (r: u64)
    ensures
        r == tolerance_spec(prev as int, next as int),
{
    if next > prev {
        return 0;
    }
    let d: i128 = prev as i128 - next as i128;
    let bound: i128 = (TEMPERATURE as i128) * ((SCALE + 1) as i128);
    if d >= bound {
        proof {
            vstd::arithmetic::div_mod::lemma_div_is_ordered(
                bound as int,
                d as int,
                TEMPERATURE as int,
            );
            assert((bound as int) / (TEMPERATURE as int) == SCALE + 1) by (nonlinear_arith)
                requires
                    bound == 3500 * 1000001,
            ;
        }
        return TOLERANCE_CAP;
    }
    let x = (d / (TEMPERATURE as i128)) as u64;
    proof {
        vstd::arithmetic::div_mod::lemma_div_is_ordered(
            d as int,
            bound as int - 1,
            TEMPERATURE as int,
        );
        assert((bound as int - 1) / (TEMPERATURE as int) == SCALE) by (nonlinear_arith)
            requires
                bound == 3500 * 1000001,
        ;
        vstd::arithmetic::div_mod::lemma_div_pos_is_pos(d as int, TEMPERATURE as int);
    }
    expm1(x)
}

/// The acceptance rule: an improvement is always accepted; a regression is
/// accepted only when its tolerance exceeds the threshold and a uniform draw
/// falls below the tolerance.
pub fn lavy_accept(prev: i64, next: i64) -> (r: bool)
    ensures
        next > prev ==> r,
        next <= prev && tolerance_spec(prev as int, next as int) <= THRESHOLD ==> !r,
        r ==> next > prev || tolerance_spec(prev as int, next as int) > THRESHOLD,
{
    if next > prev {
        return true;
    }
    let p = lavy_tolerance(prev, next);
    p > THRESHOLD && util::probability(p)
}

} // verus!
