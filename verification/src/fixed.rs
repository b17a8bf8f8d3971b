//! Fixed-point quantities and the rounded-down quotient they share.

use vstd::prelude::*;
use vstd::arithmetic::div_mod::{lemma_fundamental_div_mod, lemma_fundamental_div_mod_converse};

verus! {

/// The number of units that make up one. A weight of one half is stored as
/// `SCALE / 2`.
pub const SCALE: i64 = 1_000_000_000_000;

/// The largest magnitude that a running statistic may reach.
pub const STAT_LIMIT: i128 = 10_000_000_000_000_000_000_000_000_000_000_000_000;

/// The quotient of two fixed-point quantities, itself in units: `a / w`
/// rounded down, where `numerator` already carries the scale twice.
pub open spec fn quotient(numerator: int, weight: int) -> int {
    numerator / weight
}

/// The largest magnitude of a numerator `accent * SCALE + heterogeneity * random`.
pub const NUMERATOR_LIMIT: i128 = 85_070_600_953_606_652_720_619_459_857_942_052_864;

/// A quotient by a divisor of at least one lies between zero and its numerator.
pub proof fn lemma_quotient_bounds(n: int, d: int)
    requires
        d >= 1,
    ensures
        n >= 0 ==> 0 <= quotient(n, d) <= n,
        n < 0 ==> n <= quotient(n, d) < 0,
{
    lemma_fundamental_div_mod(n, d);
    let q = n / d;
    let r = n % d;
    assert(0 <= r < d);
    if n >= 0 {
        assert(0 <= q <= n) by (nonlinear_arith)
            requires
                n == d * q + r,
                0 <= r < d,
                d >= 1,
                n >= 0,
        ;
    } else {
        assert(n <= q < 0) by (nonlinear_arith)
            requires
                n == d * q + r,
                0 <= r < d,
                d >= 1,
                n < 0,
        ;
    }
}

/// The largest magnitude of a scaled accent `accent * SCALE`.
pub const SCALED_LIMIT: i128 = 9_223_372_036_854_775_808_000_000_000_000;

/// `accent * SCALE` does not exceed [`SCALED_LIMIT`] in magnitude, nor
/// `accent * SCALE + heterogeneity * random` [`NUMERATOR_LIMIT`].
pub proof fn lemma_numerator_bounds(accent: i64, heterogeneity: i64, random: i64)
    ensures
        -SCALED_LIMIT <= accent * SCALE <= SCALED_LIMIT,
        -NUMERATOR_LIMIT <= accent * SCALE + heterogeneity * random <= NUMERATOR_LIMIT,
{
    assert(-0x8000_0000_0000_0000 * 1_000_000_000_000 <= accent * 1_000_000_000_000
        <= 0x8000_0000_0000_0000 * 1_000_000_000_000) by (nonlinear_arith)
        requires
            -0x8000_0000_0000_0000 <= accent <= 0x8000_0000_0000_0000,
    ;
    assert(-0x8000_0000_0000_0000 * 0x8000_0000_0000_0000 <= heterogeneity * random
        <= 0x8000_0000_0000_0000 * 0x8000_0000_0000_0000) by (nonlinear_arith)
        requires
            -0x8000_0000_0000_0000 <= heterogeneity <= 0x8000_0000_0000_0000,
            -0x8000_0000_0000_0000 <= random <= 0x8000_0000_0000_0000,
    ;
}

/// An accent in units of a unit: `accent * SCALE`.
pub fn scaled(accent: i64) -> (n: i128)
    ensures
        n == accent * SCALE,
        -SCALED_LIMIT <= n <= SCALED_LIMIT,
{
    proof {
        lemma_numerator_bounds(accent, 0, 0);
    }
    (accent as i128) * (SCALE as i128)
}

/// The numerator of an expected cost: `accent * SCALE + heterogeneity * random`.
pub fn perturbed(accent: i64, heterogeneity: i64, random: i64) -> (n: i128)
    ensures
        n == accent * SCALE + heterogeneity * random,
        -NUMERATOR_LIMIT <= n <= NUMERATOR_LIMIT,
{
    let base: i128 = scaled(accent);
    proof {
        lemma_numerator_bounds(accent, heterogeneity, random);
    }
    base + (heterogeneity as i128) * (random as i128)
}

/// Rounds the quotient of a signed numerator by a positive divisor down to
/// the next whole number.
pub fn div_floor(n: i128, d: u128) -> (q: i128)
    requires
        d > 0,
    ensures
        q == quotient(n as int, d as int),
        n >= 0 ==> 0 <= q <= n,
        n < 0 ==> n <= q < 0,
{
    proof {
        lemma_quotient_bounds(n as int, d as int);
    }
    if n >= 0 {
        let m: u128 = n as u128;
        let q: u128 = m / d;
        q as i128
    } else {
        let m: u128 = (-(n + 1)) as u128;
        let q: u128 = m / d;
        let r: u128 = m % d;
        proof {
            lemma_fundamental_div_mod(m as int, d as int);
            assert(n as int == (-(q as int) - 1) * (d as int) + (d as int - r as int - 1))
                by (nonlinear_arith)
                requires
                    -(n as int) - 1 == (d as int) * (q as int) + (r as int),
            ;
            lemma_fundamental_div_mod_converse(
                n as int,
                d as int,
                -(q as int) - 1,
                d as int - r as int - 1,
            );
        }
        -1 - (q as i128)
    }
}

} // verus!
