//! Fixed-point arithmetic: every probability, strategy weight and utility in
//! this crate is an `i64` holding a multiple of `1 / SCALE`, so `SCALE`
//! stands for the real number one. Division always rounds toward negative
//! infinity (floor), which keeps the executable code in lock-step with the
//! spec-level model (`fdiv`).

use vstd::prelude::*;
use vstd::arithmetic::div_mod::lemma_div_is_ordered;
use vstd::arithmetic::div_mod::lemma_div_multiples_vanish;
use vstd::arithmetic::div_mod::lemma_hoist_over_denominator;

verus! {

/// The fixed-point unit: this value stands for probability (or utility) 1.
/// It is divisible by 6 (the chance weights) and by 1000 (the reporting
/// threshold), so those derived constants are exact.
pub const SCALE: i64 = 6_000_000;

/// Probability 1/2: the uniform strategy over the two actions.
pub const HALF: i64 = 3_000_000;

/// Probability 1/6: the weight of each of the six ordered card deals.
pub const CHANCE_PR: i64 = 1_000_000;

/// Reporting threshold 0.001: average-strategy entries below it are snapped
/// to zero as noise suppression.
pub const THRESH: i64 = 6_000;

/// The largest iteration count the driver accepts; the accumulator bounds
/// below are sized so that `MAX_ITERS` full iterations can never overflow.
pub const MAX_ITERS: u64 = 10_000_000;

/// `MAX_ITERS` as an `i64`, for the bound constants below.
pub const ITER_CAP: i64 = 10_000_000;

/// One full traversal performs at most 84 accumulator increments (6 deals
/// times at most 14 under each deal), and each moves a regret entry by at
/// most `4 * SCALE`; this bound therefore holds over `MAX_ITERS` whole
/// iterations plus one more traversal's worth of headroom.
pub const REG_LIMIT: i64 = 20_160_002_016_000_000;

/// Reach probability accumulated within a single traversal grows by at most
/// `SCALE` per increment (at most 84 of them) and is reset after every
/// iteration, so one more traversal's worth of headroom suffices.
pub const REACH_LIMIT: i64 = 510_000_000;

/// Bound on `strategy_sum` and `reach_pr_sum` over a whole run: both grow by
/// at most one traversal's reach (at most `84 * SCALE`) per iteration.
pub const SUM_LIMIT: i64 = 5_100_000_510_000_000;

/// Floor division: for a positive divisor, `a / b` on `int` rounds toward
/// negative infinity. All fixed-point division in this crate means this.
pub open spec fn fdiv(a: int, b: int) -> int {
    a / b
}

/// The positive part of a regret value, as used by regret matching.
pub open spec fn pos(x: int) -> int {
    if x > 0 {
        x
    } else {
        0
    }
}

/// For a positive divisor, the floor quotient lies between `lo` and `hi`
/// whenever the dividend lies between `lo * d` and `hi * d`.
pub proof fn lemma_fdiv_range(x: int, d: int, lo: int, hi: int)
    requires
        d > 0,
        lo * d <= x,
        x <= hi * d,
    ensures
        lo <= fdiv(x, d) <= hi,
{
    lemma_div_is_ordered(lo * d, x, d);
    lemma_div_is_ordered(x, hi * d, d);
    assert((lo * d) / d == lo) by {
        lemma_div_multiples_vanish(lo, d);
        assert(lo * d == d * lo) by (nonlinear_arith);
    }
    assert((hi * d) / d == hi) by {
        lemma_div_multiples_vanish(hi, d);
        assert(hi * d == d * hi) by (nonlinear_arith);
    }
}

/// Floor-divide `x` by the positive divisor `d`, with `qb` a caller-supplied
/// bound on the quotient's magnitude. The signed floor division is carried
/// out as one unsigned division after shifting by `qb * d`.
pub fn fdiv_exec(x: i64, d: i64, qb: i64) -> (r: i64)
    requires
        0 < d,
        0 < qb,
        qb * d <= 0x1000_0000_0000_0000,
        -(qb * d) <= x && x <= qb * d,
    ensures
        r == fdiv(x as int, d as int),
        -qb <= r && r <= qb,
{
    proof {
        assert(-(qb as int) * (d as int) == -((qb as int) * (d as int))) by (nonlinear_arith);
        lemma_fdiv_range(x as int, d as int, -(qb as int), qb as int);
        lemma_hoist_over_denominator(x as int, qb as int, d as nat);
    }
    let shifted: i64 = x + qb * d;
    let q: u64 = (shifted as u64) / (d as u64);
    (q as i64) - qb
}

/// The share of `total` that `num` is, in fixed-point units:
/// `num * SCALE / total`, rounded down. Used to normalize a nonnegative
/// vector into a probability distribution.
pub fn norm_part(num: i64, total: i64) -> (r: i64)
    requires
        0 < total,
        0 <= num && num <= total,
    ensures
        r == fdiv(num * (SCALE as int), total as int),
        0 <= r && r <= SCALE,
{
    proof {
        assert(0 <= num * (SCALE as int) && num * (SCALE as int) <= (SCALE as int) * (total as int))
            by (nonlinear_arith)
            requires
                0 <= num && num <= total,
        ;
        lemma_fdiv_range(num * (SCALE as int), total as int, 0, SCALE as int);
    }
    let p: u128 = (num as u128) * (SCALE as u128);
    let q: u128 = p / (total as u128);
    q as i64
}

/// The product of two probabilities, in fixed-point units: `a * b / SCALE`,
/// rounded down.
pub fn mul_prob(a: i64, b: i64) -> (r: i64)
    requires
        0 <= a && a <= SCALE,
        0 <= b && b <= SCALE,
    ensures
        r == fdiv(a * b, SCALE as int),
        0 <= r && r <= SCALE,
{
    proof {
        assert(0 <= a * b && a * b <= (SCALE as int) * (SCALE as int)) by (nonlinear_arith)
            requires
                0 <= a && a <= SCALE,
                0 <= b && b <= SCALE,
        ;
        lemma_fdiv_range(a * b, SCALE as int, 0, SCALE as int);
    }
    fdiv_exec(a * b, SCALE, SCALE)
}

} // verus!
