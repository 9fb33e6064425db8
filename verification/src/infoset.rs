//! The information set: the unit of strategic decision making. All game
//! states that look alike to the acting player (same private card, same
//! public history) share one `InfoSet`, which accumulates regret, the
//! current strategy, the running strategy average and reach probabilities.

use vstd::prelude::*;
use crate::fixed::fdiv;
use crate::fixed::fdiv_exec;
use crate::fixed::lemma_fdiv_range;
use crate::fixed::norm_part;
use crate::fixed::pos;
use crate::fixed::HALF;
use crate::fixed::REACH_LIMIT;
use crate::fixed::REG_LIMIT;
use crate::fixed::SCALE;
use crate::fixed::SUM_LIMIT;
use crate::fixed::THRESH;

verus! {

/// One value per action: `c` for check/call, `b` for bet.
#[derive(Clone, Copy, Debug, PartialEq, Eq, Structural)]
pub struct Pair {
    pub c: i64,
    pub b: i64,
}

/// A probability distribution over the two actions: nonnegative entries
/// that sum to exactly one (`SCALE` in fixed-point units).
pub open spec fn valid_strategy(p: Pair) -> bool {
    &&& 0 <= p.c
    &&& 0 <= p.b
    &&& p.c + p.b == SCALE
}

/// One decision point's accumulators. `card` and `hist` form the key:
/// `hist` is the history code from `rules::encode_s`.
#[derive(Clone, Copy, Debug, PartialEq, Eq, Structural)]
pub struct InfoSet {
    pub card: u8,
    pub hist: u64,
    pub regret_sum: Pair,
    pub strategy: Pair,
    pub strategy_sum: Pair,
    pub reach_pr: i64,
    pub reach_pr_sum: i64,
}

/// The structural invariant every information set keeps: the current
/// strategy is a distribution, the reach accumulators are nonnegative, and
/// each strategy-sum entry never outruns the cumulative reach probability
/// (each iteration adds at most `reach_pr` to either).
pub open spec fn iset_ok(x: InfoSet) -> bool {
    &&& valid_strategy(x.strategy)
    &&& 0 <= x.reach_pr
    &&& 0 <= x.strategy_sum.c <= x.reach_pr_sum
    &&& 0 <= x.strategy_sum.b <= x.reach_pr_sum
    &&& x.card < 3
}

/// A freshly created information set: zero accumulators, uniform strategy.
pub open spec fn fresh_s(card: u8, hist: u64) -> InfoSet {
    InfoSet {
        card,
        hist,
        regret_sum: Pair { c: 0, b: 0 },
        strategy: Pair { c: HALF, b: HALF },
        strategy_sum: Pair { c: 0, b: 0 },
        reach_pr: 0,
        reach_pr_sum: 0,
    }
}

/// Regret matching: play each action in proportion to its accumulated
/// positive regret; fall back to the uniform distribution when no regret
/// is positive. The second entry is taken as the exact remainder, so the
/// result always sums to exactly `SCALE`.
pub open spec fn regret_match_s(r: Pair) -> Pair {
    let p0 = pos(r.c as int);
    let p1 = pos(r.b as int);
    if p0 + p1 > 0 {
        Pair {
            c: fdiv(p0 * SCALE, p0 + p1) as i64,
            b: (SCALE - fdiv(p0 * SCALE, p0 + p1)) as i64,
        }
    } else {
        Pair { c: HALF, b: HALF }
    }
}

/// Regret matching always yields a probability distribution, whatever the
/// accumulated regrets: its entries are nonnegative and sum to one.
pub proof fn lemma_regret_match_valid(r: Pair)
    ensures
        valid_strategy(regret_match_s(r)),
{
    let p0 = pos(r.c as int);
    let p1 = pos(r.b as int);
    let t = p0 + p1;
    if t > 0 {
        assert(0 <= p0 * (SCALE as int) && p0 * (SCALE as int) <= (SCALE as int) * t)
            by (nonlinear_arith)
            requires
                0 <= p0 && p0 <= t,
        ;
        lemma_fdiv_range(p0 * (SCALE as int), t, 0, SCALE as int);
    }
}

/// When one action's positive regret is at least the other's, regret
/// matching gives that action at least as much probability: the preferred
/// action (by accumulated regret) always carries the larger share.
pub proof fn lemma_preferred_action_weight(r: Pair)
    requires
        pos(r.c as int) >= pos(r.b as int),
    ensures
        regret_match_s(r).c >= regret_match_s(r).b,
{
    let p0 = pos(r.c as int);
    let p1 = pos(r.b as int);
    let t = p0 + p1;
    if t > 0 {
        lemma_regret_match_valid(r);
        assert((HALF as int) * t <= p0 * (SCALE as int)) by (nonlinear_arith)
            requires
                0 <= p1 <= p0,
                t == p0 + p1,
                HALF == 3_000_000,
                SCALE == 6_000_000,
        ;
        assert(0 <= p0 * (SCALE as int) && p0 * (SCALE as int) <= (SCALE as int) * t)
            by (nonlinear_arith)
            requires
                0 <= p0 && p0 <= t,
        ;
        lemma_fdiv_range(p0 * (SCALE as int), t, HALF as int, SCALE as int);
    }
}

/// The strategy update applied once per completed iteration: fold this
/// iteration's reach-weighted strategy into the average, recompute the
/// strategy by regret matching, accumulate and reset the reach probability.
pub open spec fn advance_s(x: InfoSet) -> InfoSet {
    InfoSet {
        strategy_sum: Pair {
            c: (x.strategy_sum.c + fdiv(x.strategy.c * x.reach_pr, SCALE as int)) as i64,
            b: (x.strategy_sum.b + fdiv(x.strategy.b * x.reach_pr, SCALE as int)) as i64,
        },
        strategy: regret_match_s(x.regret_sum),
        reach_pr: 0,
        reach_pr_sum: (x.reach_pr_sum + x.reach_pr) as i64,
        ..x
    }
}

/// After every strategy update, whatever the accumulators held, the
/// information set's strategy is a probability distribution: nonnegative
/// entries that sum to exactly one.
pub proof fn lemma_update_yields_distribution(x: InfoSet)
    ensures
        valid_strategy(advance_s(x).strategy),
{
    lemma_regret_match_valid(x.regret_sum);
}

/// The time-averaged strategy for reporting: `strategy_sum` divided by the
/// cumulative reach probability, entries below the noise threshold snapped
/// to zero, then renormalized. `None` when the denominator is zero (an
/// information set never reached with positive probability) or when both
/// entries fall under the threshold — the caller decides how to report
/// such a set rather than divide by zero.
pub open spec fn average_strategy_s(x: InfoSet) -> Option<Pair> {
    if x.reach_pr_sum <= 0 {
        None
    } else {
        let a0 = fdiv(x.strategy_sum.c * SCALE, x.reach_pr_sum as int);
        let a1 = fdiv(x.strategy_sum.b * SCALE, x.reach_pr_sum as int);
        let b0 = if a0 < THRESH {
            0int
        } else {
            a0
        };
        let b1 = if a1 < THRESH {
            0int
        } else {
            a1
        };
        if b0 + b1 <= 0 {
            None
        } else {
            Some(
                Pair {
                    c: fdiv(b0 * SCALE, b0 + b1) as i64,
                    b: (SCALE - fdiv(b0 * SCALE, b0 + b1)) as i64,
                },
            )
        }
    }
}

impl InfoSet {
    /// A new information set for the given key, with uniform strategy and
    /// all accumulators at zero.
    pub fn new(card: u8, hist: u64) -> (r: InfoSet)
        requires
            card < 3,
        ensures
            r == fresh_s(card, hist),
            iset_ok(r),
    {
        InfoSet {
            card,
            hist,
            regret_sum: Pair { c: 0, b: 0 },
            strategy: Pair { c: HALF, b: HALF },
            strategy_sum: Pair { c: 0, b: 0 },
            reach_pr: 0,
            reach_pr_sum: 0,
        }
    }

    /// The element-wise positive part of a regret vector.
    pub fn make_positive(x: Pair) -> (r: Pair)
        ensures
            r.c == pos(x.c as int),
            r.b == pos(x.b as int),
    {
        Pair {
            c: if x.c > 0 {
                x.c
            } else {
                0
            },
            b: if x.b > 0 {
                x.b
            } else {
                0
            },
        }
    }

    /// Next iteration's strategy by regret matching over the accumulated
    /// regrets.
    pub fn calc_strategy(&self) -> (r: Pair)
        requires
            -REG_LIMIT <= self.regret_sum.c <= REG_LIMIT,
            -REG_LIMIT <= self.regret_sum.b <= REG_LIMIT,
        ensures
            r == regret_match_s(self.regret_sum),
            valid_strategy(r),
    {
        proof {
            lemma_regret_match_valid(self.regret_sum);
        }
        let p = Self::make_positive(self.regret_sum);
        let total = p.c + p.b;
        if total > 0 {
            let s0 = norm_part(p.c, total);
            Pair { c: s0, b: SCALE - s0 }
        } else {
            Pair { c: HALF, b: HALF }
        }
    }

    /// The per-iteration strategy update (`advance_s`), in place.
    pub fn next_strategy(&mut self)
        requires
            iset_ok(*old(self)),
            -REG_LIMIT <= old(self).regret_sum.c <= REG_LIMIT,
            -REG_LIMIT <= old(self).regret_sum.b <= REG_LIMIT,
            old(self).reach_pr <= REACH_LIMIT,
            old(self).reach_pr_sum <= SUM_LIMIT,
            old(self).strategy_sum.c <= SUM_LIMIT,
            old(self).strategy_sum.b <= SUM_LIMIT,
        ensures
            *final(self) == advance_s(*old(self)),
            iset_ok(*final(self)),
    {
        let reach = self.reach_pr;
        proof {
            assert(0 <= self.strategy.c * reach && self.strategy.c * reach <= (REACH_LIMIT as int)
                * (SCALE as int)) by (nonlinear_arith)
                requires
                    0 <= self.strategy.c <= SCALE,
                    0 <= reach <= REACH_LIMIT,
            ;
            assert(0 <= self.strategy.b * reach && self.strategy.b * reach <= (REACH_LIMIT as int)
                * (SCALE as int)) by (nonlinear_arith)
                requires
                    0 <= self.strategy.b <= SCALE,
                    0 <= reach <= REACH_LIMIT,
            ;
            assert(self.strategy.c * reach <= reach * (SCALE as int)) by (nonlinear_arith)
                requires
                    0 <= self.strategy.c <= SCALE,
                    0 <= reach,
            ;
            assert(self.strategy.b * reach <= reach * (SCALE as int)) by (nonlinear_arith)
                requires
                    0 <= self.strategy.b <= SCALE,
                    0 <= reach,
            ;
            lemma_fdiv_range(self.strategy.c * reach, SCALE as int, 0, reach as int);
            lemma_fdiv_range(self.strategy.b * reach, SCALE as int, 0, reach as int);
        }
        let inc_c = fdiv_exec(self.strategy.c * reach, SCALE, REACH_LIMIT);
        let inc_b = fdiv_exec(self.strategy.b * reach, SCALE, REACH_LIMIT);
        self.strategy_sum = Pair { c: self.strategy_sum.c + inc_c, b: self.strategy_sum.b + inc_b };
        self.strategy = self.calc_strategy();
        self.reach_pr_sum = self.reach_pr_sum + reach;
        self.reach_pr = 0;
    }

    /// The time-averaged strategy (`average_strategy_s`): the reported
    /// equilibrium approximation for this information set.
    pub fn get_average_strategy(&self) -> (r: Option<Pair>)
        requires
            iset_ok(*self),
        ensures
            r == average_strategy_s(*self),
            r matches Some(p) ==> valid_strategy(p),
    {
        if self.reach_pr_sum <= 0 {
            None
        } else {
            let a0 = norm_part(self.strategy_sum.c, self.reach_pr_sum);
            let a1 = norm_part(self.strategy_sum.b, self.reach_pr_sum);
            let b0: i64 = if a0 < THRESH {
                0
            } else {
                a0
            };
            let b1: i64 = if a1 < THRESH {
                0
            } else {
                a1
            };
            if b0 + b1 <= 0 {
                None
            } else {
                let s0 = norm_part(b0, b0 + b1);
                Some(Pair { c: s0, b: SCALE - s0 })
            }
        }
    }
}

} // verus!
