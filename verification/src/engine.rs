//! The CFR traversal engine: a depth-first walk of the whole game tree
//! that accumulates counterfactual reach probabilities, computes per-action
//! regret from hypothetical utilities, and returns the game value from the
//! perspective of the player to act.
//!
//! The executable traversal (`cfr`, `chance_util`) is pinned, store and
//! return value alike, to the spec-level model (`cfr_m`, `chance_m`): the
//! computation is a pure function of the starting store, so a rerun with
//! the same inputs gives identical results.

use vstd::prelude::*;
use crate::fixed::fdiv;
use crate::fixed::fdiv_exec;
use crate::fixed::lemma_fdiv_range;
use crate::fixed::mul_prob;
use crate::fixed::CHANCE_PR;
use crate::fixed::HALF;
use crate::fixed::REACH_LIMIT;
use crate::fixed::REG_LIMIT;
use crate::fixed::SCALE;
use crate::infoset::valid_strategy;
use crate::infoset::InfoSet;
use crate::infoset::Pair;
use crate::rules::encode_s;
use crate::rules::is_decision_s;
use crate::rules::is_node_s;
use crate::rules::is_terminal_s;
use crate::rules::lemma_decision_children;
use crate::rules::lemma_encode_range;
use crate::rules::push_action;
use crate::rules::terminal_util_s;
use crate::rules::valid_card;
use crate::rules::ACT_B;
use crate::rules::ACT_C;
use crate::rules::ACT_R;
use crate::rules::encode_hist;
use crate::rules::is_chance_node;
use crate::rules::is_terminal;
use crate::rules::terminal_util;
use crate::infoset::iset_ok;
use crate::store::same_key;
use crate::store::store_ok;
use crate::store::touch_s;
use crate::store::Store;

verus! {

/// The first card of the `k`-th ordered deal, in the fixed enumeration
/// order (0,1), (0,2), (1,0), (1,2), (2,0), (2,1).
pub open spec fn deal_1(k: int) -> u8 {
    if k < 2 {
        0
    } else if k < 4 {
        1
    } else {
        2
    }
}

/// The second card of the `k`-th ordered deal.
pub open spec fn deal_2(k: int) -> u8 {
    if k == 0 {
        1
    } else if k == 1 {
        2
    } else if k == 2 {
        0
    } else if k == 3 {
        2
    } else if k == 4 {
        0
    } else {
        1
    }
}

/// The first card of the `k`-th ordered deal, executable.
pub fn deal_card_1(k: usize) -> (r: u8)
    requires
        k < 6,
    ensures
        r == deal_1(k as int),
{
    if k < 2 {
        0
    } else if k < 4 {
        1
    } else {
        2
    }
}

/// The second card of the `k`-th ordered deal, executable.
pub fn deal_card_2(k: usize) -> (r: u8)
    requires
        k < 6,
    ensures
        r == deal_2(k as int),
{
    if k == 0 {
        1
    } else if k == 1 {
        2
    } else if k == 2 {
        0
    } else if k == 3 {
        2
    } else if k == 4 {
        0
    } else {
        1
    }
}

/// Chance enumeration completeness: the six deals the root visits are
/// pairwise distinct ordered pairs of distinct valid cards, every such pair
/// occurs, and the six equal chance weights sum to exactly one — the root
/// walks the whole chance distribution, not a sample of it.
pub proof fn lemma_chance_enumeration()
    ensures
        forall|k: int|
            0 <= k < 6 ==> valid_card(#[trigger] deal_1(k)) && valid_card(deal_2(k)) && deal_1(k)
                != deal_2(k),
        forall|k1: int, k2: int|
            0 <= k1 < k2 < 6 ==> !(#[trigger] deal_1(k1) == #[trigger] deal_1(k2) && deal_2(k1)
                == deal_2(k2)),
        forall|a: u8, b: u8|
            valid_card(a) && valid_card(b) && a != b ==> exists|k: int|
                0 <= k < 6 && #[trigger] deal_1(k) == a && deal_2(k) == b,
        6 * (CHANCE_PR as int) == SCALE as int,
{
    assert forall|a: u8, b: u8| valid_card(a) && valid_card(b) && a != b implies exists|k: int|
        0 <= k < 6 && #[trigger] deal_1(k) == a && deal_2(k) == b by {
        if a == 0 && b == 1 {
            assert(deal_1(0) == a && deal_2(0) == b);
        } else if a == 0 && b == 2 {
            assert(deal_1(1) == a && deal_2(1) == b);
        } else if a == 1 && b == 0 {
            assert(deal_1(2) == a && deal_2(2) == b);
        } else if a == 1 && b == 2 {
            assert(deal_1(3) == a && deal_2(3) == b);
        } else if a == 2 && b == 0 {
            assert(deal_1(4) == a && deal_2(4) == b);
        } else {
            assert(deal_1(5) == a && deal_2(5) == b);
        }
    }
}

/// An upper bound, in fixed-point units, on how much reach probability a
/// call on a history of length `l` can add to any one entry across the
/// whole subtree it walks; regret entries move by at most four times this
/// budget. Each decision node spends `SCALE` on reach and one increment of
/// at most `4 * SCALE` on regret besides what its two children spend, so
/// the budget obeys `vis_units(l) == 2 * SCALE + 2 * vis_units(l + 1)`,
/// and the root's six deals spend six times a deal's budget.
pub open spec fn vis_units(l: int) -> int {
    if l == 0 {
        504_000_000
    } else if l == 2 {
        84_000_000
    } else if l == 3 {
        36_000_000
    } else if l == 4 {
        12_000_000
    } else {
        0
    }
}

/// Headroom: the entry's accumulators are far enough from the global
/// bounds that a subtree with budget `m` cannot overflow them.
pub open spec fn head_ok(x: InfoSet, m: int) -> bool {
    &&& -(REG_LIMIT - 4 * m) <= x.regret_sum.c <= REG_LIMIT - 4 * m
    &&& -(REG_LIMIT - 4 * m) <= x.regret_sum.b <= REG_LIMIT - 4 * m
    &&& x.reach_pr <= REACH_LIMIT - m
}

/// How a traversal step with budget `m` may move entry `j`: keys,
/// strategies and the per-iteration sums never change; reach probability
/// only grows, by at most `m`; each regret entry moves by at most `4 * m`.
/// Entries beyond `pre` are freshly created along the way.
pub open spec fn growth_ok(pre: Seq<InfoSet>, post: Seq<InfoSet>, j: int, m: int) -> bool {
    if j < pre.len() {
        let a = pre[j];
        let p = post[j];
        &&& p.card == a.card
        &&& p.hist == a.hist
        &&& p.strategy == a.strategy
        &&& p.strategy_sum == a.strategy_sum
        &&& p.reach_pr_sum == a.reach_pr_sum
        &&& a.reach_pr <= p.reach_pr <= a.reach_pr + m
        &&& a.regret_sum.c - 4 * m <= p.regret_sum.c <= a.regret_sum.c + 4 * m
        &&& a.regret_sum.b - 4 * m <= p.regret_sum.b <= a.regret_sum.b + 4 * m
    } else {
        let p = post[j];
        &&& p.card < 3
        &&& p.strategy == (Pair { c: HALF, b: HALF })
        &&& p.strategy_sum == (Pair { c: 0, b: 0 })
        &&& p.reach_pr_sum == 0
        &&& 0 <= p.reach_pr <= m
        &&& -4 * m <= p.regret_sum.c <= 4 * m
        &&& -4 * m <= p.regret_sum.b <= 4 * m
    }
}

/// One traversal step stayed inside the budget `m`, at every entry.
pub open spec fn growth_all(pre: Seq<InfoSet>, post: Seq<InfoSet>, m: int) -> bool {
    &&& pre.len() <= post.len()
    &&& forall|j: int| 0 <= j < post.len() ==> #[trigger] growth_ok(pre, post, j, m)
}

/// Growth composes: budget `m1` followed by budget `m2` stays within the
/// envelope of budget `m1 + m2`.
pub proof fn lemma_growth_trans(
    s0: Seq<InfoSet>,
    s1: Seq<InfoSet>,
    s2: Seq<InfoSet>,
    m1: int,
    m2: int,
)
    requires
        m1 >= 0,
        m2 >= 0,
        growth_all(s0, s1, m1),
        growth_all(s1, s2, m2),
    ensures
        growth_all(s0, s2, m1 + m2),
{
    assert forall|j: int| 0 <= j < s2.len() implies #[trigger] growth_ok(s0, s2, j, m1 + m2) by {
        if j < s1.len() {
            assert(growth_ok(s0, s1, j, m1));
        }
        assert(growth_ok(s1, s2, j, m2));
    }
}

/// A step that touches nothing satisfies any nonnegative growth budget.
pub proof fn lemma_growth_refl(s: Seq<InfoSet>, m: int)
    requires
        m >= 0,
    ensures
        growth_all(s, s, m),
{
    assert forall|j: int| 0 <= j < s.len() implies #[trigger] growth_ok(s, s, j, m) by {
    }
}

/// Overwriting one entry with a well-formed one that keeps its key keeps
/// the whole store well formed.
pub proof fn lemma_store_ok_update(s: Seq<InfoSet>, i: int, e: InfoSet)
    requires
        store_ok(s),
        0 <= i < s.len(),
        iset_ok(e),
        e.card == s[i].card,
        e.hist == s[i].hist,
    ensures
        store_ok(s.update(i, e)),
{
    let s2 = s.update(i, e);
    assert forall|j: int| 0 <= j < s2.len() implies iset_ok(#[trigger] s2[j]) by {
        if j != i {
            assert(s2[j] == s[j]);
        }
    }
    assert forall|j: int, k: int| 0 <= j < k < s2.len() implies !same_key(
        #[trigger] s2[j],
        #[trigger] s2[k],
    ) by {
        assert(!same_key(s[j], s[k]));
    }
}

/// The history every deal starts from: both players have posted stakes.
pub open spec fn rr_hist() -> Seq<u8> {
    seq![ACT_R, ACT_R]
}

/// The spec-level model of one traversal call: the store it leaves behind
/// and the utility it returns, as a pure function of its arguments. The
/// executable `cfr` is proved equal to it.
pub open spec fn cfr_m(
    s: Seq<InfoSet>,
    h: Seq<u8>,
    card_1: u8,
    card_2: u8,
    pr_1: int,
    pr_2: int,
    pr_c: int,
) -> (Seq<InfoSet>, int)
    decreases 6 - h.len(), 7int,
{
    if h.len() == 0 {
        let (s6, total) = chance_m(s, 6);
        (s6, fdiv(total, 6))
    } else if is_terminal_s(h) {
        (s, terminal_util_s(h, card_1, card_2))
    } else if is_decision_s(h) {
        let p1turn = h.len() % 2 == 0;
        let card = if p1turn {
            card_1
        } else {
            card_2
        };
        let code = encode_s(h) as u64;
        let (s1, idx) = touch_s(s, card, code);
        let e = s1[idx];
        let s2 = s1.update(
            idx,
            InfoSet {
                reach_pr: (e.reach_pr + if p1turn {
                    pr_1
                } else {
                    pr_2
                }) as i64,
                ..e
            },
        );
        let strat = e.strategy;
        let (s3, uc) = cfr_m(
            s2,
            h.push(ACT_C),
            card_1,
            card_2,
            if p1turn {
                fdiv(pr_1 * strat.c, SCALE as int)
            } else {
                pr_1
            },
            if p1turn {
                pr_2
            } else {
                fdiv(pr_2 * strat.c, SCALE as int)
            },
            pr_c,
        );
        let util_c = -uc;
        let (s4, ub) = cfr_m(
            s3,
            h.push(ACT_B),
            card_1,
            card_2,
            if p1turn {
                fdiv(pr_1 * strat.b, SCALE as int)
            } else {
                pr_1
            },
            if p1turn {
                pr_2
            } else {
                fdiv(pr_2 * strat.b, SCALE as int)
            },
            pr_c,
        );
        let util_b = -ub;
        let util = fdiv(strat.c * util_c + strat.b * util_b, SCALE as int);
        let w = fdiv(
            (if p1turn {
                pr_2
            } else {
                pr_1
            }) * pr_c,
            SCALE as int,
        );
        let e2 = s4[idx];
        let s5 = s4.update(
            idx,
            InfoSet {
                regret_sum: Pair {
                    c: (e2.regret_sum.c + fdiv((util_c - util) * w, SCALE as int)) as i64,
                    b: (e2.regret_sum.b + fdiv((util_b - util) * w, SCALE as int)) as i64,
                },
                ..e2
            },
        );
        (s5, util)
    } else {
        (s, 0)
    }
}

/// The spec-level model of the chance node after the first `k` of the six
/// deals: the store they leave behind and the sum of their utilities.
pub open spec fn chance_m(s: Seq<InfoSet>, k: int) -> (Seq<InfoSet>, int)
    decreases 5int, k,
{
    if k <= 0 {
        (s, 0)
    } else {
        let (sp, t) = chance_m(s, k - 1);
        let (sn, u) = cfr_m(
            sp,
            rr_hist(),
            deal_1(k - 1),
            deal_2(k - 1),
            SCALE as int,
            SCALE as int,
            CHANCE_PR as int,
        );
        (sn, t + u)
    }
}

/// The information-set utility under the current strategy: the probability
/// weighted sum — the dot product — of the strategy and the per-action
/// counterfactual utilities. The contract states that equation exactly,
/// which is the zero-sum bookkeeping of a decision node: what the node is
/// worth is precisely what its mixed strategy extracts from the two
/// actions' values.
pub fn node_util(strategy: Pair, util_c: i64, util_b: i64) -> (r: i64)
    requires
        valid_strategy(strategy),
        -2 * (SCALE as int) <= util_c <= 2 * (SCALE as int),
        -2 * (SCALE as int) <= util_b <= 2 * (SCALE as int),
    ensures
        r == fdiv(strategy.c * util_c + strategy.b * util_b, SCALE as int),
        -2 * (SCALE as int) <= r <= 2 * (SCALE as int),
{
    proof {
        assert(-2 * (SCALE as int) * (SCALE as int) <= strategy.c * util_c + strategy.b * util_b
            <= 2 * (SCALE as int) * (SCALE as int)) by (nonlinear_arith)
            requires
                0 <= strategy.c,
                0 <= strategy.b,
                strategy.c + strategy.b == SCALE as int,
                -2 * (SCALE as int) <= util_c <= 2 * (SCALE as int),
                -2 * (SCALE as int) <= util_b <= 2 * (SCALE as int),
        ;
        assert(-2 * (SCALE as int) * (SCALE as int) <= strategy.c * util_c <= 2 * (SCALE as int) * (
        SCALE as int)) by (nonlinear_arith)
            requires
                0 <= strategy.c <= SCALE as int,
                -2 * (SCALE as int) <= util_c <= 2 * (SCALE as int),
        ;
        assert(-2 * (SCALE as int) * (SCALE as int) <= strategy.b * util_b <= 2 * (SCALE as int) * (
        SCALE as int)) by (nonlinear_arith)
            requires
                0 <= strategy.b <= SCALE as int,
                -2 * (SCALE as int) <= util_b <= 2 * (SCALE as int),
        ;
    }
    fdiv_exec(strategy.c * util_c + strategy.b * util_b, SCALE, 2 * SCALE)
}

/// One traversal call: dispatch on the node type and return the utility
/// from the perspective of the player to act, mutating the store exactly
/// as the model `cfr_m` prescribes.
pub fn cfr(
    store: &mut Store,
    history: &Vec<u8>,
    card_1: u8,
    card_2: u8,
    pr_1: i64,
    pr_2: i64,
    pr_c: i64,
) -> (r: i64)
    requires
        store_ok(old(store)@),
        is_node_s(history@),
        history@.len() != 0 ==> valid_card(card_1) && valid_card(card_2) && card_1 != card_2,
        0 <= pr_1 <= SCALE,
        0 <= pr_2 <= SCALE,
        0 <= pr_c <= SCALE,
        forall|j: int|
            0 <= j < old(store)@.len() ==> head_ok(
                #[trigger] old(store)@[j],
                vis_units(history@.len() as int),
            ),
    ensures
        store_ok(final(store)@),
        final(store)@ == cfr_m(
            old(store)@,
            history@,
            card_1,
            card_2,
            pr_1 as int,
            pr_2 as int,
            pr_c as int,
        ).0,
        r == cfr_m(
            old(store)@,
            history@,
            card_1,
            card_2,
            pr_1 as int,
            pr_2 as int,
            pr_c as int,
        ).1,
        -2 * (SCALE as int) <= r <= 2 * (SCALE as int),
        growth_all(old(store)@, final(store)@, vis_units(history@.len() as int)),
    decreases 6 - history@.len(), 7int,
{
    let ghost s0 = store@;
    if is_chance_node(history) {
        let r = chance_util(store);
        proof {
            assert(cfr_m(s0, history@, card_1, card_2, pr_1 as int, pr_2 as int, pr_c as int)
                == (chance_m(s0, 6).0, fdiv(chance_m(s0, 6).1, 6)));
        }
        return r;
    }
    if is_terminal(history) {
        let u = terminal_util(history, card_1, card_2);
        proof {
            lemma_growth_refl(s0, vis_units(history@.len() as int));
        }
        return u;
    }
    proof {
        assert(is_decision_s(history@));
        lemma_decision_children(history@);
    }
    let ghost l = history@.len() as int;
    let ghost m_child = vis_units(l + 1);
    let n = history.len();
    let is_player_1 = n % 2 == 0;
    let card = if is_player_1 {
        card_1
    } else {
        card_2
    };
    let code = encode_hist(history);
    proof {
        lemma_encode_range(history@);
        assert(code == encode_s(history@) as u64);
    }
    let idx = store.get_or_create(card, code);
    let ghost s1v = store@;
    let e = *store.get(idx);
    let pr_mine = if is_player_1 {
        pr_1
    } else {
        pr_2
    };
    proof {
        if idx < s0.len() {
            assert(head_ok(s0[idx as int], vis_units(l)));
        }
        assert(iset_ok(e));
    }
    let mut e1 = e;
    e1.reach_pr = e.reach_pr + pr_mine;
    store.set_entry(idx, e1);
    let ghost s2v = store@;
    proof {
        lemma_store_ok_update(s1v, idx as int, e1);
        // growth of the touch plus the reach increment: budget SCALE
        assert forall|j: int| 0 <= j < s2v.len() implies #[trigger] growth_ok(s0, s2v, j, SCALE as int) by {
            if j < s0.len() {
                assert(s1v[j] == s0[j]);
            }
        }
        assert(growth_all(s0, s2v, SCALE as int));
        // headroom for the first child
        assert forall|j: int| 0 <= j < s2v.len() implies head_ok(#[trigger] s2v[j], m_child) by {
            assert(growth_ok(s0, s2v, j, SCALE as int));
            if j < s0.len() {
                assert(head_ok(s0[j], vis_units(l)));
            }
        }
    }
    let strat = e.strategy;
    let h_c = push_action(history, ACT_C);
    let p1_c = if is_player_1 {
        mul_prob(pr_1, strat.c)
    } else {
        pr_1
    };
    let p2_c = if is_player_1 {
        pr_2
    } else {
        mul_prob(pr_2, strat.c)
    };
    let u_raw_c = cfr(store, &h_c, card_1, card_2, p1_c, p2_c, pr_c);
    let util_c = -u_raw_c;
    let ghost s3v = store@;
    proof {
        lemma_growth_trans(s0, s2v, s3v, SCALE as int, m_child);
        // headroom for the second child
        assert forall|j: int| 0 <= j < s3v.len() implies head_ok(#[trigger] s3v[j], m_child) by {
            assert(growth_ok(s0, s3v, j, SCALE as int + m_child));
            if j < s0.len() {
                assert(head_ok(s0[j], vis_units(l)));
            }
        }
    }
    let h_b = push_action(history, ACT_B);
    let p1_b = if is_player_1 {
        mul_prob(pr_1, strat.b)
    } else {
        pr_1
    };
    let p2_b = if is_player_1 {
        pr_2
    } else {
        mul_prob(pr_2, strat.b)
    };
    let u_raw_b = cfr(store, &h_b, card_1, card_2, p1_b, p2_b, pr_c);
    let util_b = -u_raw_b;
    let ghost s4v = store@;
    proof {
        lemma_growth_trans(s0, s3v, s4v, SCALE as int + m_child, m_child);
    }
    let util = node_util(strat, util_c, util_b);
    let pr_opp = if is_player_1 {
        pr_2
    } else {
        pr_1
    };
    let w = mul_prob(pr_opp, pr_c);
    let d_c = util_c - util;
    let d_b = util_b - util;
    proof {
        assert(-4 * (SCALE as int) * (SCALE as int) <= d_c * w <= 4 * (SCALE as int) * (
        SCALE as int)) by (nonlinear_arith)
            requires
                -4 * (SCALE as int) <= d_c <= 4 * (SCALE as int),
                0 <= w <= SCALE as int,
        ;
        assert(-4 * (SCALE as int) * (SCALE as int) <= d_b * w <= 4 * (SCALE as int) * (
        SCALE as int)) by (nonlinear_arith)
            requires
                -4 * (SCALE as int) <= d_b <= 4 * (SCALE as int),
                0 <= w <= SCALE as int,
        ;
    }
    let inc_c = fdiv_exec(d_c * w, SCALE, 4 * SCALE);
    let inc_b = fdiv_exec(d_b * w, SCALE, 4 * SCALE);
    proof {
        assert(growth_ok(s0, s4v, idx as int, SCALE as int + 2 * m_child));
        if idx < s0.len() {
            assert(head_ok(s0[idx as int], vis_units(l)));
        }
    }
    let e2 = *store.get(idx);
    let mut e3 = e2;
    e3.regret_sum = Pair { c: e2.regret_sum.c + inc_c, b: e2.regret_sum.b + inc_b };
    store.set_entry(idx, e3);
    proof {
        assert(iset_ok(e3));
        lemma_store_ok_update(s4v, idx as int, e3);
        // the final regret step has budget SCALE, closing the envelope
        assert forall|j: int| 0 <= j < store@.len() implies #[trigger] growth_ok(
            s4v,
            store@,
            j,
            SCALE as int,
        ) by {
            if j != idx {
                assert(store@[j] == s4v[j]);
            }
        }
        assert(growth_all(s4v, store@, SCALE as int));
        lemma_growth_trans(s0, s4v, store@, SCALE as int + 2 * m_child, SCALE as int);
        assert(vis_units(l) == 2 * (SCALE as int) + 2 * m_child);
        // the executable steps traced the model exactly
        assert((store@, util as int) == cfr_m(
            s0,
            history@,
            card_1,
            card_2,
            pr_1 as int,
            pr_2 as int,
            pr_c as int,
        ));
    }
    util
}

/// One full pass of the chance node: walk all six ordered deals of
/// distinct cards in the fixed order, recurse into the decision tree with
/// both stakes posted and chance weight one sixth, and return the average
/// of the six utilities — an exhaustive expectation over chance.
pub fn chance_util(store: &mut Store) -> (r: i64)
    requires
        store_ok(old(store)@),
        forall|j: int|
            0 <= j < old(store)@.len() ==> head_ok(#[trigger] old(store)@[j], 504_000_000),
    ensures
        store_ok(final(store)@),
        final(store)@ == chance_m(old(store)@, 6).0,
        r == fdiv(chance_m(old(store)@, 6).1, 6),
        -2 * (SCALE as int) <= r <= 2 * (SCALE as int),
        growth_all(old(store)@, final(store)@, 504_000_000),
    decreases 5int, 6int,
{
    let mut ev: i64 = 0;
    let mut k: usize = 0;
    proof {
        lemma_growth_refl(old(store)@, 0);
        assert(chance_m(old(store)@, 0) == (old(store)@, 0int));
    }
    while k < 6
        invariant
            0 <= k <= 6,
            store_ok(store@),
            store_ok(old(store)@),
            store@ == chance_m(old(store)@, k as int).0,
            ev as int == chance_m(old(store)@, k as int).1,
            -12_000_000 * (k as int) <= ev as int <= 12_000_000 * (k as int),
            growth_all(old(store)@, store@, 84_000_000 * (k as int)),
            forall|j: int|
                0 <= j < old(store)@.len() ==> head_ok(#[trigger] old(store)@[j], 504_000_000),
        decreases 6 - k,
    {
        proof {
            assert forall|j: int| 0 <= j < store@.len() implies head_ok(
                #[trigger] store@[j],
                84_000_000,
            ) by {
                assert(growth_ok(old(store)@, store@, j, 84_000_000 * (k as int)));
                if j < old(store)@.len() {
                    assert(head_ok(old(store)@[j], 504_000_000));
                }
            }
            lemma_chance_enumeration();
        }
        let c1 = deal_card_1(k);
        let c2 = deal_card_2(k);
        let mut h: Vec<u8> = Vec::new();
        h.push(ACT_R);
        h.push(ACT_R);
        proof {
            assert(h@ =~= rr_hist());
            assert(h@[0] == ACT_R && h@[1] == ACT_R && h@.len() == 2);
            assert(is_decision_s(h@));
        }
        let ghost pre = store@;
        let ghost ev_pre = ev as int;
        let u = cfr(store, &h, c1, c2, SCALE, SCALE, CHANCE_PR);
        ev = ev + u;
        k = k + 1;
        proof {
            assert(h@ == rr_hist());
            assert(chance_m(old(store)@, k as int) == (store@, ev as int));
            lemma_growth_trans(
                old(store)@,
                pre,
                store@,
                84_000_000 * (k as int - 1),
                84_000_000,
            );
            assert(84_000_000 * (k as int - 1) + 84_000_000 == 84_000_000 * (k as int));
        }
    }
    proof {
        lemma_fdiv_range(ev as int, 6, -2 * (SCALE as int), 2 * (SCALE as int));
    }
    fdiv_exec(ev, 6, 2 * SCALE)
}

} // verus!
