//! End-to-end tests of the solver: the store, the chance enumeration, the
//! traversal driver, convergence, and determinism.

use kuhn_cfr::driver::train;
use kuhn_cfr::engine::deal_card_1;
use kuhn_cfr::engine::deal_card_2;
use kuhn_cfr::engine::node_util;
use kuhn_cfr::fixed::CHANCE_PR;
use kuhn_cfr::fixed::HALF;
use kuhn_cfr::fixed::SCALE;
use kuhn_cfr::infoset::Pair;
use kuhn_cfr::rules::encode_hist;
use kuhn_cfr::store::Store;

fn hist(s: &str) -> Vec<u8> {
    s.bytes().collect()
}

#[test]
fn store_creates_each_key_once() {
    let mut store = Store::new();
    let code = encode_hist(&hist("rr"));
    let i = store.get_or_create(0, code);
    let j = store.get_or_create(0, code);
    assert_eq!(i, j);
    assert_eq!(store.len(), 1);
    let k = store.get_or_create(1, code);
    assert_ne!(i, k);
    assert_eq!(store.len(), 2);
    let l = store.get_or_create(0, encode_hist(&hist("rrc")));
    assert_ne!(i, l);
    assert_eq!(store.len(), 3);
    assert_eq!(store.get(i).card, 0);
    assert_eq!(store.get(i).hist, code);
}

#[test]
fn chance_enumeration_covers_all_six_ordered_pairs_once() {
    let mut seen = Vec::new();
    for k in 0..6 {
        let a = deal_card_1(k);
        let b = deal_card_2(k);
        assert!(a < 3 && b < 3 && a != b);
        assert!(!seen.contains(&(a, b)), "deal ({}, {}) repeated", a, b);
        seen.push((a, b));
    }
    assert_eq!(seen.len(), 6);
    // six equal weights of 1/6 account for the whole probability mass
    assert_eq!(6 * CHANCE_PR, SCALE);
}

#[test]
fn node_utility_is_the_dot_product_of_strategy_and_action_utilities() {
    // a pure strategy passes the chosen action's utility through exactly
    assert_eq!(node_util(Pair { c: SCALE, b: 0 }, 7_000_000, -3_000_000), 7_000_000);
    assert_eq!(node_util(Pair { c: 0, b: SCALE }, 7_000_000, -3_000_000), -3_000_000);
    // the uniform strategy averages, and opposite utilities cancel
    assert_eq!(node_util(Pair { c: HALF, b: HALF }, SCALE, -SCALE), 0);
    assert_eq!(node_util(Pair { c: HALF, b: HALF }, SCALE, 0), HALF);
}

#[test]
fn one_iteration_populates_every_reachable_decision_point() {
    let (_, store) = train(1);
    // 3 private cards at each of the histories rr, rrc, rrb, rrcb
    assert_eq!(store.len(), 12);
    let mut expected = Vec::new();
    for card in 0..3u8 {
        for h in ["rr", "rrc", "rrb", "rrcb"] {
            expected.push((card, encode_hist(&hist(h))));
        }
    }
    for i in 0..store.len() {
        let e = *store.get(i);
        assert!(
            expected.contains(&(e.card, e.hist)),
            "unexpected information set (card {}, code {})",
            e.card,
            e.hist
        );
        for j in 0..store.len() {
            if i != j {
                let o = *store.get(j);
                assert!(!(o.card == e.card && o.hist == e.hist), "duplicate key");
            }
        }
        // the single pass accrued reach and regret, and the update ran
        // exactly once: reach_pr was folded into the sums and reset
        assert_eq!(e.reach_pr, 0);
        assert!(e.reach_pr_sum > 0);
    }
}

#[test]
fn strategies_are_probability_distributions_after_every_update() {
    for n in [1, 2, 7, 50] {
        let (_, store) = train(n);
        for i in 0..store.len() {
            let e = store.get(i);
            assert!(e.strategy.c >= 0 && e.strategy.b >= 0);
            assert_eq!(e.strategy.c + e.strategy.b, SCALE);
            if let Some(avg) = e.get_average_strategy() {
                assert!(avg.c >= 0 && avg.b >= 0);
                assert_eq!(avg.c + avg.b, SCALE);
            }
        }
    }
}

#[test]
fn expected_value_converges_to_the_equilibrium_value() {
    let (ev, _) = train(10_000);
    let value = (ev as f64) / (SCALE as f64);
    // the closed-form equilibrium value of the game is -1/18
    assert!(
        (value - (-1.0 / 18.0)).abs() < 0.01,
        "expected about -0.0556, got {}",
        value
    );
}

#[test]
fn preferred_actions_carry_the_dominant_positive_regret() {
    let (_, store) = train(10_000);
    let pos = |x: i64| if x > 0 { x } else { 0 };
    let mut checked = 0;
    for i in 0..store.len() {
        let e = store.get(i);
        if let Some(avg) = e.get_average_strategy() {
            // where the averaged strategy clearly prefers one action,
            // that action's accumulated positive regret dominates
            if avg.c > avg.b + HALF {
                assert!(pos(e.regret_sum.c) >= pos(e.regret_sum.b));
                checked += 1;
            } else if avg.b > avg.c + HALF {
                assert!(pos(e.regret_sum.b) >= pos(e.regret_sum.c));
                checked += 1;
            }
        }
    }
    assert!(checked > 0, "no clearly preferred action found at all");
}

#[test]
fn rerunning_with_the_same_iteration_count_is_bit_identical() {
    let (ev1, store1) = train(200);
    let (ev2, store2) = train(200);
    assert_eq!(ev1, ev2);
    assert_eq!(store1.len(), store2.len());
    for i in 0..store1.len() {
        assert_eq!(*store1.get(i), *store2.get(i));
    }
}

#[test]
fn zero_iterations_report_a_zero_value_and_an_empty_store() {
    let (ev, store) = train(0);
    assert_eq!(ev, 0);
    assert_eq!(store.len(), 0);
}
