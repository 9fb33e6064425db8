//! Tests for the information-set accumulators: regret matching, the
//! per-iteration strategy update, and average-strategy extraction.

use kuhn_cfr::fixed::HALF;
use kuhn_cfr::fixed::SCALE;
use kuhn_cfr::fixed::THRESH;
use kuhn_cfr::infoset::InfoSet;
use kuhn_cfr::infoset::Pair;

#[test]
fn fresh_info_set_is_uniform_with_zero_accumulators() {
    let s = InfoSet::new(1, 21);
    assert_eq!(s.card, 1);
    assert_eq!(s.hist, 21);
    assert_eq!(s.regret_sum, Pair { c: 0, b: 0 });
    assert_eq!(s.strategy, Pair { c: HALF, b: HALF });
    assert_eq!(s.strategy_sum, Pair { c: 0, b: 0 });
    assert_eq!(s.reach_pr, 0);
    assert_eq!(s.reach_pr_sum, 0);
}

#[test]
fn make_positive_clips_negative_entries() {
    let p = InfoSet::make_positive(Pair { c: -7, b: 9 });
    assert_eq!(p, Pair { c: 0, b: 9 });
    let q = InfoSet::make_positive(Pair { c: 0, b: -1 });
    assert_eq!(q, Pair { c: 0, b: 0 });
}

#[test]
fn regret_matching_is_proportional_to_positive_regret() {
    let mut s = InfoSet::new(0, 21);
    s.regret_sum = Pair { c: 3, b: 1 };
    // 3 : 1 regret gives a 3/4 : 1/4 strategy
    assert_eq!(s.calc_strategy(), Pair { c: 4_500_000, b: 1_500_000 });
}

#[test]
fn regret_matching_falls_back_to_uniform_when_no_regret_is_positive() {
    let mut s = InfoSet::new(0, 21);
    s.regret_sum = Pair { c: -5, b: -7 };
    assert_eq!(s.calc_strategy(), Pair { c: HALF, b: HALF });
    s.regret_sum = Pair { c: 0, b: 0 };
    assert_eq!(s.calc_strategy(), Pair { c: HALF, b: HALF });
}

#[test]
fn regret_matching_puts_all_weight_on_the_only_positive_regret() {
    let mut s = InfoSet::new(0, 21);
    s.regret_sum = Pair { c: -3, b: 5 };
    assert_eq!(s.calc_strategy(), Pair { c: 0, b: SCALE });
}

#[test]
fn strategy_update_folds_reach_into_the_average_and_resets_it() {
    let mut s = InfoSet::new(2, 86);
    s.reach_pr = SCALE;
    s.regret_sum = Pair { c: 1, b: 1 };
    s.next_strategy();
    // strategy_sum += strategy * reach_pr, with the uniform strategy
    assert_eq!(s.strategy_sum, Pair { c: HALF, b: HALF });
    assert_eq!(s.reach_pr_sum, SCALE);
    assert_eq!(s.reach_pr, 0);
    // equal positive regrets keep the strategy uniform
    assert_eq!(s.strategy, Pair { c: HALF, b: HALF });
}

#[test]
fn strategy_update_applies_regret_matching_for_the_next_iteration() {
    let mut s = InfoSet::new(2, 86);
    s.reach_pr = HALF;
    s.regret_sum = Pair { c: 0, b: 9 };
    s.next_strategy();
    assert_eq!(s.strategy_sum, Pair { c: 1_500_000, b: 1_500_000 });
    assert_eq!(s.reach_pr_sum, HALF);
    assert_eq!(s.strategy, Pair { c: 0, b: SCALE });
}

#[test]
fn average_strategy_divides_by_cumulative_reach() {
    let mut s = InfoSet::new(0, 21);
    s.strategy_sum = Pair { c: SCALE, b: SCALE };
    s.reach_pr_sum = 2 * SCALE;
    assert_eq!(s.get_average_strategy(), Some(Pair { c: HALF, b: HALF }));
}

#[test]
fn average_strategy_snaps_noise_below_the_threshold_to_zero() {
    let mut s = InfoSet::new(0, 21);
    // the c share comes out just under 0.001 and is suppressed
    s.strategy_sum = Pair { c: THRESH - 1, b: SCALE - (THRESH - 1) };
    s.reach_pr_sum = SCALE;
    assert_eq!(s.get_average_strategy(), Some(Pair { c: 0, b: SCALE }));
}

#[test]
fn average_strategy_is_none_for_a_never_reached_set() {
    let s = InfoSet::new(0, 21);
    assert_eq!(s.get_average_strategy(), None);
}

#[test]
fn average_strategy_always_sums_to_one_when_defined() {
    let mut s = InfoSet::new(0, 21);
    s.strategy_sum = Pair { c: 123_456, b: 654_321 };
    s.reach_pr_sum = 999_999;
    let avg = s.get_average_strategy().unwrap();
    assert!(avg.c >= 0 && avg.b >= 0);
    assert_eq!(avg.c + avg.b, SCALE);
}
