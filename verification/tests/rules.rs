//! Tests for the game rules encoder: terminal recognition, the payoff
//! table, card labels and history codes.

use kuhn_cfr::fixed::SCALE;
use kuhn_cfr::rules::card_str;
use kuhn_cfr::rules::decode_hist;
use kuhn_cfr::rules::encode_hist;
use kuhn_cfr::rules::is_chance_node;
use kuhn_cfr::rules::is_terminal;
use kuhn_cfr::rules::terminal_util;

fn hist(s: &str) -> Vec<u8> {
    s.bytes().collect()
}

#[test]
fn chance_node_is_the_empty_history() {
    assert!(is_chance_node(&hist("")));
    assert!(!is_chance_node(&hist("rr")));
    assert!(!is_chance_node(&hist("rrcc")));
}

#[test]
fn terminal_set_is_exactly_five_strings() {
    for t in ["rrcc", "rrcbc", "rrcbb", "rrbc", "rrbb"] {
        assert!(is_terminal(&hist(t)), "{} must be terminal", t);
    }
    for t in ["", "rr", "rrc", "rrb", "rrcb", "r", "rrccc", "rrcbcb"] {
        assert!(!is_terminal(&hist(t)), "{} must not be terminal", t);
    }
}

#[test]
fn terminal_util_two_checks_top_card_wins() {
    // both checked; player 1 (to move at even length) holds the top card
    assert_eq!(terminal_util(&hist("rrcc"), 2, 0), SCALE);
    assert_eq!((terminal_util(&hist("rrcc"), 2, 0) as f64) / (SCALE as f64), 1.0);
}

#[test]
fn terminal_util_double_bet_bottom_card_loses_two() {
    // double bet; the acting player holds the bottom card and loses the
    // larger pot
    assert_eq!(terminal_util(&hist("rrbb"), 0, 2), -2 * SCALE);
    assert_eq!((terminal_util(&hist("rrbb"), 0, 2) as f64) / (SCALE as f64), -2.0);
}

#[test]
fn terminal_util_fold_pays_the_bettor_whatever_the_cards() {
    assert_eq!(terminal_util(&hist("rrbc"), 0, 2), SCALE);
    assert_eq!(terminal_util(&hist("rrbc"), 2, 0), SCALE);
    assert_eq!(terminal_util(&hist("rrcbc"), 0, 1), SCALE);
    assert_eq!(terminal_util(&hist("rrcbc"), 1, 0), SCALE);
}

#[test]
fn terminal_util_showdown_swapping_cards_negates_the_payoff() {
    for t in ["rrcc", "rrbb", "rrcbb"] {
        for (a, b) in [(0u8, 1u8), (0, 2), (1, 2)] {
            let one = terminal_util(&hist(t), a, b);
            let other = terminal_util(&hist(t), b, a);
            assert_eq!(one, -other, "showdown {} must be zero-sum in the cards", t);
        }
    }
}

#[test]
fn terminal_util_odd_length_terminal_pays_player_two_perspective() {
    // "rrcbb" has odd length: player 2 is to move and compares cards
    assert_eq!(terminal_util(&hist("rrcbb"), 0, 2), 2 * SCALE);
    assert_eq!(terminal_util(&hist("rrcbb"), 2, 0), -2 * SCALE);
}

#[test]
fn card_labels() {
    assert_eq!(card_str(0), "J");
    assert_eq!(card_str(1), "Q");
    assert_eq!(card_str(2), "K");
}

#[test]
fn history_codes_round_trip() {
    for h in ["", "rr", "rrc", "rrb", "rrcb", "rrcc", "rrbc", "rrbb", "rrcbc", "rrcbb"] {
        let v = hist(h);
        let code = encode_hist(&v);
        assert_eq!(decode_hist(code), v, "code of {} must decode back", h);
    }
}

#[test]
fn history_codes_are_distinct() {
    let all = ["", "rr", "rrc", "rrb", "rrcb", "rrcc", "rrbc", "rrbb", "rrcbc", "rrcbb"];
    for i in 0..all.len() {
        for j in 0..all.len() {
            if i != j {
                assert_ne!(encode_hist(&hist(all[i])), encode_hist(&hist(all[j])));
            }
        }
    }
}
