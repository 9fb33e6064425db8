//! Game rules encoder: the action alphabet, terminal-history recognition,
//! terminal payoffs and card labels for Kuhn poker.
//!
//! A history is a byte string over the alphabet `r` (the forced stake each
//! player posts at the deal), `c` (check, or decline a standing bet) and `b`
//! (bet). Every playable history starts with `"rr"`; the empty history is
//! the chance node. The terminal histories and their payoff table are:
//!
//! * `"rrcc"` — both checked: showdown for the single stake, `±SCALE`;
//! * `"rrbc"`, `"rrcbc"` — a bet was declined: the bettor collects the
//!   stake, `+SCALE` to the player to move, whatever the cards;
//! * `"rrbb"`, `"rrcbb"` — a bet was answered: showdown for the doubled
//!   stake, `±2 * SCALE`.

use vstd::prelude::*;
use vstd::arithmetic::div_mod::lemma_hoist_over_denominator;
use vstd::arithmetic::div_mod::lemma_mod_multiples_vanish;
use crate::fixed::SCALE;

verus! {

/// Action byte `c`: check, or decline a standing bet.
pub const ACT_C: u8 = 99;

/// Action byte `b`: bet.
pub const ACT_B: u8 = 98;

/// Byte `r`: the forced stake posted by each player before the betting.
pub const ACT_R: u8 = 114;

/// The deck holds three distinct ranks, numbered 0 (jack) to 2 (king).
pub open spec fn valid_card(c: u8) -> bool {
    c < 3
}

/// The chance node: the empty history, before the cards are dealt.
pub open spec fn is_chance_s(h: Seq<u8>) -> bool {
    h.len() == 0
}

/// The five game-ending histories.
pub open spec fn is_terminal_s(h: Seq<u8>) -> bool {
    ||| (h.len() == 4 && h[0] == ACT_R && h[1] == ACT_R && h[2] == ACT_C && h[3] == ACT_C)
    ||| (h.len() == 4 && h[0] == ACT_R && h[1] == ACT_R && h[2] == ACT_B && h[3] == ACT_C)
    ||| (h.len() == 4 && h[0] == ACT_R && h[1] == ACT_R && h[2] == ACT_B && h[3] == ACT_B)
    ||| (h.len() == 5 && h[0] == ACT_R && h[1] == ACT_R && h[2] == ACT_C && h[3] == ACT_B
        && h[4] == ACT_C)
    ||| (h.len() == 5 && h[0] == ACT_R && h[1] == ACT_R && h[2] == ACT_C && h[3] == ACT_B
        && h[4] == ACT_B)
}

/// The terminals decided by a showdown: the higher card takes the pot.
pub open spec fn is_showdown_s(h: Seq<u8>) -> bool {
    ||| (h.len() == 4 && h[0] == ACT_R && h[1] == ACT_R && h[2] == ACT_C && h[3] == ACT_C)
    ||| (h.len() == 4 && h[0] == ACT_R && h[1] == ACT_R && h[2] == ACT_B && h[3] == ACT_B)
    ||| (h.len() == 5 && h[0] == ACT_R && h[1] == ACT_R && h[2] == ACT_C && h[3] == ACT_B
        && h[4] == ACT_B)
}

/// The four decision histories, where one of the players is to act.
pub open spec fn is_decision_s(h: Seq<u8>) -> bool {
    ||| (h.len() == 2 && h[0] == ACT_R && h[1] == ACT_R)
    ||| (h.len() == 3 && h[0] == ACT_R && h[1] == ACT_R && (h[2] == ACT_C || h[2] == ACT_B))
    ||| (h.len() == 4 && h[0] == ACT_R && h[1] == ACT_R && h[2] == ACT_C && h[3] == ACT_B)
}

/// Any history the traversal can reach.
pub open spec fn is_node_s(h: Seq<u8>) -> bool {
    is_chance_s(h) || is_decision_s(h) || is_terminal_s(h)
}

/// The payoff, in fixed-point units, to the player whose turn the history
/// length's parity gives (even length: player 1), at a terminal history.
pub open spec fn terminal_util_s(h: Seq<u8>, card_1: u8, card_2: u8) -> int {
    let card_player = if h.len() % 2 == 0 {
        card_1
    } else {
        card_2
    };
    let card_opponent = if h.len() % 2 == 0 {
        card_2
    } else {
        card_1
    };
    if h.len() == 5 && h[4] == ACT_C {
        SCALE as int
    } else if h.len() == 4 && h[2] == ACT_B && h[3] == ACT_C {
        SCALE as int
    } else if h.len() == 4 && h[2] == ACT_C && h[3] == ACT_C {
        if card_player > card_opponent {
            SCALE as int
        } else {
            -(SCALE as int)
        }
    } else {
        if card_player > card_opponent {
            2 * (SCALE as int)
        } else {
            -2 * (SCALE as int)
        }
    }
}

/// True iff the history is the chance node (the root, before the deal).
pub fn is_chance_node(history: &Vec<u8>) -> (r: bool)
    ensures
        r == is_chance_s(history@),
{
    history.len() == 0
}

/// True iff the history is one of the five terminal strings.
pub fn is_terminal(history: &Vec<u8>) -> (r: bool)
    ensures
        r == is_terminal_s(history@),
{
    let n = history.len();
    if n == 4 {
        history[0] == ACT_R && history[1] == ACT_R && ((history[2] == ACT_C && history[3] == ACT_C)
            || (history[2] == ACT_B && (history[3] == ACT_C || history[3] == ACT_B)))
    } else if n == 5 {
        history[0] == ACT_R && history[1] == ACT_R && history[2] == ACT_C && history[3] == ACT_B
            && (history[4] == ACT_C || history[4] == ACT_B)
    } else {
        false
    }
}

/// The payoff to the player to move at a terminal history, from the fixed
/// payoff table, signed by comparing the mover's private card with the
/// opponent's. Calling this anywhere outside the terminal set would be a
/// programming error, so the contract rules those histories out.
pub fn terminal_util(history: &Vec<u8>, card_1: u8, card_2: u8) -> (r: i64)
    requires
        is_terminal_s(history@),
        valid_card(card_1),
        valid_card(card_2),
        card_1 != card_2,
    ensures
        r == terminal_util_s(history@, card_1, card_2),
        -2 * (SCALE as int) <= r <= 2 * (SCALE as int),
{
    let n = history.len();
    let card_player = if n % 2 == 0 {
        card_1
    } else {
        card_2
    };
    let card_opponent = if n % 2 == 0 {
        card_2
    } else {
        card_1
    };
    if n == 5 && history[4] == ACT_C {
        SCALE
    } else if n == 4 && history[2] == ACT_B && history[3] == ACT_C {
        SCALE
    } else if n == 4 && history[2] == ACT_C && history[3] == ACT_C {
        if card_player > card_opponent {
            SCALE
        } else {
            -SCALE
        }
    } else {
        if card_player > card_opponent {
            2 * SCALE
        } else {
            -2 * SCALE
        }
    }
}

/// The display label of a card rank.
pub fn card_str(card: u8) -> (r: &'static str)
    requires
        valid_card(card),
    ensures
        card == 0 ==> r@ == "J"@,
        card == 1 ==> r@ == "Q"@,
        card == 2 ==> r@ == "K"@,
{
    if card == 0 {
        "J"
    } else if card == 1 {
        "Q"
    } else {
        "K"
    }
}

/// At a showdown the pot changes hands whole: swapping the two private
/// cards negates the payoff, so what one player wins the other loses.
/// At the two fold-analog terminals the bettor collects one stake whatever
/// the cards. Together with the negation the traversal applies at every
/// ply, this is the zero-sum accounting of the payoff table.
pub proof fn lemma_terminal_zero_sum(h: Seq<u8>, card_1: u8, card_2: u8)
    requires
        is_terminal_s(h),
        valid_card(card_1),
        valid_card(card_2),
        card_1 != card_2,
    ensures
        is_showdown_s(h) ==> terminal_util_s(h, card_1, card_2) == -terminal_util_s(
            h,
            card_2,
            card_1,
        ),
        !is_showdown_s(h) ==> terminal_util_s(h, card_1, card_2) == SCALE as int,
{
}

// ---------------------------------------------------------------------
// History codes: a compact, injective numeral form of a history, used as
// the information-set key. Digits base 4, most significant first, with a
// leading sentinel 1: r -> 1, c -> 2, b -> 3.
// ---------------------------------------------------------------------

/// True iff the byte is one of the three history symbols.
pub open spec fn valid_action_byte(a: u8) -> bool {
    a == ACT_R || a == ACT_C || a == ACT_B
}

/// The base-4 digit of a history byte.
pub open spec fn digit_s(a: u8) -> int {
    if a == ACT_R {
        1
    } else if a == ACT_C {
        2
    } else {
        3
    }
}

/// The code of a history: digits base 4 behind a leading 1.
pub open spec fn encode_s(h: Seq<u8>) -> int
    decreases h.len(),
{
    if h.len() == 0 {
        1
    } else {
        encode_s(h.drop_last()) * 4 + digit_s(h.last())
    }
}

/// The history a code stands for: the inverse of `encode_s` on valid codes.
pub open spec fn decode_s(c: int) -> Seq<u8>
    decreases c,
{
    if c <= 1 {
        Seq::empty()
    } else {
        decode_s(c / 4).push(
            if c % 4 == 1 {
                ACT_R
            } else if c % 4 == 2 {
                ACT_C
            } else {
                ACT_B
            },
        )
    }
}

/// Powers of four, the radix of the history code.
pub open spec fn pow4(n: nat) -> int
    decreases n,
{
    if n == 0 {
        1
    } else {
        4 * pow4((n - 1) as nat)
    }
}

/// A code uses one base-4 digit per symbol behind the sentinel.
pub proof fn lemma_encode_pow_bound(h: Seq<u8>)
    ensures
        1 <= encode_s(h) < pow4(h.len() + 1),
    decreases h.len(),
{
    if h.len() > 0 {
        lemma_encode_pow_bound(h.drop_last());
        assert(pow4(h.len() + 1) == 4 * pow4(h.len()));
        assert(digit_s(h.last()) <= 3);
    } else {
        assert(encode_s(h) == 1);
        assert(pow4(0) == 1);
        assert(pow4(1) == 4);
    }
}

/// Codes of histories of up to five symbols fit well under 4096.
pub proof fn lemma_encode_range(h: Seq<u8>)
    requires
        h.len() <= 5,
    ensures
        1 <= encode_s(h) < 4096,
{
    lemma_encode_pow_bound(h);
    assert(pow4(0) == 1);
    assert(pow4(1) == 4);
    assert(pow4(2) == 16);
    assert(pow4(3) == 64);
    assert(pow4(4) == 256);
    assert(pow4(5) == 1024);
    assert(pow4(6) == 4096);
    assert(pow4(h.len() + 1) <= 4096) by {
        if h.len() == 0 {
        } else if h.len() == 1 {
        } else if h.len() == 2 {
        } else if h.len() == 3 {
        } else if h.len() == 4 {
        }
    }
}

/// Decoding undoes encoding on histories over the action alphabet, so the
/// code is an injective key: distinct histories get distinct codes.
pub proof fn lemma_decode_encode(h: Seq<u8>)
    requires
        forall|i: int| 0 <= i < h.len() ==> valid_action_byte(#[trigger] h[i]),
    ensures
        decode_s(encode_s(h)) == h,
    decreases h.len(),
{
    if h.len() > 0 {
        let e = encode_s(h.drop_last());
        let d = digit_s(h.last());
        assert(valid_action_byte(h.last()));
        assert(forall|i: int|
            0 <= i < h.drop_last().len() ==> valid_action_byte(#[trigger] h.drop_last()[i]));
        lemma_decode_encode(h.drop_last());
        lemma_encode_positive(h.drop_last());
        assert((d + e * 4) / 4 == d / 4 + e) by {
            lemma_hoist_over_denominator(d, e, 4nat);
        }
        assert((e * 4 + d) % 4 == d % 4) by {
            lemma_mod_multiples_vanish(e, d, 4);
        }
        assert(decode_s(encode_s(h)) == decode_s(e).push(h.last()));
        assert(decode_s(encode_s(h)) == h.drop_last().push(h.last()));
        assert(h.drop_last().push(h.last()) =~= h);
    } else {
        assert(decode_s(1) =~= Seq::<u8>::empty());
    }
}

/// Every code is at least 1.
proof fn lemma_encode_positive(h: Seq<u8>)
    ensures
        encode_s(h) >= 1,
    decreases h.len(),
{
    if h.len() > 0 {
        lemma_encode_positive(h.drop_last());
    }
}

/// The code of a history, computed left to right.
pub fn encode_hist(history: &Vec<u8>) -> (r: u64)
    requires
        history@.len() <= 5,
    ensures
        r == encode_s(history@),
        1 <= r < 4096,
{
    let ghost full = history@;
    let mut r: u64 = 1;
    let mut i: usize = 0;
    proof {
        assert(full.subrange(0, 0) =~= Seq::<u8>::empty());
    }
    while i < history.len()
        invariant
            0 <= i <= history@.len(),
            history@.len() <= 5,
            history@ == full,
            r == encode_s(full.subrange(0, i as int)),
            1 <= r < 4096,
        decreases history@.len() - i,
    {
        proof {
            let pre = full.subrange(0, i as int);
            let nxt = full.subrange(0, i as int + 1);
            assert(nxt.drop_last() =~= pre);
            assert(nxt.last() == full[i as int]);
            lemma_encode_range(nxt);
        }
        let a = history[i];
        let d: u64 = if a == ACT_R {
            1
        } else if a == ACT_C {
            2
        } else {
            3
        };
        r = r * 4 + d;
        i = i + 1;
    }
    proof {
        assert(full.subrange(0, full.len() as int) =~= full);
    }
    r
}

/// Appending either action to a decision history gives a game node again:
/// the traversal can never step outside the enumerated histories.
pub proof fn lemma_decision_children(h: Seq<u8>)
    requires
        is_decision_s(h),
    ensures
        is_node_s(h.push(ACT_C)),
        is_node_s(h.push(ACT_B)),
{
}

/// A copy of the history with one more action appended.
pub fn push_action(history: &Vec<u8>, action: u8) -> (r: Vec<u8>)
    ensures
        r@ == history@.push(action),
{
    let n = history.len();
    let mut r: Vec<u8> = Vec::new();
    let mut i: usize = 0;
    proof {
        assert(r@ =~= history@.subrange(0, 0));
    }
    while i < n
        invariant
            0 <= i <= n,
            n == history@.len(),
            r@ == history@.subrange(0, i as int),
        decreases n - i,
    {
        r.push(history[i]);
        proof {
            assert(r@ =~= history@.subrange(0, i as int + 1));
        }
        i = i + 1;
    }
    r.push(action);
    proof {
        assert(history@.subrange(0, n as int) =~= history@);
    }
    r
}

/// The history a code stands for, as bytes; the executable inverse of
/// `encode_hist`, used when reporting information sets.
pub fn decode_hist(code: u64) -> (r: Vec<u8>)
    ensures
        r@ == decode_s(code as int),
    decreases code,
{
    if code <= 1 {
        let v: Vec<u8> = Vec::new();
        proof {
            assert(v@ =~= decode_s(code as int));
        }
        v
    } else {
        let mut v = decode_hist(code / 4);
        let d = code % 4;
        let a: u8 = if d == 1 {
            ACT_R
        } else if d == 2 {
            ACT_C
        } else {
            ACT_B
        };
        v.push(a);
        v
    }
}

} // verus!
