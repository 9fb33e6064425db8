//! The driver: run the full-tree traversal a fixed number of iterations
//! starting from an empty information-set store, apply the strategy update
//! to every information set after each iteration, and report the averaged
//! game value from player 1's perspective together with the final store.

use vstd::prelude::*;
use crate::engine::cfr;
use crate::engine::cfr_m;
use crate::engine::growth_ok;
use crate::engine::head_ok;
use crate::engine::vis_units;
use crate::fixed::fdiv;
use crate::fixed::fdiv_exec;
use crate::fixed::MAX_ITERS;
use crate::fixed::SCALE;
use crate::infoset::advance_s;
use crate::infoset::iset_ok;
use crate::infoset::InfoSet;
use crate::store::store_ok;
use crate::store::Store;

verus! {

/// Every information set after the per-iteration strategy update.
pub open spec fn advance_all_s(s: Seq<InfoSet>) -> Seq<InfoSet> {
    s.map_values(|x: InfoSet| advance_s(x))
}

/// The model of the first `n` iterations: the store they build up and the
/// sum of the game values the traversals return.
pub open spec fn iters_m(n: nat) -> (Seq<InfoSet>, int)
    decreases n,
{
    if n == 0 {
        (Seq::empty(), 0)
    } else {
        let (s, t) = iters_m((n - 1) as nat);
        let (s2, u) = cfr_m(s, Seq::empty(), 0, 0, SCALE as int, SCALE as int, SCALE as int);
        (advance_all_s(s2), t + u)
    }
}

/// The expected game value the driver reports after `n` iterations: the
/// accumulated value divided by the iteration count.
pub open spec fn train_ev_m(n: nat) -> int {
    if n == 0 {
        0
    } else {
        fdiv(iters_m(n).1, n as int)
    }
}

/// Accumulator bounds that hold between iterations: after `i` completed
/// iterations every regret entry has moved by at most one traversal's
/// regret budget per iteration, the per-iteration reach probability has
/// been reset, and the running sums are bounded by one traversal's reach
/// budget per iteration.
pub open spec fn run_bound_at(x: InfoSet, i: int) -> bool {
    &&& -2_016_000_000 * i <= x.regret_sum.c <= 2_016_000_000 * i
    &&& -2_016_000_000 * i <= x.regret_sum.b <= 2_016_000_000 * i
    &&& x.reach_pr == 0
    &&& x.strategy_sum.c <= 504_000_000 * i
    &&& x.strategy_sum.b <= 504_000_000 * i
    &&& x.reach_pr_sum <= 504_000_000 * i
}

/// `run_bound_at`, at every entry of the store.
pub open spec fn run_bounds(s: Seq<InfoSet>, i: int) -> bool {
    forall|j: int| 0 <= j < s.len() ==> #[trigger] run_bound_at(s[j], i)
}

/// What holds of every entry when the strategy-update pass starts, right
/// after the `i`-th traversal (counting from zero).
pub open spec fn upd_pre_at(x: InfoSet, i: int) -> bool {
    &&& iset_ok(x)
    &&& -2_016_000_000 * (i + 1) <= x.regret_sum.c <= 2_016_000_000 * (i + 1)
    &&& -2_016_000_000 * (i + 1) <= x.regret_sum.b <= 2_016_000_000 * (i + 1)
    &&& x.reach_pr <= 504_000_000
    &&& x.strategy_sum.c <= 504_000_000 * i
    &&& x.strategy_sum.b <= 504_000_000 * i
    &&& x.reach_pr_sum <= 504_000_000 * i
}

/// The whole run: `n` full-tree traversals from an empty store, each
/// followed by the strategy update on every information set, then the
/// averaged game value for player 1 (player 2's is its negation). The
/// result — value and store alike — is a pure function of `n`, so two
/// runs with the same iteration count return identical results.
pub fn train(n: u64) -> (res: (i64, Store))
    requires
        n <= MAX_ITERS,
    ensures
        res.1@ == iters_m(n as nat).0,
        res.0 == train_ev_m(n as nat),
        store_ok(res.1@),
        run_bounds(res.1@, n as int),
{
    let mut store = Store::new();
    let mut total: i64 = 0;
    let mut it: u64 = 0;
    let empty_h: Vec<u8> = Vec::new();
    proof {
        assert(store@ =~= iters_m(0).0);
    }
    while it < n
        invariant
            0 <= it <= n,
            n <= MAX_ITERS,
            store_ok(store@),
            store@ == iters_m(it as nat).0,
            total as int == iters_m(it as nat).1,
            -12_000_000 * (it as int) <= total as int <= 12_000_000 * (it as int),
            run_bounds(store@, it as int),
            empty_h@.len() == 0,
        decreases n - it,
    {
        proof {
            assert(empty_h@ =~= Seq::<u8>::empty());
            assert forall|j: int| 0 <= j < store@.len() implies head_ok(
                #[trigger] store@[j],
                vis_units(0),
            ) by {
                assert(run_bound_at(store@[j], it as int));
            }
        }
        let ghost pre = store@;
        let ghost t_pre = total as int;
        let u = cfr(&mut store, &empty_h, 0, 0, SCALE, SCALE, SCALE);
        total = total + u;
        let ghost mid = store@;
        proof {
            assert forall|jj: int| 0 <= jj < mid.len() implies #[trigger] upd_pre_at(
                mid[jj],
                it as int,
            ) by {
                assert(growth_ok(pre, mid, jj, 504_000_000));
                if jj < pre.len() {
                    assert(run_bound_at(pre[jj], it as int));
                }
                assert(iset_ok(mid[jj]));
            }
        }
        let m = store.len();
        let mut j: usize = 0;
        while j < m
            invariant
                0 <= j <= m,
                m == store@.len(),
                mid.len() == m,
                it < n,
                n <= MAX_ITERS,
                store_ok(store@),
                forall|jj: int| 0 <= jj < m ==> #[trigger] upd_pre_at(mid[jj], it as int),
                forall|jj: int| 0 <= jj < j ==> store@[jj] == advance_s(#[trigger] mid[jj]),
                forall|jj: int| j <= jj < m ==> store@[jj] == #[trigger] mid[jj],
            decreases m - j,
        {
            let mut e = *store.get(j);
            proof {
                assert(e == mid[j as int]);
                assert(upd_pre_at(mid[j as int], it as int));
            }
            e.next_strategy();
            let ghost before = store@;
            store.set_entry(j, e);
            proof {
                crate::engine::lemma_store_ok_update(before, j as int, e);
            }
            j = j + 1;
        }
        proof {
            assert(store@ =~= advance_all_s(mid));
            assert(iters_m((it + 1) as nat) == (store@, total as int));
            assert forall|jj: int| 0 <= jj < store@.len() implies #[trigger] run_bound_at(
                store@[jj],
                it as int + 1,
            ) by {
                assert(store@[jj] == advance_s(mid[jj]));
                assert(upd_pre_at(mid[jj], it as int));
                assert(iset_ok(store@[jj]));
            }
        }
        it = it + 1;
    }
    if n == 0 {
        (0, store)
    } else {
        let ev = fdiv_exec(total, n as i64, 2 * SCALE);
        (ev, store)
    }
}

} // verus!
