//! A counterfactual-regret-minimization (CFR) solver for Kuhn poker: three
//! ranked cards, two players, one betting round with check/call ("c") and
//! bet ("b") actions.
//!
//! All probabilities, strategies and utilities are held in fixed-point form
//! (multiples of `1 / fixed::SCALE`), so the whole computation is exact
//! integer arithmetic: every run with the same iteration count produces the
//! same store and the same game value, and that value is pinned by the
//! contracts down to a spec-level model of the algorithm.
//!
//! The load-bearing guarantees, where they are stated and proved:
//! * every strategy regret matching ever produces is a probability
//!   distribution — `infoset::lemma_regret_match_valid`, and through it the
//!   contracts of `InfoSet::calc_strategy` and `InfoSet::next_strategy`;
//! * the action with the dominant accumulated positive regret receives the
//!   larger probability — `infoset::lemma_preferred_action_weight`;
//! * a decision node's value is the dot product of its strategy and the
//!   per-action utilities — the contract of `engine::node_util` — and the
//!   terminal payoff table is zero-sum — `rules::lemma_terminal_zero_sum`;
//! * the root walks exactly the six equiprobable ordered deals of distinct
//!   cards — `engine::lemma_chance_enumeration`;
//! * the traversal and the driver compute exactly what the spec-level
//!   models `engine::cfr_m` and `driver::iters_m` prescribe — the
//!   contracts of `engine::cfr` and `driver::train` — so two runs with one
//!   iteration count are identical, and no accumulator ever overflows.

pub mod fixed;
pub mod infoset;
pub mod rules;
pub mod store;
pub mod engine;
pub mod driver;
