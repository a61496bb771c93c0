//! What holds of the engine as a whole.

use crate::adjacency::{positional, Adjacency};
use crate::engine::{
    collapsed, entropies_of, frontier, is_blocked, is_live, is_narrowed, is_selected, is_settled,
    lemma_constrained, lemma_frontier_from, lemma_masked, lemma_open_cells_bound, lemma_run,
    lemma_run_settles, lemma_selection_exists, masked, propagated, selected,
};
use crate::grid::is_near;
use crate::model::ModelView;
use crate::weight::{
    entropy_of, first_max, is_first_max, is_only_state, is_resolved, lemma_entropy,
    lemma_first_max, lemma_normalized, lemma_one_hot, lemma_resolved_or_undecided, lemma_scaled,
    lemma_scaled_monotonic, lemma_weight_bounds, normalized, one_hot, total, UNIT,
};
use vstd::prelude::*;

verus! {

/// A valid model holds one entropy and one wave for each cell of its grid,
/// and every wave holds one weight for each state of the catalog.
pub proof fn lemma_shape(model: ModelView)
    requires
        model.is_valid(),
    ensures
        model.entropies.len() == model.width * model.height,
        model.waves.len() == model.width * model.height,
        forall|j: int| 0 <= j < model.waves.len() ==> (#[trigger] model.waves[j]).len()
            == model.catalog.len(),
{
}

/// Of two cells with the same entropy, positive and the least of all positive
/// entropies, the second is never selected: the selected cell is the first
/// of them or comes before it.
pub proof fn lemma_tie_goes_to_first(e: Seq<u32>, a: int, b: int)
    requires
        0 <= a < b < e.len(),
        e[a] == e[b],
        e[a] > 0,
        forall|j: int| 0 <= j < e.len() && e[j] > 0 ==> e[a] <= e[j],
    ensures
        selected(e) matches Some(i) && i <= a && e[i] == e[a],
{
    lemma_selection_exists(e);
    let i = selected(e)->0;
    assert(is_selected(e, i));
    if i > a {
        assert(e[i] < e[a]);
    }
}

/// Observation yields a one-hot wave: the first largest weight of the wave
/// becomes 1 and is the only state left. Normalization leaves that wave as
/// it is, and its entropy is 0.
pub proof fn lemma_observation(w: Seq<u32>)
    requires
        w.len() > 0,
    ensures
        is_first_max(w, first_max(w)),
        is_only_state(one_hot(w.len(), first_max(w)), first_max(w)),
        one_hot(w.len(), first_max(w))[first_max(w)] == UNIT,
        normalized(one_hot(w.len(), first_max(w))) == one_hot(w.len(), first_max(w)),
        entropy_of(normalized(one_hot(w.len(), first_max(w)))) == 0,
{
    lemma_first_max(w);
    lemma_one_hot(w.len(), first_max(w));
}

/// The entropy of a wave that does not sum to 0 is 0 exactly when the wave
/// is resolved.
pub proof fn lemma_entropy_zero(w: Seq<u32>)
    requires
        total(w) > 0,
    ensures
        entropy_of(w) == 0 <==> is_resolved(w),
{
    lemma_entropy(w);
    lemma_resolved_or_undecided(w);
}

/// Propagation never brings back a state: a weight that is 0 before it is 0
/// after it, and no wave and no weight is added or removed.
pub proof fn lemma_propagation_keeps_zeros(
    waves: Seq<Seq<u32>>,
    width: nat,
    rule: Adjacency,
    i: int,
    s: int,
)
    ensures
        propagated(waves, width, rule, i, s).len() == waves.len(),
        forall|j: int|
            0 <= j < waves.len() ==> (#[trigger] propagated(waves, width, rule, i, s)[j]).len()
                == waves[j].len(),
        forall|j: int, k: int|
            0 <= j < waves.len() && 0 <= k < waves[j].len() && waves[j][k] == 0 ==> (
            #[trigger] propagated(waves, width, rule, i, s)[j][k]) == 0,
{
    let after = propagated(waves, width, rule, i, s);
    lemma_frontier_from(waves, width, rule, i, s, 0);
    assert forall|j: int| 0 <= j < waves.len() implies (#[trigger] after[j]).len()
        == waves[j].len() && (forall|k: int|
        0 <= k < waves[j].len() && waves[j][k] == 0 ==> (#[trigger] after[j][k]) == 0) by {
        if is_near(width, i, j) && j < frontier(waves, width, rule, i, s) {
            assert(!is_blocked(waves, width, rule, i, s, j));
            lemma_constrained(waves[j], rule, s);
        }
    }
}

/// Propagation raises no weight, as long as the weights that a constrained
/// cell keeps sum to at least 1. (Where they sum to less, normalization
/// divides by a number below 1, and every weight that is kept grows.)
pub proof fn lemma_propagation_shrinks(
    waves: Seq<Seq<u32>>,
    width: nat,
    rule: Adjacency,
    i: int,
    s: int,
)
    requires
        forall|j: int|
            0 <= j < frontier(waves, width, rule, i, s) && is_near(width, i, j) ==> total(
                masked(#[trigger] waves[j], rule, s),
            ) >= UNIT,
    ensures
        forall|j: int, k: int|
            0 <= j < waves.len() && 0 <= k < waves[j].len() ==> (#[trigger] propagated(
                waves,
                width,
                rule,
                i,
                s,
            )[j][k]) <= waves[j][k],
{
    let after = propagated(waves, width, rule, i, s);
    lemma_frontier_from(waves, width, rule, i, s, 0);
    assert forall|j: int, k: int| 0 <= j < waves.len() && 0 <= k < waves[j].len() implies (
    #[trigger] after[j][k]) <= waves[j][k] by {
        if is_near(width, i, j) && j < frontier(waves, width, rule, i, s) {
            let m = masked(waves[j], rule, s);
            lemma_masked(waves[j], rule, s);
            lemma_weight_bounds(m);
            lemma_normalized(m);
            lemma_scaled(m[k], total(m));
        }
    }
}

/// Normalization of a wave whose weights sum to less than 1, but not to 0,
/// raises every weight that is not 0.
pub proof fn lemma_normalization_grows(w: Seq<u32>, k: int)
    requires
        0 < total(w) < UNIT,
        0 <= k < w.len(),
        w[k] > 0,
    ensures
        normalized(w)[k] > w[k],
{
    lemma_weight_bounds(w);
    lemma_normalized(w);
    lemma_scaled(w[k], total(w));
}

/// A complete run from waves of which none sums to 0 keeps one wave for each
/// cell and one weight for each state, makes at most one resolution for each
/// cell, and ends in one of two ways: with a contradiction at a cell of the
/// grid, or with every cell resolved, at entropy 0.
pub proof fn lemma_complete_run(waves: Seq<Seq<u32>>, states: nat, width: nat, rule: Adjacency)
    requires
        is_live(waves, states),
    ensures
        collapsed(waves, width, rule).waves.len() == waves.len(),
        is_live(collapsed(waves, width, rule).waves, states),
        collapsed(waves, width, rule).steps <= waves.len(),
        collapsed(waves, width, rule).stuck matches Some(f) ==> 0 <= f < waves.len(),
        collapsed(waves, width, rule).stuck is None ==> forall|j: int|
            0 <= j < waves.len() ==> is_resolved(#[trigger] collapsed(waves, width, rule).waves[j])
                && entropies_of(collapsed(waves, width, rule).waves)[j] == 0,
{
    let end = collapsed(waves, width, rule);
    lemma_open_cells_bound(waves);
    lemma_run(waves, states, width, rule, waves.len());
    if end.stuck is None {
        assert forall|j: int| 0 <= j < waves.len() implies is_resolved(#[trigger] end.waves[j])
            && entropies_of(end.waves)[j] == 0 by {
            lemma_entropy(end.waves[j]);
            lemma_resolved_or_undecided(end.waves[j]);
        }
    }
}

/// The positional rule is symmetric.
pub proof fn lemma_positional_is_symmetric(side: nat, a: int, b: int)
    ensures
        positional(side, a, b) == positional(side, b, a),
{
}

/// Normalization keeps the order of the weights.
pub proof fn lemma_normalization_keeps_order(w: Seq<u32>, a: int, b: int)
    requires
        total(w) > 0,
        0 <= a < w.len(),
        0 <= b < w.len(),
        w[a] <= w[b],
    ensures
        normalized(w)[a] <= normalized(w)[b],
{
    lemma_normalized(w);
    lemma_scaled_monotonic(w[a], w[b], total(w));
}

/// A complete run only removes states. Where it meets no contradiction,
/// every cell that it picked holds at the end the state that it was resolved
/// to, and every state left in a cell that touches it may stand next to
/// that state.
pub proof fn lemma_picks_are_respected(
    waves: Seq<Seq<u32>>,
    states: nat,
    width: nat,
    rule: Adjacency,
)
    requires
        is_live(waves, states),
    ensures
        is_narrowed(waves, collapsed(waves, width, rule).waves),
        collapsed(waves, width, rule).picks.len() == collapsed(waves, width, rule).steps,
        collapsed(waves, width, rule).stuck is None ==> forall|p: int|
            0 <= p < collapsed(waves, width, rule).picks.len() ==> is_settled(
                collapsed(waves, width, rule).waves,
                width,
                rule,
                (#[trigger] collapsed(waves, width, rule).picks[p]).0,
                collapsed(waves, width, rule).picks[p].1,
            ),
{
    lemma_open_cells_bound(waves);
    lemma_run_settles(waves, states, width, rule, waves.len());
}

/// Next to a settled cell only states that the rule allows are left: where
/// a cell that touches it is resolved, its state may stand next to the
/// state of the settled cell.
pub proof fn lemma_settled_neighbours(
    waves: Seq<Seq<u32>>,
    width: nat,
    rule: Adjacency,
    i: int,
    s: int,
    j: int,
    t: int,
)
    requires
        is_settled(waves, width, rule, i, s),
        0 <= j < waves.len(),
        is_near(width, i, j),
        is_only_state(waves[j], t),
    ensures
        rule.allows(s, t),
{
    assert(waves[j][t] > 0);
}

} // verus!
