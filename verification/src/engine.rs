//! What the engine computes, stated over the weights of the cells.
//!
//! A grid is seen here as the sequence of its waves, each the sequence of its
//! weights. A rule says which states may stand next to each other.

use crate::adjacency::Adjacency;
use crate::grid::is_near;
use crate::weight::{
    entropy_of, first_max, is_only_state, is_resolved, is_undecided, lemma_entropy,
    lemma_first_max, lemma_normalized, lemma_one_hot, lemma_resolved_or_undecided,
    lemma_total_zero, lemma_weight_bounds, normalized, one_hot, total, two_states,
};
use vstd::prelude::*;

verus! {

/// The wave `w` with every state removed that may not stand next to state `s`.
pub open spec fn masked(w: Seq<u32>, rule: Adjacency, s: int) -> Seq<u32> {
    Seq::new(
        w.len(),
        |k: int|
            if rule.allows(s, k) {
                w[k]
            } else {
                0u32
            },
    )
}

/// The wave `w` after a cell next to it was resolved to state `s`: masked,
/// then normalized.
pub open spec fn constrained(w: Seq<u32>, rule: Adjacency, s: int) -> Seq<u32> {
    normalized(masked(w, rule, s))
}

/// Cell `j` is cell `i` or touches it, and no state of it may stand next to
/// state `s`.
pub open spec fn is_blocked(
    waves: Seq<Seq<u32>>,
    width: nat,
    rule: Adjacency,
    i: int,
    s: int,
    j: int,
) -> bool {
    &&& 0 <= j < waves.len()
    &&& is_near(width, i, j)
    &&& total(masked(waves[j], rule, s)) == 0
}

/// The first blocked cell at or after `start`, or the number of cells if
/// there is none.
pub open spec fn frontier_from(
    waves: Seq<Seq<u32>>,
    width: nat,
    rule: Adjacency,
    i: int,
    s: int,
    start: int,
) -> int
    decreases waves.len() - start,
{
    if start >= waves.len() {
        waves.len() as int
    } else if is_blocked(waves, width, rule, i, s, start) {
        start
    } else {
        frontier_from(waves, width, rule, i, s, start + 1)
    }
}

/// Where the propagation from cell `i`, resolved to state `s`, stops: the
/// first blocked cell, or the number of cells if none is blocked.
pub open spec fn frontier(waves: Seq<Seq<u32>>, width: nat, rule: Adjacency, i: int, s: int) -> int {
    frontier_from(waves, width, rule, i, s, 0)
}

/// The grid after the propagation from cell `i`, resolved to state `s`. Cell
/// `i` and the cells that touch it are constrained, in the order of their
/// indices, up to the first of them that is blocked; that cell and all
/// others are left as they are.
pub open spec fn propagated(
    waves: Seq<Seq<u32>>,
    width: nat,
    rule: Adjacency,
    i: int,
    s: int,
) -> Seq<Seq<u32>> {
    Seq::new(
        waves.len(),
        |j: int|
            if is_near(width, i, j) && j < frontier(waves, width, rule, i, s) {
                constrained(waves[j], rule, s)
            } else {
                waves[j]
            },
    )
}

/// The entropy of each wave.
pub open spec fn entropies_of(waves: Seq<Seq<u32>>) -> Seq<u32> {
    Seq::new(waves.len(), |j: int| entropy_of(waves[j]) as u32)
}

/// Cell `i` has the least positive entropy, and is the first cell that has it.
pub open spec fn is_selected(e: Seq<u32>, i: int) -> bool {
    &&& 0 <= i < e.len()
    &&& e[i] > 0
    &&& forall|j: int| 0 <= j < e.len() && e[j] > 0 ==> e[i] <= e[j]
    &&& forall|j: int| 0 <= j < i && e[j] > 0 ==> e[i] < e[j]
}

/// The cell to resolve next, if any cell has a positive entropy.
pub open spec fn selected(e: Seq<u32>) -> Option<int> {
    if exists|i: int| is_selected(e, i) {
        Some(choose|i: int| is_selected(e, i))
    } else {
        None
    }
}

/// Every wave has `states` weights, and they do not sum to 0.
pub open spec fn is_live(waves: Seq<Seq<u32>>, states: nat) -> bool {
    forall|j: int|
        0 <= j < waves.len() ==> (#[trigger] waves[j]).len() == states && total(waves[j]) > 0
}

/// The grid with cell `i` observed: its wave has weight 1 at its first
/// largest weight and 0 elsewhere.
pub open spec fn observed(waves: Seq<Seq<u32>>, i: int) -> Seq<Seq<u32>> {
    waves.update(i, one_hot(waves[i].len(), first_max(waves[i])))
}

/// The grid after one resolution of cell `i`: the cell is observed, and the
/// state found is propagated from it.
pub open spec fn resolved(waves: Seq<Seq<u32>>, width: nat, rule: Adjacency, i: int) -> Seq<
    Seq<u32>,
> {
    propagated(observed(waves, i), width, rule, i, first_max(waves[i]))
}

/// Where the propagation of the resolution of cell `i` stops.
pub open spec fn resolved_frontier(waves: Seq<Seq<u32>>, width: nat, rule: Adjacency, i: int) -> int {
    frontier(observed(waves, i), width, rule, i, first_max(waves[i]))
}

/// How a run ended.
pub struct Run {
    /// The waves at the end.
    pub waves: Seq<Seq<u32>>,
    /// The number of resolutions made.
    pub steps: nat,
    /// The cell at which a contradiction was found, if one was.
    pub stuck: Option<int>,
    /// The resolutions made, in their order: each a cell and the state that
    /// it was resolved to.
    pub picks: Seq<(int, int)>,
}

/// The run of at most `limit` resolutions from the given waves: while some
/// cell has a positive entropy, the selected cell is resolved; the run ends
/// at the first contradiction.
pub open spec fn run(waves: Seq<Seq<u32>>, width: nat, rule: Adjacency, limit: nat) -> Run
    decreases limit,
{
    match selected(entropies_of(waves)) {
        None => Run { waves, steps: 0, stuck: None, picks: Seq::empty() },
        Some(i) => if limit == 0 {
            Run { waves, steps: 0, stuck: None, picks: Seq::empty() }
        } else {
            let pick = (i, first_max(waves[i]));
            let next = resolved(waves, width, rule, i);
            let f = resolved_frontier(waves, width, rule, i);
            if f < waves.len() {
                Run { waves: next, steps: 1, stuck: Some(f), picks: seq![pick] }
            } else {
                let rest = run(next, width, rule, (limit - 1) as nat);
                Run {
                    waves: rest.waves,
                    steps: rest.steps + 1,
                    stuck: rest.stuck,
                    picks: seq![pick] + rest.picks,
                }
            }
        },
    }
}

/// The complete run from the given waves. No cell is resolved twice, so the
/// number of cells limits the number of resolutions.
pub open spec fn collapsed(waves: Seq<Seq<u32>>, width: nat, rule: Adjacency) -> Run {
    run(waves, width, rule, waves.len())
}

/// The number of undecided waves.
pub open spec fn open_cells(waves: Seq<Seq<u32>>) -> nat
    decreases waves.len(),
{
    if waves.len() == 0 {
        0
    } else {
        open_cells(waves.drop_last()) + if is_undecided(waves.last()) {
            1nat
        } else {
            0nat
        }
    }
}

/// The first dead wave, one whose weights sum to 0, at or after `start`; the
/// number of waves if there is none.
pub open spec fn first_dead_from(waves: Seq<Seq<u32>>, start: int) -> int
    decreases waves.len() - start,
{
    if start >= waves.len() {
        waves.len() as int
    } else if total(waves[start]) == 0 {
        start
    } else {
        first_dead_from(waves, start + 1)
    }
}

/// The first dead wave, or the number of waves if there is none.
pub open spec fn first_dead(waves: Seq<Seq<u32>>) -> int {
    first_dead_from(waves, 0)
}

/// Where the frontier lies: at or after `start`, on a blocked cell unless it
/// is the number of cells, and behind every cell from `start` on that is not
/// blocked.
pub proof fn lemma_frontier_from(
    waves: Seq<Seq<u32>>,
    width: nat,
    rule: Adjacency,
    i: int,
    s: int,
    start: int,
)
    requires
        0 <= start <= waves.len(),
    ensures
        start <= frontier_from(waves, width, rule, i, s, start) <= waves.len(),
        frontier_from(waves, width, rule, i, s, start) < waves.len() ==> is_blocked(
            waves,
            width,
            rule,
            i,
            s,
            frontier_from(waves, width, rule, i, s, start),
        ),
        forall|j: int|
            start <= j < frontier_from(waves, width, rule, i, s, start) ==> !is_blocked(
                waves,
                width,
                rule,
                i,
                s,
                j,
            ),
    decreases waves.len() - start,
{
    if start < waves.len() && !is_blocked(waves, width, rule, i, s, start) {
        lemma_frontier_from(waves, width, rule, i, s, start + 1);
    }
}

/// The frontier is the only place that is blocked, or is the end, with no
/// blocked cell before it.
pub proof fn lemma_frontier_is(
    waves: Seq<Seq<u32>>,
    width: nat,
    rule: Adjacency,
    i: int,
    s: int,
    f: int,
)
    requires
        0 <= f <= waves.len(),
        f < waves.len() ==> is_blocked(waves, width, rule, i, s, f),
        forall|j: int| 0 <= j < f ==> !is_blocked(waves, width, rule, i, s, j),
    ensures
        frontier(waves, width, rule, i, s) == f,
{
    lemma_frontier_from(waves, width, rule, i, s, 0);
    let g = frontier(waves, width, rule, i, s);
    if g < f {
        assert(!is_blocked(waves, width, rule, i, s, g));
    }
}

/// Where the first dead wave lies.
pub proof fn lemma_first_dead_from(waves: Seq<Seq<u32>>, start: int)
    requires
        0 <= start <= waves.len(),
    ensures
        start <= first_dead_from(waves, start) <= waves.len(),
        first_dead_from(waves, start) < waves.len() ==> total(
            waves[first_dead_from(waves, start)],
        ) == 0,
        forall|j: int| start <= j < first_dead_from(waves, start) ==> total(#[trigger] waves[j]) > 0,
    decreases waves.len() - start,
{
    if start < waves.len() && total(waves[start]) != 0 {
        lemma_first_dead_from(waves, start + 1);
    }
}

/// The first dead wave is the only dead wave with no dead wave before it.
pub proof fn lemma_first_dead_is(waves: Seq<Seq<u32>>, f: int)
    requires
        0 <= f <= waves.len(),
        f < waves.len() ==> total(waves[f]) == 0,
        forall|j: int| 0 <= j < f ==> total(#[trigger] waves[j]) > 0,
    ensures
        first_dead(waves) == f,
{
    lemma_first_dead_from(waves, 0);
    let g = first_dead(waves);
    if g < f {
        assert(total(waves[g]) > 0);
    }
}

/// At most one cell is selected.
pub proof fn lemma_selected_unique(e: Seq<u32>, a: int, b: int)
    requires
        is_selected(e, a),
        is_selected(e, b),
    ensures
        a == b,
{
    if a < b {
        assert(e[b] < e[a]);
        assert(e[a] <= e[b]);
    } else if b < a {
        assert(e[a] < e[b]);
        assert(e[b] <= e[a]);
    }
}

/// The cell that is selected is `selected`.
pub proof fn lemma_selected_is(e: Seq<u32>, i: int)
    requires
        is_selected(e, i),
    ensures
        selected(e) == Some(i),
{
    let k = choose|k: int| is_selected(e, k);
    lemma_selected_unique(e, i, k);
}

/// No cell is selected where no entropy is positive.
pub proof fn lemma_selected_none(e: Seq<u32>)
    requires
        forall|j: int| 0 <= j < e.len() ==> e[j] == 0,
    ensures
        selected(e) is None,
{
}

/// Masking keeps the length, raises no weight, and leaves positive exactly
/// the positive weights of the states that the rule allows.
pub proof fn lemma_masked(w: Seq<u32>, rule: Adjacency, s: int)
    ensures
        masked(w, rule, s).len() == w.len(),
        forall|k: int| 0 <= k < w.len() ==> masked(w, rule, s)[k] <= w[k],
        forall|k: int|
            0 <= k < w.len() ==> (masked(w, rule, s)[k] > 0 <==> w[k] > 0 && rule.allows(s, k)),
        is_undecided(masked(w, rule, s)) ==> is_undecided(w),
{
    let m = masked(w, rule, s);
    if is_undecided(m) {
        let (a, b) = choose|a: int, b: int| two_states(m, a, b);
        assert(two_states(w, a, b));
    }
}

/// Constraining a wave that is not blocked keeps the length and a positive
/// sum, leaves positive exactly the positive weights of the states that the
/// rule allows, and makes no decided wave undecided.
pub proof fn lemma_constrained(w: Seq<u32>, rule: Adjacency, s: int)
    requires
        total(masked(w, rule, s)) > 0,
    ensures
        constrained(w, rule, s).len() == w.len(),
        total(constrained(w, rule, s)) > 0,
        forall|k: int|
            0 <= k < w.len() ==> (constrained(w, rule, s)[k] > 0 <==> w[k] > 0 && rule.allows(
                s,
                k,
            )),
        is_undecided(constrained(w, rule, s)) ==> is_undecided(w),
{
    let m = masked(w, rule, s);
    lemma_masked(w, rule, s);
    lemma_normalized(m);
}

/// The number of undecided waves is at most the number of waves.
pub proof fn lemma_open_cells_bound(waves: Seq<Seq<u32>>)
    ensures
        open_cells(waves) <= waves.len(),
    decreases waves.len(),
{
    if waves.len() > 0 {
        lemma_open_cells_bound(waves.drop_last());
    }
}

/// Where no wave becomes undecided, the number of undecided waves does not grow.
pub proof fn lemma_open_cells_monotonic(before: Seq<Seq<u32>>, after: Seq<Seq<u32>>)
    requires
        before.len() == after.len(),
        forall|j: int| 0 <= j < after.len() && is_undecided(after[j]) ==> is_undecided(before[j]),
    ensures
        open_cells(after) <= open_cells(before),
    decreases before.len(),
{
    if before.len() > 0 {
        let b = before.drop_last();
        let a = after.drop_last();
        assert forall|j: int| 0 <= j < a.len() && is_undecided(a[j]) implies is_undecided(b[j]) by {
            assert(a[j] == after[j]);
            assert(b[j] == before[j]);
        }
        lemma_open_cells_monotonic(b, a);
        assert(after.last() == after[after.len() - 1]);
        assert(before.last() == before[before.len() - 1]);
    }
}

/// Where no wave becomes undecided and one undecided wave becomes decided,
/// the number of undecided waves goes down.
pub proof fn lemma_open_cells_shrink(before: Seq<Seq<u32>>, after: Seq<Seq<u32>>, i: int)
    requires
        before.len() == after.len(),
        forall|j: int| 0 <= j < after.len() && is_undecided(after[j]) ==> is_undecided(before[j]),
        0 <= i < before.len(),
        is_undecided(before[i]),
        !is_undecided(after[i]),
    ensures
        open_cells(after) < open_cells(before),
    decreases before.len(),
{
    let b = before.drop_last();
    let a = after.drop_last();
    let last = before.len() - 1;
    assert forall|j: int| 0 <= j < a.len() && is_undecided(a[j]) implies is_undecided(b[j]) by {
        assert(a[j] == after[j]);
        assert(b[j] == before[j]);
    }
    assert(after.last() == after[last]);
    assert(before.last() == before[last]);
    if i == last {
        lemma_open_cells_monotonic(b, a);
    } else {
        assert(a[i] == after[i]);
        assert(b[i] == before[i]);
        lemma_open_cells_shrink(b, a, i);
    }
}

/// One resolution of an undecided cell of a live grid: the grid stays live,
/// no wave becomes undecided, and the cell itself is decided afterwards, so
/// that fewer waves are undecided than before.
pub proof fn lemma_resolved(
    waves: Seq<Seq<u32>>,
    states: nat,
    width: nat,
    rule: Adjacency,
    i: int,
)
    requires
        is_live(waves, states),
        0 <= i < waves.len(),
        is_undecided(waves[i]),
    ensures
        resolved(waves, width, rule, i).len() == waves.len(),
        is_live(resolved(waves, width, rule, i), states),
        forall|j: int|
            0 <= j < waves.len() && is_undecided(#[trigger] resolved(waves, width, rule, i)[j])
                ==> is_undecided(waves[j]),
        !is_undecided(resolved(waves, width, rule, i)[i]),
        open_cells(resolved(waves, width, rule, i)) < open_cells(waves),
        0 <= resolved_frontier(waves, width, rule, i) <= waves.len(),
{
    let s = first_max(waves[i]);
    let obs = observed(waves, i);
    let next = resolved(waves, width, rule, i);
    let f = resolved_frontier(waves, width, rule, i);
    assert(waves[i].len() == states);
    assert(states > 0) by {
        let (a, b) = choose|a: int, b: int| two_states(waves[i], a, b);
    }
    lemma_first_max(waves[i]);
    lemma_one_hot(states, s);
    lemma_frontier_from(obs, width, rule, i, s, 0);
    assert(!is_undecided(obs[i])) by {
        lemma_resolved_or_undecided(obs[i]);
    }
    assert forall|j: int| 0 <= j < waves.len() implies (#[trigger] next[j]).len() == states
        && total(next[j]) > 0 && (is_undecided(next[j]) ==> is_undecided(waves[j]))
        && !is_undecided(next[i]) by {
        assert(obs[j].len() == states && total(obs[j]) > 0);
        if is_near(width, i, j) && j < f {
            assert(!is_blocked(obs, width, rule, i, s, j));
            lemma_constrained(obs[j], rule, s);
        }
        if is_near(width, i, i) && i < f {
            assert(!is_blocked(obs, width, rule, i, s, i));
            lemma_constrained(obs[i], rule, s);
        }
    }
    lemma_open_cells_shrink(waves, next, i);
}

/// A run from a live grid ends with a live grid of the same size. With a
/// limit of at least the number of undecided waves, it makes no more
/// resolutions than that number, and it ends with a contradiction or with no
/// undecided wave.
pub proof fn lemma_run(waves: Seq<Seq<u32>>, states: nat, width: nat, rule: Adjacency, limit: nat)
    requires
        is_live(waves, states),
        open_cells(waves) <= limit,
    ensures
        run(waves, width, rule, limit).waves.len() == waves.len(),
        is_live(run(waves, width, rule, limit).waves, states),
        run(waves, width, rule, limit).steps <= open_cells(waves),
        run(waves, width, rule, limit).stuck matches Some(f) ==> 0 <= f < waves.len(),
        run(waves, width, rule, limit).stuck is None ==> forall|j: int|
            0 <= j < waves.len() ==> is_resolved(#[trigger] run(waves, width, rule, limit).waves[j]),
    decreases limit,
{
    let e = entropies_of(waves);
    match selected(e) {
        None => {
            assert forall|j: int| 0 <= j < waves.len() implies is_resolved(#[trigger] waves[j]) by {
                lemma_selection_exists(e);
                lemma_entropy(waves[j]);
                assert(e[j] == 0);
                lemma_resolved_or_undecided(waves[j]);
            }
        },
        Some(i) => {
            assert(is_selected(e, i));
            lemma_entropy(waves[i]);
            lemma_resolved(waves, states, width, rule, i);
            let next = resolved(waves, width, rule, i);
            let f = resolved_frontier(waves, width, rule, i);
            if f >= waves.len() {
                lemma_run(next, states, width, rule, (limit - 1) as nat);
            }
        },
    }
}

/// Some cell is selected as soon as one entropy is positive.
pub proof fn lemma_selection_exists(e: Seq<u32>)
    ensures
        selected(e) is None ==> forall|j: int| 0 <= j < e.len() ==> e[j] == 0,
    decreases e.len(),
{
    if e.len() > 0 && selected(e) is None {
        let v = e.drop_last();
        let last = e.len() - 1;
        lemma_selection_exists(v);
        assert(forall|j: int| 0 <= j < v.len() ==> v[j] == e[j]);
        match selected(v) {
            None => {
                if e[last] > 0 {
                    assert(is_selected(e, last));
                }
            },
            Some(i) => {
                assert(is_selected(v, i));
                if e[last] > 0 && e[last] < e[i] {
                    assert(is_selected(e, last));
                } else {
                    assert(is_selected(e, i));
                }
            },
        }
    }
}

/// Cell `i` holds state `s` and nothing else, and every state that is left
/// in the cell itself or in a cell that touches it may stand next to `s`.
pub open spec fn is_settled(waves: Seq<Seq<u32>>, width: nat, rule: Adjacency, i: int, s: int) -> bool {
    &&& 0 <= i < waves.len()
    &&& is_only_state(waves[i], s)
    &&& forall|j: int, k: int|
        0 <= j < waves.len() && is_near(width, i, j) && 0 <= k < waves[j].len() && (
        #[trigger] waves[j][k]) > 0 ==> rule.allows(s, k)
}

/// The grid `after` has the waves of the grid `before` with some states
/// removed: no wave and no weight is added or removed, and a weight that is
/// 0 before is 0 after.
pub open spec fn is_narrowed(before: Seq<Seq<u32>>, after: Seq<Seq<u32>>) -> bool {
    &&& after.len() == before.len()
    &&& forall|j: int| 0 <= j < before.len() ==> (#[trigger] after[j]).len() == before[j].len()
    &&& forall|j: int, k: int|
        0 <= j < before.len() && 0 <= k < before[j].len() && (#[trigger] after[j][k]) > 0
            ==> before[j][k] > 0
}

/// A resolution only removes states.
pub proof fn lemma_resolved_narrows(
    waves: Seq<Seq<u32>>,
    states: nat,
    width: nat,
    rule: Adjacency,
    i: int,
)
    requires
        is_live(waves, states),
        0 <= i < waves.len(),
    ensures
        is_narrowed(waves, resolved(waves, width, rule, i)),
{
    let s = first_max(waves[i]);
    let obs = observed(waves, i);
    let next = resolved(waves, width, rule, i);
    let f = resolved_frontier(waves, width, rule, i);
    assert(waves[i].len() == states && total(waves[i]) > 0);
    lemma_total_zero(waves[i]);
    lemma_first_max(waves[i]);
    lemma_weight_bounds(waves[i]);
    lemma_frontier_from(obs, width, rule, i, s, 0);
    assert forall|j: int| 0 <= j < waves.len() implies (#[trigger] next[j]).len()
        == waves[j].len() && (forall|k: int|
        0 <= k < waves[j].len() && (#[trigger] next[j][k]) > 0 ==> waves[j][k] > 0) by {
        assert(waves[j].len() == states);
        if is_near(width, i, j) && j < f {
            assert(!is_blocked(obs, width, rule, i, s, j));
            lemma_constrained(obs[j], rule, s);
        }
        assert forall|k: int| 0 <= k < waves[j].len() && (#[trigger] next[j][k]) > 0 implies waves[j][k]
            > 0 by {
            assert(obs[j][k] > 0);
            if j == i {
                let p = choose|p: int| 0 <= p < waves[i].len() && waves[i][p] != 0;
                assert(waves[i][p] <= waves[i][s]);
            }
        }
    }
}

/// A resolution that meets no contradiction settles its cell.
pub proof fn lemma_resolved_settles(
    waves: Seq<Seq<u32>>,
    states: nat,
    width: nat,
    rule: Adjacency,
    i: int,
)
    requires
        is_live(waves, states),
        0 <= i < waves.len(),
        states > 0,
        resolved_frontier(waves, width, rule, i) >= waves.len(),
    ensures
        is_settled(resolved(waves, width, rule, i), width, rule, i, first_max(waves[i])),
{
    let s = first_max(waves[i]);
    let obs = observed(waves, i);
    let next = resolved(waves, width, rule, i);
    assert(waves[i].len() == states);
    lemma_first_max(waves[i]);
    lemma_one_hot(states, s);
    lemma_frontier_from(obs, width, rule, i, s, 0);
    assert forall|j: int| 0 <= j < waves.len() && is_near(width, i, j) implies (forall|k: int|
        0 <= k < next[j].len() ==> ((#[trigger] next[j][k]) > 0 <==> obs[j][k] > 0 && rule.allows(
            s,
            k,
        ))) && total(next[j]) > 0 && next[j].len() == obs[j].len() by {
        assert(!is_blocked(obs, width, rule, i, s, j));
        lemma_constrained(obs[j], rule, s);
    }
    assert(is_near(width, i, i));
    lemma_total_zero(next[i]);
    let p = choose|p: int| 0 <= p < next[i].len() && next[i][p] != 0;
    assert(next[i][p] > 0);
    assert(obs[i][p] > 0);
    assert(p == s);
    assert(is_only_state(next[i], s)) by {
        assert forall|k: int| 0 <= k < next[i].len() && k != s implies next[i][k] == 0 by {
            if next[i][k] > 0 {
                assert(obs[i][k] > 0);
            }
        }
    }
}

/// A settled cell stays settled while states are only removed and the cell
/// keeps a state.
pub proof fn lemma_settled_stays(
    before: Seq<Seq<u32>>,
    after: Seq<Seq<u32>>,
    width: nat,
    rule: Adjacency,
    i: int,
    s: int,
)
    requires
        is_settled(before, width, rule, i, s),
        is_narrowed(before, after),
        total(after[i]) > 0,
    ensures
        is_settled(after, width, rule, i, s),
{
    lemma_total_zero(after[i]);
    let p = choose|p: int| 0 <= p < after[i].len() && after[i][p] != 0;
    assert(after[i][p] > 0);
    assert(before[i][p] > 0);
    assert forall|k: int| 0 <= k < after[i].len() && k != s implies after[i][k] == 0 by {
        if after[i][k] > 0 {
            assert(before[i][k] > 0);
        }
    }
    assert forall|j: int, k: int|
        0 <= j < after.len() && is_near(width, i, j) && 0 <= k < after[j].len() && (
        #[trigger] after[j][k]) > 0 implies rule.allows(s, k) by {
        assert(before[j][k] > 0);
    }
}

/// A run only removes states, it makes as many picks as resolutions, and at
/// the end of a run that met no contradiction every picked cell is settled
/// on the state that it was resolved to.
pub proof fn lemma_run_settles(
    waves: Seq<Seq<u32>>,
    states: nat,
    width: nat,
    rule: Adjacency,
    limit: nat,
)
    requires
        is_live(waves, states),
        open_cells(waves) <= limit,
    ensures
        is_narrowed(waves, run(waves, width, rule, limit).waves),
        run(waves, width, rule, limit).picks.len() == run(waves, width, rule, limit).steps,
        run(waves, width, rule, limit).stuck is None ==> forall|p: int|
            0 <= p < run(waves, width, rule, limit).picks.len() ==> is_settled(
                run(waves, width, rule, limit).waves,
                width,
                rule,
                (#[trigger] run(waves, width, rule, limit).picks[p]).0,
                run(waves, width, rule, limit).picks[p].1,
            ),
    decreases limit,
{
    let e = entropies_of(waves);
    let end = run(waves, width, rule, limit);
    match selected(e) {
        None => {},
        Some(i) => {
            assert(is_selected(e, i));
            lemma_entropy(waves[i]);
            lemma_resolved(waves, states, width, rule, i);
            lemma_resolved_narrows(waves, states, width, rule, i);
            let s = first_max(waves[i]);
            let next = resolved(waves, width, rule, i);
            let f = resolved_frontier(waves, width, rule, i);
            if f >= waves.len() {
                let rest = run(next, width, rule, (limit - 1) as nat);
                lemma_run_settles(next, states, width, rule, (limit - 1) as nat);
                lemma_run(next, states, width, rule, (limit - 1) as nat);
                assert(is_narrowed(waves, end.waves)) by {
                    assert forall|j: int, k: int|
                        0 <= j < waves.len() && 0 <= k < waves[j].len() && (
                        #[trigger] end.waves[j][k]) > 0 implies waves[j][k] > 0 by {
                        assert(next[j][k] > 0);
                    }
                }
                if end.stuck is None {
                    assert(waves[i].len() == states);
                    lemma_resolved_settles(waves, states, width, rule, i);
                    lemma_settled_stays(next, rest.waves, width, rule, i, s);
                    assert forall|p: int| 0 <= p < end.picks.len() implies is_settled(
                        end.waves,
                        width,
                        rule,
                        (#[trigger] end.picks[p]).0,
                        end.picks[p].1,
                    ) by {
                        if p > 0 {
                            assert(end.picks[p] == rest.picks[p - 1]);
                        }
                    }
                }
            }
        },
    }
}

} // verus!
