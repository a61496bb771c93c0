//! The model: the grid of waves and the collapse that resolves it.

use crate::adjacency::{is_square, positional, positional_neighbors, side_of, Adjacency};
use crate::color::Color;
use crate::engine::{
    collapsed, constrained, entropies_of, first_dead, frontier, is_blocked, is_live, is_selected,
    lemma_constrained, lemma_first_dead_from, lemma_frontier_is, lemma_open_cells_bound,
    lemma_resolved, lemma_run, lemma_selected_is, lemma_selected_none, masked, observed,
    open_cells, propagated, resolved, run, selected, Run,
};
use crate::error::CollapseError;
use crate::grid::{
    cell_at, col_of, high_of, is_near, lemma_cell_at, lemma_cell_order, lemma_coordinates,
    lemma_in_grid, low_of, row_of, span,
};
use crate::roots::root;
use crate::wave::{calculate_entropies, is_fresh, normalize, weights_of, Wave};
use crate::weight::{
    entropy_of, first_max, is_resolved, lemma_entropy, lemma_one_hot,
    lemma_resolved_or_undecided, one_hot, total,
};
use rand::rngs::StdRng;
use vstd::prelude::*;

verus! {

/// The payload of each state of a catalog.
pub open spec fn payloads_of(states: Seq<Vec<Color>>) -> Seq<Seq<Color>> {
    Seq::new(states.len(), |s: int| states[s]@)
}

/// What a model holds.
pub struct ModelView {
    /// The weights of each cell.
    pub waves: Seq<Seq<u32>>,
    /// The entropy of each cell.
    pub entropies: Seq<u32>,
    /// The payload of each base state.
    pub catalog: Seq<Seq<Color>>,
    /// Which states may stand next to each other.
    pub rule: Adjacency,
    /// The width of the grid.
    pub width: nat,
    /// The height of the grid.
    pub height: nat,
    /// The side of the square of pixels that each payload holds.
    pub tile: nat,
    /// The cell at which the last collapse met a contradiction.
    pub failed: Option<usize>,
}

impl ModelView {
    /// The number of base states.
    pub open spec fn states(self) -> nat {
        self.catalog.len()
    }

    /// The number of cells.
    pub open spec fn cells(self) -> nat {
        self.width * self.height
    }

    /// One wave and one entropy for each cell, one weight for each state in
    /// each wave, no wave that sums to 0, and each entropy that of its wave.
    pub open spec fn is_valid(self) -> bool {
        &&& self.waves.len() == self.cells()
        &&& self.entropies == entropies_of(self.waves)
        &&& is_live(self.waves, self.states())
        &&& self.rule.fits(self.states())
        &&& self.failed matches Some(cell) ==> cell < self.cells()
    }
}

/// Where a model stands.
#[derive(Clone, Copy, Debug, PartialEq, Eq, Structural)]
pub enum Status {
    /// Some cell is undecided.
    Running,
    /// Every cell is resolved.
    Done,
    /// No state is left for this cell.
    Contradiction { cell: usize },
}

/// A grid of waves over a catalog of base states.
pub struct Model {
    waves: Vec<Wave>,
    entropies: Vec<u32>,
    base_states: Vec<Vec<Color>>,
    rule: Adjacency,
    x: usize,
    y: usize,
    tile: usize,
    failed: Option<usize>,
}

impl View for Model {
    type V = ModelView;

    closed spec fn view(&self) -> ModelView {
        ModelView {
            waves: weights_of(self.waves@),
            entropies: self.entropies@,
            catalog: payloads_of(self.base_states@),
            rule: self.rule,
            width: self.x as nat,
            height: self.y as nat,
            tile: self.tile as nat,
            failed: self.failed,
        }
    }
}

/// What a collapse returns for a run: the number of resolutions, or the
/// contradiction at which the run ended.
pub open spec fn is_outcome_of(res: Result<usize, CollapseError>, run: Run) -> bool {
    match res {
        Ok(steps) => run.stuck is None && steps == run.steps,
        Err(CollapseError::Contradiction { cell }) => run.stuck == Some(cell as int),
        Err(_) => false,
    }
}

/// The cell at which a run ended with a contradiction, as a model records it.
pub open spec fn is_failure_of(failed: Option<usize>, run: Run) -> bool {
    match failed {
        None => run.stuck is None,
        Some(cell) => run.stuck == Some(cell as int),
    }
}

/// Why a collapse of `x` by `y` cells from the given waves is refused, if it
/// is: the grid has too many cells, the waves do not fit the grid and the
/// catalog, or a wave sums to 0, the first such wave being the contradiction.
pub open spec fn is_refusal_of(
    refusal: Option<CollapseError>,
    model: ModelView,
    x: usize,
    y: usize,
    waves: Seq<Seq<u32>>,
) -> bool {
    if x * y > usize::MAX {
        refusal == Some(CollapseError::TooLarge)
    } else if !is_shaped(waves, (x * y) as nat, model.states()) {
        refusal == Some(CollapseError::Mismatch)
    } else if first_dead(waves) < waves.len() {
        refusal matches Some(CollapseError::Contradiction { cell }) && cell == first_dead(waves)
    } else {
        refusal is None
    }
}

/// The model `after` and the result `res` are what a collapse of `x` by `y`
/// cells from the given waves makes of the model `before`. Where the collapse
/// is refused, the result is the refusal and the model is as before.
/// Otherwise the model holds the new grid as the complete run from these
/// waves leaves it, with the entropies of its waves and the contradiction
/// that the run met, and the result is the outcome of that run.
pub open spec fn is_collapse_of(
    before: ModelView,
    after: ModelView,
    res: Result<usize, CollapseError>,
    x: usize,
    y: usize,
    waves: Seq<Seq<u32>>,
) -> bool {
    if is_refusal_of(None, before, x, y, waves) {
        let run = collapsed(waves, x as nat, before.rule);
        &&& after == (ModelView {
            waves: run.waves,
            entropies: entropies_of(run.waves),
            width: x as nat,
            height: y as nat,
            failed: after.failed,
            ..before
        })
        &&& is_failure_of(after.failed, run)
        &&& is_outcome_of(res, run)
    } else {
        &&& res matches Err(e)
        &&& is_refusal_of(Some(e), before, x, y, waves)
        &&& after == before
    }
}

/// The waves fit a grid of `cells` cells over `states` states.
pub open spec fn is_shaped(waves: Seq<Seq<u32>>, cells: nat, states: nat) -> bool {
    &&& waves.len() == cells
    &&& forall|j: int| 0 <= j < waves.len() ==> (#[trigger] waves[j]).len() == states
}

impl Model {
    /// The model is consistent.
    pub open spec fn wf(&self) -> bool {
        self@.is_valid()
    }

    /// A model over the given catalog, with the positional rule and a grid
    /// without cells. Each payload is a square of pixels of side `n`.
    pub fn new(base_states: Vec<Vec<Color>>, n: usize) -> (model: Model)
        ensures
            model.wf(),
            model@.catalog == payloads_of(base_states@),
            model@.rule == (Adjacency::Positional { side: root(base_states.len() as nat) as usize }),
            model@.tile == n,
            model@.width == 0,
            model@.height == 0,
            model@.failed is None,
    {
        let rule = Adjacency::positional(base_states.len());
        let model = Model {
            waves: Vec::new(),
            entropies: Vec::new(),
            base_states,
            rule,
            x: 0,
            y: 0,
            tile: n,
            failed: None,
        };
        assert(model@.entropies =~= entropies_of(model@.waves));
        assert(model@.cells() == 0) by (nonlinear_arith)
            requires
                model@.width == 0,
        ;
        model
    }

    /// A model over the given catalog, with the rule that the table gives,
    /// and a grid without cells. There is none where the table does not hold
    /// one row for each state and in each row one entry for each state.
    pub fn with_table(base_states: Vec<Vec<Color>>, n: usize, table: Vec<Vec<bool>>) -> (res:
        Option<Model>)
        ensures
            res is Some <==> is_square(table@, base_states.len() as nat),
            res matches Some(model) ==> {
                &&& model.wf()
                &&& model@.catalog == payloads_of(base_states@)
                &&& model@.rule == (Adjacency::Table { table })
                &&& model@.tile == n
                &&& model@.width == 0
                &&& model@.height == 0
                &&& model@.failed is None
            },
    {
        match Adjacency::table(table, base_states.len()) {
            None => None,
            Some(rule) => {
                let model = Model {
                    waves: Vec::new(),
                    entropies: Vec::new(),
                    base_states,
                    rule,
                    x: 0,
                    y: 0,
                    tile: n,
                    failed: None,
                };
                assert(model@.entropies =~= entropies_of(model@.waves));
                assert(model@.cells() == 0) by (nonlinear_arith)
                    requires
                        model@.width == 0,
                ;
                Some(model)
            },
        }
    }

    /// The width of the grid.
    pub fn width(&self) -> (x: usize)
        ensures
            x == self@.width,
    {
        self.x
    }

    /// The height of the grid.
    pub fn height(&self) -> (y: usize)
        ensures
            y == self@.height,
    {
        self.y
    }

    /// The side of the square of pixels that each payload holds.
    pub fn tile(&self) -> (n: usize)
        ensures
            n == self@.tile,
    {
        self.tile
    }

    /// The waves, cell by cell.
    pub fn waves(&self) -> (waves: &Vec<Wave>)
        ensures
            weights_of(waves@) == self@.waves,
    {
        &self.waves
    }

    /// The entropies, cell by cell.
    pub fn entropies(&self) -> (entropies: &Vec<u32>)
        ensures
            entropies@ == self@.entropies,
    {
        &self.entropies
    }

    /// The catalog of base states.
    pub fn base_states(&self) -> (states: &Vec<Vec<Color>>)
        ensures
            payloads_of(states@) == self@.catalog,
    {
        &self.base_states
    }

    /// The cell at which the last collapse met a contradiction.
    pub fn failed(&self) -> (cell: Option<usize>)
        ensures
            cell == self@.failed,
    {
        self.failed
    }

    /// Where the model stands: at a contradiction if the last collapse met
    /// one, else running while some entropy is positive, else done.
    pub fn status(&self) -> (status: Status)
        ensures
            status == (match self@.failed {
                Some(cell) => Status::Contradiction { cell },
                None => if exists|j: int| 0 <= j < self@.entropies.len() && self@.entropies[j] > 0 {
                    Status::Running
                } else {
                    Status::Done
                },
            }),
    {
        match self.failed {
            Some(cell) => Status::Contradiction { cell },
            None => if self.check() {
                Status::Running
            } else {
                Status::Done
            },
        }
    }

    /// Whether some cell has a positive entropy.
    pub fn check(&self) -> (open: bool)
        ensures
            open <==> exists|j: int| 0 <= j < self@.entropies.len() && self@.entropies[j] > 0,
    {
        let mut k: usize = 0;
        while k < self.entropies.len()
            invariant
                k <= self.entropies.len(),
                forall|j: int| 0 <= j < k ==> self.entropies[j] == 0,
            decreases self.entropies.len() - k,
        {
            if self.entropies[k] > 0 {
                assert(self@.entropies[k as int] > 0);
                return true;
            }
            k += 1;
        }
        false
    }

    /// The cell to resolve next: the cell of the least positive entropy, the
    /// first of them where several have it; none where no entropy is
    /// positive.
    pub fn find_node(&self) -> (node: Option<usize>)
        ensures
            node is None <==> forall|j: int|
                0 <= j < self@.entropies.len() ==> self@.entropies[j] == 0,
            node matches Some(i) ==> is_selected(self@.entropies, i as int),
            selected(self@.entropies) == (match node {
                Some(i) => Some(i as int),
                None => None,
            }),
    {
        select_next(&self.entropies)
    }

    /// The positional rule over the given catalog: whether `neighbor_state`
    /// may stand next to `state`.
    pub fn valid_neighbor(neighbors: &Vec<Vec<Color>>, state: usize, neighbor_state: usize) -> (ok:
        bool)
        ensures
            ok == positional(root(neighbors.len() as nat), state as int, neighbor_state as int),
    {
        positional_neighbors(side_of(neighbors.len()), state, neighbor_state)
    }

    /// The resolution of cell `i`: the wave with weight 1 at the first
    /// largest weight of the cell's wave and 0 elsewhere, that state, and the
    /// entropy of the new wave, which is 0. The model is not changed.
    pub fn observe(&self, i: usize) -> (res: (Wave, usize, u32))
        requires
            self.wf(),
            i < self@.cells(),
        ensures
            res.1 == first_max(self@.waves[i as int]),
            res.1 < self@.states(),
            res.0@ == one_hot(self@.states(), res.1 as int),
            res.2 == 0,
            res.2 == entropy_of(res.0@),
    {
        let wave = &self.waves[i];
        assert(wave@ == self@.waves[i as int]);
        assert(total(wave@) > 0);
        match wave.heaviest() {
            Some(k) => {
                proof {
                    lemma_one_hot(wave@.len(), k as int);
                }
                (Wave::one_hot(wave.len(), k), k, 0)
            },
            None => {
                proof {
                    assert(total(wave@) == 0);
                }
                (Wave::one_hot(0, 0), 0, 0)
            },
        }
    }

    /// Sets the grid to `x` by `y` cells with fresh random waves, and runs
    /// the collapse on them: see `collapse_from`.
    pub fn collapse(&mut self, x: usize, y: usize, rng: &mut StdRng) -> (res: Result<
        usize,
        CollapseError,
    >)
        requires
            old(self).wf(),
        ensures
            final(self).wf(),
            final(self)@.catalog == old(self)@.catalog,
            final(self)@.rule == old(self)@.rule,
            final(self)@.tile == old(self)@.tile,
            x * y > usize::MAX ==> res == Err::<usize, CollapseError>(CollapseError::TooLarge)
                && final(self)@ == old(self)@,
            x * y <= usize::MAX ==> exists|waves: Seq<Seq<u32>>|
                {
                    &&& is_shaped(waves, (x * y) as nat, old(self)@.states())
                    &&& forall|j: int| 0 <= j < waves.len() ==> is_fresh(#[trigger] waves[j])
                    &&& is_collapse_of(old(self)@, final(self)@, res, x, y, waves)
                },
            res matches Ok(steps) ==> {
                &&& steps <= x * y
                &&& final(self)@.width == x
                &&& final(self)@.height == y
                &&& final(self)@.failed is None
                &&& forall|j: int|
                    0 <= j < x * y ==> final(self)@.entropies[j] == 0 && is_resolved(
                        #[trigger] final(self)@.waves[j],
                    )
            },
    {
        let cells: usize = match x.checked_mul(y) {
            Some(cells) => cells,
            None => {
                return Err(CollapseError::TooLarge);
            },
        };
        let waves = Wave::vec(self.base_states.len(), cells, rng);
        let ghost fresh = weights_of(waves@);
        let res = self.collapse_from(x, y, waves);
        proof {
            assert(is_shaped(fresh, (x * y) as nat, old(self)@.states()));
            assert forall|j: int| 0 <= j < fresh.len() implies is_fresh(#[trigger] fresh[j]) by {
                assert(fresh[j] == waves@[j]@);
            }
            assert(is_collapse_of(old(self)@, self@, res, x, y, fresh));
        }
        res
    }

    /// Sets the grid to `x` by `y` cells with the given waves, and resolves
    /// cell after cell until no cell is undecided or a contradiction is met.
    ///
    /// Nothing is changed where the grid has too many cells, where the waves
    /// do not fit the grid and the catalog, or where one of them sums to 0.
    /// Otherwise the model ends as the complete run from these waves does,
    /// and the number of resolutions made is returned, or the contradiction
    /// at which the run ended.
    pub fn collapse_from(&mut self, x: usize, y: usize, waves: Vec<Wave>) -> (res: Result<
        usize,
        CollapseError,
    >)
        requires
            old(self).wf(),
        ensures
            final(self).wf(),
            final(self)@.catalog == old(self)@.catalog,
            final(self)@.rule == old(self)@.rule,
            final(self)@.tile == old(self)@.tile,
            is_collapse_of(old(self)@, final(self)@, res, x, y, weights_of(waves@)),
            res matches Ok(steps) ==> {
                &&& steps <= x * y
                &&& final(self)@.width == x
                &&& final(self)@.height == y
                &&& final(self)@.failed is None
                &&& forall|j: int|
                    0 <= j < x * y ==> final(self)@.entropies[j] == 0 && is_resolved(
                        #[trigger] final(self)@.waves[j],
                    )
            },
    {
        match self.set_waves(x, y, waves) {
            Err(e) => Err(e),
            Ok(_) => self.run(),
        }
    }

    /// Sets the grid to `x` by `y` cells with the given waves, each with its
    /// entropy. Nothing is changed where the grid has too many cells, where
    /// the waves do not fit the grid and the catalog, or where one of them
    /// sums to 0.
    pub fn set_waves(&mut self, x: usize, y: usize, waves: Vec<Wave>) -> (res: Result<
        (),
        CollapseError,
    >)
        requires
            old(self).wf(),
        ensures
            final(self).wf(),
            match res {
                Ok(_) => {
                    &&& is_refusal_of(None, old(self)@, x, y, weights_of(waves@))
                    &&& final(self)@ == (ModelView {
                        waves: weights_of(waves@),
                        entropies: entropies_of(weights_of(waves@)),
                        width: x as nat,
                        height: y as nat,
                        failed: None,
                        ..old(self)@
                    })
                },
                Err(e) => {
                    &&& is_refusal_of(Some(e), old(self)@, x, y, weights_of(waves@))
                    &&& final(self)@ == old(self)@
                },
            },
    {
        let ghost w0 = weights_of(waves@);
        let ghost before = self@;
        let cells: usize = match x.checked_mul(y) {
            Some(cells) => cells,
            None => {
                return Err(CollapseError::TooLarge);
            },
        };
        if waves.len() != cells {
            return Err(CollapseError::Mismatch);
        }
        let states: usize = self.base_states.len();
        let mut k: usize = 0;
        while k < waves.len()
            invariant
                k <= waves.len(),
                w0 == weights_of(waves@),
                self@ == before,
                before == old(self)@,
                before.is_valid(),
                states == before.states(),
                waves.len() == cells,
                cells == x * y,
                forall|j: int| 0 <= j < k ==> (#[trigger] w0[j]).len() == states,
            decreases waves.len() - k,
        {
            assert(w0[k as int] == waves[k as int]@);
            if waves[k].len() != states {
                assert(!is_shaped(w0, (x * y) as nat, before.states()));
                return Err(CollapseError::Mismatch);
            }
            k += 1;
        }
        let entropies: Vec<u32> = match calculate_entropies(&waves) {
            Ok(entropies) => entropies,
            Err(e) => {
                return Err(e);
            },
        };
        self.x = x;
        self.y = y;
        self.waves = waves;
        self.entropies = entropies;
        self.failed = None;
        proof {
            lemma_first_dead_from(w0, 0);
            assert(is_live(w0, before.states()));
            assert(self@.waves == w0);
        }
        Ok(())
    }

    /// Resolves cell after cell until no cell is undecided or a
    /// contradiction is met: the complete run from the waves as they are.
    /// Returns the number of resolutions made, or the contradiction at which
    /// the run ended, which is recorded.
    pub fn run(&mut self) -> (res: Result<usize, CollapseError>)
        requires
            old(self).wf(),
        ensures
            final(self).wf(),
            final(self)@ == (ModelView {
                waves: collapsed(old(self)@.waves, old(self)@.width, old(self)@.rule).waves,
                entropies: final(self)@.entropies,
                failed: final(self)@.failed,
                ..old(self)@
            }),
            is_outcome_of(res, collapsed(old(self)@.waves, old(self)@.width, old(self)@.rule)),
            res is Ok ==> final(self)@.failed == old(self)@.failed,
            res matches Err(CollapseError::Contradiction { cell }) ==> final(self)@.failed == Some(
                cell,
            ),
            res matches Ok(steps) ==> {
                &&& steps <= old(self)@.cells()
                &&& forall|j: int|
                    0 <= j < old(self)@.cells() ==> final(self)@.entropies[j] == 0 && is_resolved(
                        #[trigger] final(self)@.waves[j],
                    )
            },
    {
        let ghost before = self@;
        let ghost w0 = self@.waves;
        let ghost width = self.x as nat;
        let ghost rule = self.rule;
        let ghost all = collapsed(w0, width, rule);
        let cells: usize = self.waves.len();
        proof {
            lemma_open_cells_bound(w0);
            lemma_run(w0, before.states(), width, rule, w0.len());
        }
        let mut steps: usize = 0;
        loop
            invariant
                self.wf(),
                self@ == (ModelView { waves: self@.waves, entropies: self@.entropies, ..before }),
                before == old(self)@,
                before.is_valid(),
                w0 == before.waves,
                width == before.width,
                rule == before.rule,
                w0.len() == cells,
                cells == before.cells(),
                self@.waves.len() == cells,
                all == collapsed(w0, width, rule),
                steps + open_cells(self@.waves) <= cells,
                all.waves == run(self@.waves, width, rule, (cells - steps) as nat).waves,
                all.stuck == run(self@.waves, width, rule, (cells - steps) as nat).stuck,
                all.steps == steps + run(self@.waves, width, rule, (cells - steps) as nat).steps,
            decreases cells - steps,
        {
            let ghost now = self@.waves;
            let i: usize = match self.find_node() {
                Some(i) => i,
                None => {
                    proof {
                        assert(self@.entropies == entropies_of(now));
                        assert forall|j: int| 0 <= j < cells implies self@.entropies[j] == 0
                            && is_resolved(#[trigger] self@.waves[j]) by {
                            assert(self@.entropies[j] == 0);
                            assert(entropies_of(now)[j] == entropy_of(now[j]) as u32);
                            lemma_entropy(now[j]);
                            assert(total(now[j]) > 0);
                            lemma_resolved_or_undecided(now[j]);
                        }
                    }
                    return Ok(steps);
                },
            };
            proof {
                assert(entropies_of(now)[i as int] == entropy_of(now[i as int]) as u32);
                lemma_entropy(now[i as int]);
                lemma_resolved(now, before.states(), width, rule, i as int);
                lemma_open_cells_bound(now);
            }
            let (wave, state_i, entropy) = self.observe(i);
            self.waves.set(i, wave);
            self.entropies.set(i, entropy);
            proof {
                let seen = observed(now, i as int);
                assert(self@.waves =~= seen);
                assert(self@.entropies =~= entropies_of(seen));
                lemma_one_hot(before.states(), state_i as int);
                assert(is_live(seen, before.states())) by {
                    assert forall|j: int| 0 <= j < seen.len() implies (#[trigger] seen[j]).len()
                        == before.states() && total(seen[j]) > 0 by {
                        if j != i {
                            assert(seen[j] == now[j]);
                        }
                    }
                }
            }
            match self.propagate(i, state_i) {
                Err(e) => {
                    return Err(e);
                },
                Ok(_) => {
                    proof {
                        assert(self@.waves == resolved(now, width, rule, i as int));
                    }
                    steps += 1;
                },
            }
        }
    }

    /// Pushes the resolution of cell `i` to state `state_i` onto the cell
    /// itself and the cells that touch it, in the order of their indices:
    /// each loses the states that may not stand next to `state_i`, is
    /// normalized, and gets its entropy anew. The first of these cells that
    /// would lose every state is a contradiction: it is recorded and
    /// returned, and that cell and the cells after it are left as they are.
    pub fn propagate(&mut self, i: usize, state_i: usize) -> (res: Result<(), CollapseError>)
        requires
            old(self).wf(),
            i < old(self)@.cells(),
        ensures
            final(self).wf(),
            final(self)@ == (ModelView {
                waves: propagated(
                    old(self)@.waves,
                    old(self)@.width,
                    old(self)@.rule,
                    i as int,
                    state_i as int,
                ),
                entropies: final(self)@.entropies,
                failed: final(self)@.failed,
                ..old(self)@
            }),
            res is Ok <==> frontier(
                old(self)@.waves,
                old(self)@.width,
                old(self)@.rule,
                i as int,
                state_i as int,
            ) == old(self)@.cells(),
            res matches Err(e) ==> e matches CollapseError::Contradiction { cell } && cell
                == frontier(
                old(self)@.waves,
                old(self)@.width,
                old(self)@.rule,
                i as int,
                state_i as int,
            ) && final(self)@.failed == Some(cell),
            res is Ok ==> final(self)@.failed == old(self)@.failed,
    {
        let ghost before = self@;
        let ghost w0 = self@.waves;
        let ghost width = self.x as nat;
        let ghost height = self.y as nat;
        let ghost rule = self.rule;
        let ghost s = state_i as int;
        let ghost cell = i as int;
        proof {
            if self.x == 0 {
                assert(self@.cells() == 0) by (nonlinear_arith)
                    requires
                        self@.cells() == self@.width * self@.height,
                        self@.width == 0,
                ;
            }
            lemma_coordinates(width, cell);
            lemma_in_grid(width, height, cell);
        }
        let row: usize = i % self.x;
        let col: usize = i / self.x;
        let (r0, r1) = span(row, self.x);
        let (c0, c1) = span(col, self.y);
        let mut c: usize = c0;
        proof {
            assert forall|j: int| 0 <= j < w0.len() implies !#[trigger] is_passed(
                width,
                cell,
                c0 as int,
                0,
                j,
            ) by {
                lemma_coordinates(width, j);
            }
            assert(self@.waves =~= partly(w0, width, rule, cell, s, c0 as int, 0));
        }
        while c <= c1
            invariant
                c0 <= c <= c1 + 1,
                c1 < self.y,
                r0 <= r1 < self.x,
                r0 == low_of(row as int),
                r1 == high_of(row as int, width as int),
                c0 == low_of(col as int),
                c1 == high_of(col as int, height as int),
                row == row_of(width, cell),
                col == col_of(width, cell),
                0 <= cell < w0.len(),
                width == self.x,
                height == self.y,
                width > 0,
                w0.len() == width * height,
                is_live(w0, before.states()),
                before.is_valid(),
                before.waves == w0,
                before.rule == rule,
                self.rule == rule,
                s == state_i as int,
                self@ == (ModelView {
                    waves: partly(w0, width, rule, cell, s, c as int, 0),
                    entropies: entropies_of(partly(w0, width, rule, cell, s, c as int, 0)),
                    ..before
                }),
                self.waves.len() == w0.len(),
                before == old(self)@,
                cell == i as int,
                forall|j: int|
                    0 <= j < w0.len() && #[trigger] is_passed(width, cell, c as int, 0, j) ==> !is_blocked(
                        w0,
                        width,
                        rule,
                        cell,
                        s,
                        j,
                    ),
            decreases c1 + 1 - c,
        {
            let mut r: usize = r0;
            proof {
                assert forall|j: int| 0 <= j < w0.len() implies #[trigger] is_passed(
                    width,
                    cell,
                    c as int,
                    r0 as int,
                    j,
                ) == is_passed(width, cell, c as int, 0, j) by {
                    lemma_coordinates(width, j);
                }
                assert(partly(w0, width, rule, cell, s, c as int, 0) =~= partly(
                    w0,
                    width,
                    rule,
                    cell,
                    s,
                    c as int,
                    r0 as int,
                ));
                assert forall|j: int|
                    0 <= j < w0.len() && #[trigger] is_passed(
                        width,
                        cell,
                        c as int,
                        r0 as int,
                        j,
                    ) implies !is_blocked(w0, width, rule, cell, s, j) by {
                    assert(is_passed(width, cell, c as int, 0, j));
                }
            }
            while r <= r1
                invariant
                    r0 <= r <= r1 + 1,
                    c0 <= c <= c1,
                    c1 < self.y,
                    r0 <= r1 < self.x,
                    r0 == low_of(row as int),
                    r1 == high_of(row as int, width as int),
                    c0 == low_of(col as int),
                    c1 == high_of(col as int, height as int),
                    row == row_of(width, cell),
                    col == col_of(width, cell),
                    0 <= cell < w0.len(),
                    width == self.x,
                    height == self.y,
                    width > 0,
                    w0.len() == width * height,
                    is_live(w0, before.states()),
                    before.is_valid(),
                    before.waves == w0,
                    before.rule == rule,
                    self.rule == rule,
                    s == state_i as int,
                    self@ == (ModelView {
                        waves: partly(w0, width, rule, cell, s, c as int, r as int),
                        entropies: entropies_of(
                            partly(w0, width, rule, cell, s, c as int, r as int),
                        ),
                        ..before
                    }),
                    self.waves.len() == w0.len(),
                    before == old(self)@,
                    cell == i as int,
                    forall|j: int|
                        0 <= j < w0.len() && #[trigger] is_passed(width, cell, c as int, r as int, j)
                            ==> !is_blocked(w0, width, rule, cell, s, j),
                decreases r1 + 1 - r,
            {
                proof {
                    lemma_cell_at(width, r as int, c as int);
                    lemma_in_grid(width, height, cell_at(width, r as int, c as int));
                    assert(c * self.x <= (self.y - 1) * self.x) by (nonlinear_arith)
                        requires
                            c <= self.y - 1,
                    ;
                    assert((self.y - 1) * self.x + self.x == self.x * self.y) by (nonlinear_arith);
                    assert(w0.len() == self.x * self.y);
                }
                let j: usize = r + c * self.x;
                let ghost now = self@.waves;
                assert(!is_passed(width, cell, c as int, r as int, j as int));
                assert(is_near(width, cell, j as int));
                assert(now[j as int] == w0[j as int]);
                let m = self.waves[j].masked(&self.rule, state_i);
                assert(m@ == masked(w0[j as int], rule, s));
                match normalize(&m) {
                    Err(_) => {
                        proof {
                            assert(is_blocked(w0, width, rule, cell, s, j as int));
                            assert forall|k: int| 0 <= k < w0.len() implies (#[trigger] is_passed(
                                width,
                                cell,
                                c as int,
                                r as int,
                                k,
                            ) <==> is_near(width, cell, k) && k < j) by {
                                lemma_cell_order(width, k, j as int);
                            }
                            assert forall|k: int| 0 <= k < j implies !is_blocked(
                                w0,
                                width,
                                rule,
                                cell,
                                s,
                                k,
                            ) by {
                                if is_near(width, cell, k) {
                                    assert(is_passed(width, cell, c as int, r as int, k));
                                }
                            }
                            lemma_frontier_is(w0, width, rule, cell, s, j as int);
                            assert(now =~= propagated(w0, width, rule, cell, s));
                            lemma_partly_live(w0, before.states(), width, rule, cell, s, c as int, r as int);
                        }
                        self.failed = Some(j);
                        return Err(CollapseError::Contradiction { cell: j });
                    },
                    Ok(n) => {
                        let e: u32 = n.entropy();
                        let ghost nv = n@;
                        self.waves.set(j, n);
                        self.entropies.set(j, e);
                        proof {
                            let r_next: int = r + 1;
                            let after = partly(w0, width, rule, cell, s, c as int, r_next);
                            assert forall|k: int| 0 <= k < w0.len() implies (#[trigger] is_passed(
                                width,
                                cell,
                                c as int,
                                r_next,
                                k,
                            ) <==> is_passed(width, cell, c as int, r as int, k) || k == j) by {
                                lemma_coordinates(width, k);
                            }
                            assert(self@.waves.len() == after.len());
                            assert forall|k: int| 0 <= k < w0.len() implies #[trigger] self@.waves[k]
                                == after[k] by {
                                if k == j {
                                    assert(self@.waves[k] == nv);
                                    assert(is_passed(width, cell, c as int, r_next, k));
                                } else {
                                    assert(self@.waves[k] == now[k]);
                                }
                            }
                            assert(self@.waves =~= after);
                            assert(self@.entropies =~= entropies_of(after));
                            assert forall|k: int|
                                0 <= k < w0.len() && #[trigger] is_passed(
                                    width,
                                    cell,
                                    c as int,
                                    r_next,
                                    k,
                                ) implies !is_blocked(w0, width, rule, cell, s, k) by {
                                if k != j {
                                    assert(is_passed(width, cell, c as int, r as int, k));
                                }
                            }
                        }
                        r += 1;
                    },
                }
            }
            proof {
                let r_end: int = r1 + 1;
                let c_next: int = c + 1;
                assert forall|j: int| 0 <= j < w0.len() implies #[trigger] is_passed(
                    width,
                    cell,
                    c as int,
                    r_end,
                    j,
                ) == is_passed(width, cell, c_next, 0, j) by {
                    lemma_coordinates(width, j);
                }
                assert(partly(w0, width, rule, cell, s, c as int, r_end) =~= partly(
                    w0,
                    width,
                    rule,
                    cell,
                    s,
                    c_next,
                    0,
                ));
                assert forall|j: int|
                    0 <= j < w0.len() && #[trigger] is_passed(
                        width,
                        cell,
                        c_next,
                        0,
                        j,
                    ) implies !is_blocked(w0, width, rule, cell, s, j) by {
                    assert(is_passed(width, cell, c as int, r_end, j));
                }
            }
            c += 1;
        }
        proof {
            let c_end: int = c1 + 1;
            assert forall|j: int| 0 <= j < w0.len() implies #[trigger] is_passed(
                width,
                cell,
                c_end,
                0,
                j,
            ) == is_near(width, cell, j) by {
                lemma_coordinates(width, j);
                lemma_in_grid(width, height, j);
            }
            assert forall|j: int| 0 <= j < w0.len() implies !is_blocked(
                w0,
                width,
                rule,
                cell,
                s,
                j,
            ) by {
                if is_near(width, cell, j) {
                    assert(is_passed(width, cell, c_end, 0, j));
                }
            }
            lemma_frontier_is(w0, width, rule, cell, s, w0.len() as int);
            assert(self@.waves =~= propagated(w0, width, rule, cell, s));
            lemma_partly_live(w0, before.states(), width, rule, cell, s, c_end, 0);
        }
        Ok(())
    }
}

/// The cell to resolve next among cells of the given entropies: the cell of
/// the least positive entropy, the first of them where several have it; none
/// where no entropy is positive.
pub fn select_next(entropies: &Vec<u32>) -> (node: Option<usize>)
    ensures
        node is None <==> forall|j: int| 0 <= j < entropies.len() ==> entropies[j] == 0,
        node matches Some(i) ==> is_selected(entropies@, i as int),
        selected(entropies@) == (match node {
            Some(i) => Some(i as int),
            None => None,
        }),
{
    let mut found: bool = false;
    let mut imin: usize = 0;
    let mut min: u32 = 0;
    let mut k: usize = 0;
    while k < entropies.len()
        invariant
            k <= entropies.len(),
            !found ==> forall|j: int| 0 <= j < k ==> entropies[j] == 0,
            found ==> {
                &&& imin < k
                &&& min == entropies[imin as int]
                &&& min > 0
                &&& forall|j: int| 0 <= j < k && entropies[j] > 0 ==> min <= entropies[j]
                &&& forall|j: int| 0 <= j < imin && entropies[j] > 0 ==> min < entropies[j]
            },
        decreases entropies.len() - k,
    {
        let e: u32 = entropies[k];
        if e > 0 && (!found || e < min) {
            imin = k;
            min = e;
            found = true;
        }
        k += 1;
    }
    if found {
        proof {
            lemma_selected_is(entropies@, imin as int);
        }
        Some(imin)
    } else {
        proof {
            lemma_selected_none(entropies@);
        }
        None
    }
}

/// In a pass over the cells near cell `i`, column by column and row by row,
/// cell `j` comes before the place at the given column and row.
pub open spec fn is_passed(width: nat, i: int, col: int, row: int, j: int) -> bool {
    &&& is_near(width, i, j)
    &&& col_of(width, j) < col || (col_of(width, j) == col && row_of(width, j) < row)
}

/// The grid in the middle of a propagation from cell `i`, resolved to state
/// `s`: the cells that the pass has left behind are constrained.
pub open spec fn partly(
    waves: Seq<Seq<u32>>,
    width: nat,
    rule: Adjacency,
    i: int,
    s: int,
    col: int,
    row: int,
) -> Seq<Seq<u32>> {
    Seq::new(
        waves.len(),
        |j: int|
            if is_passed(width, i, col, row, j) {
                constrained(waves[j], rule, s)
            } else {
                waves[j]
            },
    )
}

/// A live grid stays live in the middle of a propagation that has met no
/// blocked cell.
pub proof fn lemma_partly_live(
    waves: Seq<Seq<u32>>,
    states: nat,
    width: nat,
    rule: Adjacency,
    i: int,
    s: int,
    col: int,
    row: int,
)
    requires
        is_live(waves, states),
        forall|j: int|
            0 <= j < waves.len() && is_passed(width, i, col, row, j) ==> !is_blocked(
                waves,
                width,
                rule,
                i,
                s,
                j,
            ),
    ensures
        is_live(partly(waves, width, rule, i, s, col, row), states),
{
    let p = partly(waves, width, rule, i, s, col, row);
    assert forall|j: int| 0 <= j < p.len() implies (#[trigger] p[j]).len() == states && total(
        p[j],
    ) > 0 by {
        assert(waves[j].len() == states && total(waves[j]) > 0);
        if is_passed(width, i, col, row, j) {
            assert(!is_blocked(waves, width, rule, i, s, j));
            lemma_constrained(waves[j], rule, s);
        }
    }
}

} // verus!
