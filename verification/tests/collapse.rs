use rand::rngs::StdRng;
use rand::SeedableRng;
use wave_collapse::color::Color;
use wave_collapse::error::{CollapseError, RenderError};
use wave_collapse::model::{Model, Status};
use wave_collapse::wave::Wave;
use wave_collapse::weight::UNIT;

fn shades(states: usize) -> Vec<Vec<Color>> {
    (0..states).map(|s| vec![Color::new(10 * s as u8, 20, 30)]).collect()
}

fn table(states: usize, value: bool) -> Vec<Vec<bool>> {
    vec![vec![value; states]; states]
}

fn same_only(states: usize) -> Vec<Vec<bool>> {
    (0..states).map(|a| (0..states).map(|b| a == b).collect()).collect()
}

fn waves_of(weights: Vec<Vec<u32>>) -> Vec<Wave> {
    weights.into_iter().map(Wave::from_weights).collect()
}

fn weights_in(model: &Model) -> Vec<Vec<u32>> {
    model.waves().iter().map(|w| w.weights().clone()).collect()
}

fn nonzero(weights: &Vec<u32>) -> usize {
    weights.iter().filter(|w| **w != 0).count()
}

#[test]
fn new_model_has_no_cells() {
    let model = Model::new(shades(4), 1);
    assert_eq!(model.width(), 0);
    assert_eq!(model.height(), 0);
    assert_eq!(model.tile(), 1);
    assert!(model.waves().is_empty());
    assert!(model.entropies().is_empty());
    assert_eq!(model.base_states().len(), 4);
    assert_eq!(model.failed(), None);
    assert_eq!(model.status(), Status::Done);
}

#[test]
fn with_table_needs_a_square_table() {
    assert!(Model::with_table(shades(2), 1, table(2, true)).is_some());
    assert!(Model::with_table(shades(2), 1, table(3, true)).is_none());
    assert!(Model::with_table(shades(3), 1, vec![vec![true; 3]; 2]).is_none());
}

#[test]
fn lengths_follow_the_grid_and_the_catalog() {
    for (x, y, states) in [(1usize, 1usize, 1usize), (3, 2, 4), (5, 4, 9), (2, 7, 3)] {
        let mut rng = StdRng::seed_from_u64(3);
        let mut model = Model::new(shades(states), 1);
        let _ = model.collapse(x, y, &mut rng);
        assert_eq!(model.width(), x);
        assert_eq!(model.height(), y);
        assert_eq!(model.entropies().len(), x * y);
        assert_eq!(model.waves().len(), x * y);
        assert!(model.waves().iter().all(|w| w.len() == states));
    }
}

#[test]
fn two_by_two_grid_ends_within_four_resolutions() {
    for seed in 0..25 {
        let mut rng = StdRng::seed_from_u64(seed);
        let mut model = Model::with_table(shades(2), 1, table(2, true)).unwrap();
        let steps = model.collapse(2, 2, &mut rng).unwrap();
        assert!(steps <= 4);
        assert_eq!(model.entropies(), &vec![0, 0, 0, 0]);
        assert!(weights_in(&model).iter().all(|w| nonzero(w) == 1));
        assert_eq!(model.status(), Status::Done);
    }
}

#[test]
fn single_cell_resolves_at_once() {
    let mut rng = StdRng::seed_from_u64(9);
    let mut model = Model::new(shades(4), 1);
    assert_eq!(model.collapse(1, 1, &mut rng), Ok(1));
    assert_eq!(model.entropies(), &vec![0]);
    let weights = weights_in(&model);
    assert_eq!(weights.len(), 1);
    assert_eq!(nonzero(&weights[0]), 1);
    assert!(weights[0].contains(&UNIT));
    assert_eq!(model.status(), Status::Done);
    let text = String::from_utf8(model.dump().unwrap()).unwrap();
    assert_eq!(text.lines().count(), 4);
    assert!(text.starts_with("P3\n1 1\n255\n"));
}

#[test]
fn single_cell_touches_no_other_cell() {
    let mut model = Model::with_table(shades(2), 1, table(2, true)).unwrap();
    assert_eq!(model.set_waves(1, 1, waves_of(vec![vec![UNIT, 0]])), Ok(()));
    assert_eq!(model.propagate(0, 0), Ok(()));
    assert_eq!(weights_in(&model), vec![vec![UNIT, 0]]);
    assert_eq!(model.entropies(), &vec![0]);
}

#[test]
fn states_that_allow_nothing_give_a_contradiction() {
    for seed in 0..10 {
        let mut rng = StdRng::seed_from_u64(seed);
        let mut model = Model::with_table(shades(2), 1, table(2, false)).unwrap();
        let res = model.collapse(3, 3, &mut rng);
        let cell = match res {
            Err(CollapseError::Contradiction { cell }) => cell,
            _ => panic!("the run must end with a contradiction"),
        };
        assert!(cell < 9);
        assert_eq!(model.failed(), Some(cell));
        assert_eq!(model.status(), Status::Contradiction { cell });
        assert_eq!(model.dump(), Err(RenderError::Contradiction { cell }));
    }
}

#[test]
fn contradiction_names_the_first_cell_that_is_blocked() {
    let mut model = Model::with_table(shades(2), 1, table(2, false)).unwrap();
    let mut weights = vec![vec![UNIT, 1000]; 9];
    weights[4] = vec![UNIT, 500];
    let res = model.collapse_from(3, 3, waves_of(weights.clone()));
    assert_eq!(res, Err(CollapseError::Contradiction { cell: 0 }));
    let mut expected = weights;
    expected[4] = vec![UNIT, 0];
    assert_eq!(weights_in(&model), expected);
    assert_eq!(model.failed(), Some(0));
}

#[test]
fn contradiction_leaves_the_cells_before_it_constrained() {
    let rule = vec![vec![true, false], vec![false, false]];
    let mut model = Model::with_table(shades(2), 1, rule).unwrap();
    let weights = vec![vec![2 * UNIT, 2 * UNIT], vec![0, UNIT], vec![UNIT, UNIT - 1]];
    assert_eq!(model.set_waves(3, 1, waves_of(weights)), Ok(()));
    assert_eq!(model.propagate(1, 0), Err(CollapseError::Contradiction { cell: 1 }));
    assert_eq!(
        weights_in(&model),
        vec![vec![92683, 0], vec![0, UNIT], vec![UNIT, UNIT - 1]]
    );
    assert_eq!(model.entropies()[0], 0);
    assert_eq!(model.failed(), Some(1));
}

#[test]
fn run_on_two_cells_resolves_both() {
    let mut model = Model::with_table(shades(2), 1, same_only(2)).unwrap();
    let weights = vec![vec![UNIT, 1000], vec![2000, 3000]];
    assert_eq!(model.collapse_from(2, 1, waves_of(weights)), Ok(1));
    assert_eq!(weights_in(&model), vec![vec![UNIT, 0], vec![11450, 0]]);
    assert_eq!(model.entropies(), &vec![0, 0]);
    assert_eq!(model.status(), Status::Done);
    assert_eq!(model.find_node(), None);
}

#[test]
fn observe_picks_the_first_largest_weight() {
    let mut model = Model::with_table(shades(3), 1, table(3, true)).unwrap();
    let weights = vec![vec![5, 9, 9], vec![1, 1, 1]];
    assert_eq!(model.set_waves(1, 2, waves_of(weights.clone())), Ok(()));
    let (wave, state, entropy) = model.observe(0);
    assert_eq!(wave.weights(), &vec![0, UNIT, 0]);
    assert_eq!(state, 1);
    assert_eq!(entropy, 0);
    let (wave, state, _) = model.observe(1);
    assert_eq!(wave.weights(), &vec![UNIT, 0, 0]);
    assert_eq!(state, 0);
    assert_eq!(weights_in(&model), weights);
}

#[test]
fn propagate_raises_no_weight_of_waves_that_sum_to_one_or_more() {
    let mut model = Model::with_table(shades(2), 1, table(2, true)).unwrap();
    let weights = vec![vec![UNIT, 0], vec![2 * UNIT, 2 * UNIT]];
    assert_eq!(model.set_waves(2, 1, waves_of(weights.clone())), Ok(()));
    assert_eq!(model.propagate(0, 0), Ok(()));
    let after = weights_in(&model);
    assert_eq!(after, vec![vec![UNIT, 0], vec![UNIT, UNIT]]);
    for (old, new) in weights.iter().zip(after.iter()) {
        assert!(old.iter().zip(new.iter()).all(|(o, n)| n <= o));
    }
    assert_eq!(model.entropies(), &vec![0, 32768]);
}

#[test]
fn propagate_removes_what_the_rule_forbids() {
    let mut model = Model::with_table(shades(2), 1, same_only(2)).unwrap();
    let weights = vec![vec![UNIT, 0], vec![2 * UNIT, 2 * UNIT]];
    assert_eq!(model.set_waves(2, 1, waves_of(weights)), Ok(()));
    assert_eq!(model.propagate(0, 0), Ok(()));
    assert_eq!(weights_in(&model), vec![vec![UNIT, 0], vec![92683, 0]]);
    assert_eq!(model.entropies(), &vec![0, 0]);
}

#[test]
fn propagate_never_brings_a_state_back() {
    let mut model = Model::with_table(shades(3), 1, table(3, true)).unwrap();
    let weights = vec![vec![0, UNIT, 0], vec![0, 700, 9], vec![40, 0, 0], vec![1, 2, 0]];
    assert_eq!(model.set_waves(2, 2, waves_of(weights.clone())), Ok(()));
    assert_eq!(model.propagate(0, 1), Ok(()));
    for (old, new) in weights.iter().zip(weights_in(&model).iter()) {
        for (o, n) in old.iter().zip(new.iter()) {
            assert_eq!(*o == 0, *n == 0);
        }
    }
}

#[test]
fn propagate_reaches_the_cells_around_and_no_others() {
    let mut model = Model::with_table(shades(2), 1, same_only(2)).unwrap();
    let mut weights = vec![vec![2 * UNIT, 2 * UNIT]; 16];
    weights[5] = vec![UNIT, 0];
    assert_eq!(model.set_waves(4, 4, waves_of(weights)), Ok(()));
    assert_eq!(model.propagate(5, 0), Ok(()));
    let after = weights_in(&model);
    for cell in 0..16 {
        let near = cell % 4 <= 2 && cell / 4 <= 2;
        if cell == 5 {
            assert_eq!(after[cell], vec![UNIT, 0]);
        } else if near {
            assert_eq!(after[cell], vec![92683, 0]);
        } else {
            assert_eq!(after[cell], vec![2 * UNIT, 2 * UNIT]);
        }
    }
}

#[test]
fn propagate_from_the_last_corner_stays_in_the_grid() {
    let mut model = Model::with_table(shades(2), 1, same_only(2)).unwrap();
    let mut weights = vec![vec![2 * UNIT, 2 * UNIT]; 9];
    weights[8] = vec![0, UNIT];
    assert_eq!(model.set_waves(3, 3, waves_of(weights)), Ok(()));
    assert_eq!(model.propagate(8, 1), Ok(()));
    let after = weights_in(&model);
    for cell in 0..9 {
        if cell == 8 {
            assert_eq!(after[cell], vec![0, UNIT]);
        } else if cell == 4 || cell == 5 || cell == 7 {
            assert_eq!(after[cell], vec![0, 92683]);
        } else {
            assert_eq!(after[cell], vec![2 * UNIT, 2 * UNIT]);
        }
    }
}

#[test]
fn collapse_refuses_a_grid_that_is_too_large() {
    let mut rng = StdRng::seed_from_u64(1);
    let mut model = Model::new(shades(2), 1);
    assert_eq!(model.collapse(usize::MAX, 2, &mut rng), Err(CollapseError::TooLarge));
    assert_eq!(model.collapse_from(usize::MAX, 2, Vec::new()), Err(CollapseError::TooLarge));
    assert_eq!(model.width(), 0);
}

#[test]
fn collapse_refuses_waves_that_do_not_fit() {
    let mut model = Model::new(shades(2), 1);
    let three = waves_of(vec![vec![1, 1]; 3]);
    assert_eq!(model.collapse_from(2, 2, three), Err(CollapseError::Mismatch));
    let long = waves_of(vec![vec![1, 1], vec![1, 1, 1]]);
    assert_eq!(model.collapse_from(2, 1, long), Err(CollapseError::Mismatch));
    assert_eq!(model.width(), 0);
    assert!(model.waves().is_empty());
}

#[test]
fn collapse_refuses_a_dead_wave() {
    let mut model = Model::new(shades(2), 1);
    let waves = waves_of(vec![vec![1, 1], vec![0, 0], vec![0, 0]]);
    assert_eq!(model.collapse_from(3, 1, waves), Err(CollapseError::Contradiction { cell: 1 }));
    assert_eq!(model.width(), 0);
    assert_eq!(model.failed(), None);
}

#[test]
fn empty_catalog_is_a_contradiction_at_the_first_cell() {
    let mut rng = StdRng::seed_from_u64(1);
    let mut model = Model::new(Vec::new(), 1);
    assert_eq!(model.collapse(2, 2, &mut rng), Err(CollapseError::Contradiction { cell: 0 }));
    assert_eq!(model.collapse(0, 5, &mut rng), Ok(0));
    assert_eq!(model.height(), 5);
}

#[test]
fn collapse_with_the_positional_rule_ends_one_way_or_the_other() {
    for seed in 0..10 {
        let mut rng = StdRng::seed_from_u64(seed);
        let mut model = Model::new(shades(9), 1);
        match model.collapse(6, 5, &mut rng) {
            Ok(steps) => {
                assert!(steps <= 30);
                assert!(model.entropies().iter().all(|e| *e == 0));
                assert!(weights_in(&model).iter().all(|w| nonzero(w) == 1));
                assert_eq!(model.status(), Status::Done);
            },
            Err(CollapseError::Contradiction { cell }) => {
                assert!(cell < 30);
                assert_eq!(model.failed(), Some(cell));
            },
            Err(_) => panic!("the grid fits"),
        }
    }
}

#[test]
fn collapse_repeats_with_the_seed() {
    let mut first = StdRng::seed_from_u64(21);
    let mut second = StdRng::seed_from_u64(21);
    let mut a = Model::with_table(shades(3), 1, table(3, true)).unwrap();
    let mut b = Model::with_table(shades(3), 1, table(3, true)).unwrap();
    assert_eq!(a.collapse(4, 3, &mut first), b.collapse(4, 3, &mut second));
    assert_eq!(weights_in(&a), weights_in(&b));
}

#[test]
fn run_goes_on_from_the_waves_as_they_are() {
    let mut model = Model::with_table(shades(2), 1, table(2, true)).unwrap();
    let weights = vec![vec![UNIT, UNIT], vec![3 * UNIT, UNIT]];
    assert_eq!(model.set_waves(1, 2, waves_of(weights)), Ok(()));
    assert_eq!(model.status(), Status::Running);
    assert_eq!(model.run(), Ok(2));
    assert_eq!(weights_in(&model), vec![vec![UNIT, 0], vec![UNIT, 0]]);
    assert_eq!(model.run(), Ok(0));
}
