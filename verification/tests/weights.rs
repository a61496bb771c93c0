use rand::rngs::StdRng;
use rand::SeedableRng;
use wave_collapse::error::{CollapseError, Contradiction};
use wave_collapse::roots::integer_sqrt;
use wave_collapse::wave::{calculate_entropies, calculate_entropy, normalize, Wave};
use wave_collapse::weight::UNIT;

#[test]
fn integer_sqrt_rounds_down() {
    assert_eq!(integer_sqrt(0), 0);
    assert_eq!(integer_sqrt(1), 1);
    assert_eq!(integer_sqrt(15), 3);
    assert_eq!(integer_sqrt(16), 4);
    assert_eq!(integer_sqrt(17), 4);
    assert_eq!(integer_sqrt(131072000), 11448);
}

#[test]
fn integer_sqrt_of_large_numbers() {
    assert_eq!(integer_sqrt(1u128 << 64), 1u128 << 32);
    assert_eq!(integer_sqrt((1u128 << 100) + 5), 1u128 << 50);
    assert_eq!(integer_sqrt(u128::MAX), u64::MAX as u128);
}

#[test]
fn fresh_wave_has_positive_weights_below_one() {
    let mut rng = StdRng::seed_from_u64(11);
    let wave = Wave::new(64, &mut rng);
    assert_eq!(wave.len(), 64);
    let weights = wave.weights();
    assert!(weights.iter().all(|w| 1 <= *w && *w < UNIT));
    assert!(weights.iter().any(|w| *w != weights[0]));
}

#[test]
fn fresh_waves_repeat_with_the_seed() {
    let mut first = StdRng::seed_from_u64(5);
    let mut second = StdRng::seed_from_u64(5);
    let a = Wave::vec(3, 4, &mut first);
    let b = Wave::vec(3, 4, &mut second);
    assert_eq!(a.len(), 4);
    for i in 0..4 {
        assert_eq!(a[i].len(), 3);
        assert_eq!(a[i].weights(), b[i].weights());
    }
}

#[test]
fn fresh_wave_of_no_state_is_empty() {
    let mut rng = StdRng::seed_from_u64(1);
    let wave = Wave::new(0, &mut rng);
    assert_eq!(wave.len(), 0);
    assert!(Wave::vec(2, 0, &mut rng).is_empty());
}

#[test]
fn sum_and_largest_weight() {
    let wave = Wave::from_weights(vec![3, 9, 0, 9, 1]);
    assert_eq!(wave.sum(), 22);
    assert_eq!(wave.largest(), 9);
    let empty = Wave::from_weights(vec![]);
    assert_eq!(empty.sum(), 0);
    assert_eq!(empty.largest(), 0);
}

#[test]
fn sum_does_not_overflow() {
    let wave = Wave::from_weights(vec![u32::MAX; 5]);
    assert_eq!(wave.sum(), 5 * (u32::MAX as u128));
}

#[test]
fn heaviest_state_is_the_first_largest() {
    assert_eq!(Wave::from_weights(vec![3, 9, 0, 9, 1]).heaviest(), Some(1));
    assert_eq!(Wave::from_weights(vec![7, 7, 7]).heaviest(), Some(0));
    assert_eq!(Wave::from_weights(vec![0, 0, 1]).heaviest(), Some(2));
    assert_eq!(Wave::from_weights(vec![0, 0]).heaviest(), Some(0));
    assert_eq!(Wave::from_weights(vec![]).heaviest(), None);
}

#[test]
fn one_hot_wave_has_one_weight_of_one() {
    assert_eq!(Wave::one_hot(4, 2).weights(), &vec![0, 0, UNIT, 0]);
    assert_eq!(Wave::one_hot(1, 0).weights(), &vec![UNIT]);
    assert_eq!(Wave::one_hot(3, 7).weights(), &vec![0, 0, 0]);
}

#[test]
fn normalize_divides_by_the_root_of_the_sum() {
    let two = normalize(&Wave::from_weights(vec![UNIT, UNIT])).unwrap();
    assert_eq!(two.weights(), &vec![46342, 46342]);
    let four = normalize(&Wave::from_weights(vec![UNIT, UNIT, UNIT, UNIT])).unwrap();
    assert_eq!(four.weights(), &vec![32768, 32768, 32768, 32768]);
    let uneven = normalize(&Wave::from_weights(vec![3 * UNIT, UNIT])).unwrap();
    assert_eq!(uneven.weights(), &vec![98304, 32768]);
    let single = normalize(&Wave::from_weights(vec![4 * UNIT, 0])).unwrap();
    assert_eq!(single.weights(), &vec![131072, 0]);
}

#[test]
fn normalize_raises_weights_that_sum_to_less_than_one() {
    let small = normalize(&Wave::from_weights(vec![13107, 13107])).unwrap();
    assert_eq!(small.weights(), &vec![20725, 20725]);
    let one = normalize(&Wave::from_weights(vec![2000, 0])).unwrap();
    assert_eq!(one.weights(), &vec![11450, 0]);
}

#[test]
fn normalize_keeps_a_one_hot_wave() {
    let wave = Wave::one_hot(3, 0);
    let same = normalize(&wave).unwrap();
    assert_eq!(same.weights(), &vec![UNIT, 0, 0]);
    assert_eq!(calculate_entropy(&same), Ok(0));
}

#[test]
fn normalize_keeps_small_weights_positive() {
    let wave = normalize(&Wave::from_weights(vec![u32::MAX, 1])).unwrap();
    assert!(wave.weights()[1] > 0);
    assert!(wave.weights()[0] > wave.weights()[1]);
}

#[test]
fn normalize_detects_a_contradiction() {
    assert_eq!(
        normalize(&Wave::from_weights(vec![0, 0, 0])).map(|w| w.weights().clone()),
        Err(Contradiction {})
    );
    assert!(normalize(&Wave::from_weights(vec![])).is_err());
}

#[test]
fn entropy_is_one_minus_the_largest_share() {
    assert_eq!(Wave::from_weights(vec![UNIT, UNIT]).entropy(), 32768);
    assert_eq!(Wave::from_weights(vec![3, 1]).entropy(), 16384);
    assert_eq!(Wave::from_weights(vec![1, 1, 1]).entropy(), 43691);
    assert_eq!(Wave::from_weights(vec![UNIT, 1000]).entropy(), 985);
    assert_eq!(Wave::from_weights(vec![2000, 3000]).entropy(), 26215);
}

#[test]
fn entropy_is_zero_only_for_one_state() {
    assert_eq!(Wave::from_weights(vec![0, 17, 0]).entropy(), 0);
    assert_eq!(Wave::from_weights(vec![5]).entropy(), 0);
    assert_eq!(Wave::from_weights(vec![u32::MAX, 1]).entropy(), 1);
    assert_eq!(Wave::from_weights(vec![0, 0]).entropy(), 0);
}

#[test]
fn calculate_entropy_detects_a_contradiction() {
    assert_eq!(calculate_entropy(&Wave::from_weights(vec![0, 0])), Err(Contradiction {}));
    assert_eq!(calculate_entropy(&Wave::from_weights(vec![3, 1])), Ok(16384));
}

#[test]
fn calculate_entropies_of_each_wave() {
    let waves = vec![
        Wave::from_weights(vec![UNIT, UNIT]),
        Wave::from_weights(vec![0, 9]),
        Wave::from_weights(vec![3, 1]),
    ];
    assert_eq!(calculate_entropies(&waves), Ok(vec![32768, 0, 16384]));
    assert_eq!(calculate_entropies(&Vec::new()), Ok(vec![]));
}

#[test]
fn calculate_entropies_names_the_first_dead_wave() {
    let waves = vec![
        Wave::from_weights(vec![1, 1]),
        Wave::from_weights(vec![0, 0]),
        Wave::from_weights(vec![0, 0]),
    ];
    assert_eq!(calculate_entropies(&waves), Err(CollapseError::Contradiction { cell: 1 }));
}
