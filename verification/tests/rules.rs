use wave_collapse::adjacency::{positional_neighbors, side_of, Adjacency};
use wave_collapse::color::Color;
use wave_collapse::grid::span;
use wave_collapse::model::{select_next, Model};
use wave_collapse::wave::Wave;
use wave_collapse::weight::UNIT;

fn catalog(states: usize) -> Vec<Vec<Color>> {
    (0..states).map(|s| vec![Color::new(s as u8, 0, 0)]).collect()
}

#[test]
fn span_at_the_first_place() {
    assert_eq!(span(0, 3), (0, 1));
    assert_eq!(span(0, 2), (0, 1));
}

#[test]
fn span_at_the_last_place() {
    assert_eq!(span(2, 3), (1, 2));
    assert_eq!(span(1, 2), (0, 1));
}

#[test]
fn span_inside() {
    assert_eq!(span(1, 3), (0, 2));
    assert_eq!(span(5, 9), (4, 6));
}

#[test]
fn span_of_a_single_place() {
    assert_eq!(span(0, 1), (0, 0));
}

#[test]
fn side_is_the_root_of_the_catalog_size() {
    assert_eq!(side_of(0), 0);
    assert_eq!(side_of(1), 1);
    assert_eq!(side_of(9), 3);
    assert_eq!(side_of(10), 3);
    assert_eq!(side_of(15), 3);
    assert_eq!(side_of(16), 4);
}

#[test]
fn positional_rule_on_nine_states() {
    assert!(positional_neighbors(3, 0, 4));
    assert!(positional_neighbors(3, 4, 8));
    assert!(positional_neighbors(3, 0, 1));
    assert!(positional_neighbors(3, 5, 5));
    assert!(!positional_neighbors(3, 0, 2));
    assert!(!positional_neighbors(3, 0, 8));
    assert!(!positional_neighbors(3, 3, 5));
    assert!(!positional_neighbors(3, 2, 3));
}

#[test]
fn positional_rule_is_symmetric_on_a_small_catalog() {
    for a in 0..12 {
        for b in 0..12 {
            assert_eq!(positional_neighbors(3, a, b), positional_neighbors(3, b, a));
        }
    }
}

#[test]
fn positional_rule_without_a_side_allows_nothing() {
    assert!(!positional_neighbors(0, 0, 0));
}

#[test]
fn valid_neighbor_uses_the_root_of_the_catalog_size() {
    let nine = catalog(9);
    assert!(Model::valid_neighbor(&nine, 0, 4));
    assert!(!Model::valid_neighbor(&nine, 0, 2));
    let five = catalog(5);
    assert!(Model::valid_neighbor(&five, 4, 2));
    assert!(!Model::valid_neighbor(&five, 0, 4));
    assert!(!Model::valid_neighbor(&five, 1, 4));
    assert!(!Model::valid_neighbor(&Vec::new(), 0, 0));
}

#[test]
fn positional_adjacency_matches_the_rule() {
    let rule = Adjacency::positional(9);
    assert!(matches!(rule, Adjacency::Positional { side: 3 }));
    assert!(rule.compatible(0, 4));
    assert!(!rule.compatible(0, 2));
}

#[test]
fn table_adjacency_reads_the_table() {
    let rule = Adjacency::table(vec![vec![true, false], vec![true, true]], 2).unwrap();
    assert!(rule.compatible(0, 0));
    assert!(!rule.compatible(0, 1));
    assert!(rule.compatible(1, 0));
    assert!(rule.compatible(1, 1));
    assert!(!rule.compatible(2, 0));
    assert!(!rule.compatible(0, 2));
}

#[test]
fn table_adjacency_needs_a_square_table() {
    assert!(Adjacency::table(vec![vec![true, false]], 2).is_none());
    assert!(Adjacency::table(vec![vec![true], vec![true, true]], 2).is_none());
    assert!(Adjacency::table(vec![vec![true, true], vec![true, true]], 3).is_none());
    assert!(Adjacency::table(Vec::new(), 0).is_some());
}

#[test]
fn selection_takes_the_least_positive_entropy() {
    assert_eq!(select_next(&vec![5, 3, 0, 2, 7]), Some(3));
    assert_eq!(select_next(&vec![0, 0, 9]), Some(2));
}

#[test]
fn selection_breaks_ties_by_the_lower_index() {
    assert_eq!(select_next(&vec![5, 3, 0, 3, 7]), Some(1));
    assert_eq!(select_next(&vec![4, 4, 4]), Some(0));
}

#[test]
fn selection_finds_nothing_without_positive_entropy() {
    assert_eq!(select_next(&vec![0, 0, 0]), None);
    assert_eq!(select_next(&Vec::new()), None);
}

#[test]
fn find_node_and_check_follow_the_entropies() {
    let mut model = Model::with_table(catalog(2), 1, vec![vec![true, true], vec![true, true]])
        .unwrap();
    assert_eq!(model.find_node(), None);
    assert!(!model.check());
    let waves = vec![
        Wave::from_weights(vec![UNIT, UNIT]),
        Wave::from_weights(vec![3, 1]),
        Wave::from_weights(vec![0, 6]),
        Wave::from_weights(vec![1, 3]),
    ];
    assert_eq!(model.set_waves(2, 2, waves), Ok(()));
    assert_eq!(model.entropies(), &vec![32768, 16384, 0, 16384]);
    assert_eq!(model.find_node(), Some(1));
    assert!(model.check());
}
