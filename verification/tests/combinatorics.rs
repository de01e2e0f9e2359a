use curve_engine::basis::{
    combinations, degree_pairs, max_basis_terms, rational_has_evidence, MAX_DEN_DEGREE,
    MAX_NUM_DEGREE, MAX_TERMS,
};
use curve_engine::engine_version;

#[test]
fn approximate_combinations_are_complete_and_ordered() {
    assert_eq!(
        combinations(&[0, 1, 2], 2),
        vec![vec![0, 1], vec![0, 2], vec![1, 2]]
    );
    assert_eq!(combinations(&[5, 6], 1), vec![vec![5], vec![6]]);
    assert!(combinations(&[0], 2).is_empty());
}

#[test]
fn basis_combinations_are_complete_and_ordered() {
    assert_eq!(
        combinations(&[0, 1, 2], 2),
        vec![vec![0, 1], vec![0, 2], vec![1, 2]]
    );
    assert_eq!(combinations(&[5, 6], 1), vec![vec![5], vec![6]]);
    assert!(combinations(&[0], 2).is_empty());
}

#[test]
fn engine_version_matches_crate_version() {
    // The crate's own package version, as written in its Cargo.toml.
    assert_eq!(engine_version(), "0.1.0");
}

#[test]
fn combinations_of_size_zero_are_empty() {
    assert!(combinations(&[1, 2, 3], 0).is_empty());
    assert!(combinations(&[], 0).is_empty());
}

#[test]
fn combinations_count_is_binomial_and_lexicographic() {
    let all = combinations(&[0, 1, 2, 3, 4, 5, 6, 7], 3);
    assert_eq!(all.len(), 56);
    for pair in all.windows(2) {
        assert!(pair[0] < pair[1], "{:?} then {:?}", pair[0], pair[1]);
    }
    assert_eq!(all[0], vec![0, 1, 2]);
    assert_eq!(all[55], vec![5, 6, 7]);
}

#[test]
fn combinations_map_positions_to_items() {
    // Positions are combined, then mapped, so repeated items are kept apart.
    assert_eq!(
        combinations(&[7, 7, 9], 2),
        vec![vec![7, 7], vec![7, 9], vec![7, 9]]
    );
    assert_eq!(combinations(&[4, 1, 6], 3), vec![vec![4, 1, 6]]);
}

#[test]
fn degree_pairs_run_simplest_first() {
    assert_eq!(
        degree_pairs(),
        vec![(0, 1), (1, 1), (0, 2), (2, 1), (1, 2), (2, 2)]
    );
}

#[test]
fn degree_pairs_cover_every_low_degree_rational_once() {
    let pairs = degree_pairs();
    assert_eq!(pairs.len(), (MAX_NUM_DEGREE + 1) * MAX_DEN_DEGREE);
    for num in 0..=MAX_NUM_DEGREE {
        for den in 1..=MAX_DEN_DEGREE {
            assert_eq!(pairs.iter().filter(|&&p| p == (num, den)).count(), 1);
        }
    }
}

#[test]
fn basis_terms_leave_a_residual_degree_of_freedom() {
    assert_eq!(max_basis_terms(8, 120), MAX_TERMS);
    assert_eq!(max_basis_terms(2, 120), 2);
    assert_eq!(max_basis_terms(8, 3), 2);
    assert_eq!(max_basis_terms(8, 2), 1);
    assert_eq!(max_basis_terms(8, 1), 0);
    assert_eq!(max_basis_terms(8, 0), 0);
}

#[test]
fn rationals_need_more_points_than_coefficients() {
    assert!(!rational_has_evidence(0, 1, 3));
    assert!(rational_has_evidence(0, 1, 4));
    assert!(!rational_has_evidence(2, 2, 6));
    assert!(rational_has_evidence(2, 2, 7));
}
