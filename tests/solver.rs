use hyper_catalan::solver::check_coefficients;
use hyper_catalan::{HyperCatalanPolynomialSolver, SolveError};
use num::BigRational;
use num_bigint::BigInt;

fn ratio(n: i64, d: i64) -> BigRational {
    BigRational::new(BigInt::from(n), BigInt::from(d))
}

#[test]
fn enumeration_of_three_faces_in_three_sizes() {
    let solver = HyperCatalanPolynomialSolver::new(4, 5);
    let types = solver.generate_types(3, 3);
    assert_eq!(types.len(), 10);
    for t in &types {
        assert_eq!(t.len(), 3);
        assert_eq!(t.iter().sum::<i32>(), 3);
    }
    let expected: Vec<Vec<i32>> = vec![
        vec![0, 0, 3],
        vec![0, 1, 2],
        vec![0, 2, 1],
        vec![0, 3, 0],
        vec![1, 0, 2],
        vec![1, 1, 1],
        vec![1, 2, 0],
        vec![2, 0, 1],
        vec![2, 1, 0],
        vec![3, 0, 0],
    ];
    assert_eq!(types, expected);
}

#[test]
fn enumeration_edge_cases() {
    let solver = HyperCatalanPolynomialSolver::new(2, 1);
    assert_eq!(solver.generate_types(0, 3), vec![vec![0, 0, 0]]);
    assert_eq!(solver.generate_types(0, 0), vec![Vec::<i32>::new()]);
    assert_eq!(solver.generate_types(2, 0), Vec::<Vec<i32>>::new());
    assert_eq!(solver.generate_types(4, 1), vec![vec![4]]);
}

#[test]
fn enumeration_is_restartable() {
    let solver = HyperCatalanPolynomialSolver::new(3, 3);
    assert_eq!(solver.generate_types(4, 2), solver.generate_types(4, 2));
}

#[test]
fn series_terms_for_small_bounds() {
    let mut solver = HyperCatalanPolynomialSolver::new(3, 3);
    let terms = solver.series_terms();
    let types: Vec<Vec<i32>> = terms.iter().map(|(t, _)| t.m.clone()).collect();
    assert_eq!(
        types,
        vec![vec![0, 0], vec![0, 1], vec![1, 0], vec![0, 2], vec![1, 1], vec![2, 0]]
    );
    let values: Vec<BigRational> = terms.iter().map(|(_, c)| c.clone()).collect();
    assert_eq!(
        values,
        vec![ratio(1, 1), ratio(1, 2), ratio(1, 1), ratio(1, 2), ratio(1, 1), ratio(1, 1)]
    );
    // A second run answers from the cache with the same values.
    let again = solver.series_terms();
    let values2: Vec<BigRational> = again.iter().map(|(_, c)| c.clone()).collect();
    assert_eq!(values, values2);
}

#[test]
fn series_terms_with_no_terms() {
    let mut solver = HyperCatalanPolynomialSolver::new(3, 0);
    assert!(solver.series_terms().is_empty());
}

#[test]
fn zero_linear_coefficient_is_rejected() {
    // x^2 - 4: coefficients [-4, 0, 1].
    let coefficients = [-4.0f64, 0.0, 1.0];
    assert_eq!(
        check_coefficients(coefficients.len(), coefficients[1] == 0.0),
        Err(SolveError::ZeroLinearCoefficient)
    );
}

#[test]
fn degree_below_one_is_rejected() {
    assert_eq!(check_coefficients(1, false), Err(SolveError::DegreeTooLow));
    assert_eq!(check_coefficients(0, true), Err(SolveError::DegreeTooLow));
    assert_eq!(check_coefficients(1, true), Err(SolveError::DegreeTooLow));
}

#[test]
fn nonzero_linear_coefficient_is_accepted() {
    assert_eq!(check_coefficients(2, false), Ok(()));
    assert_eq!(check_coefficients(4, false), Ok(()));
}

#[test]
fn debug_mode_can_be_switched() {
    let mut solver = HyperCatalanPolynomialSolver::new(3, 4);
    assert!(!solver.debug_mode());
    solver.set_debug_mode(true);
    assert!(solver.debug_mode());
    let solver2 = HyperCatalanPolynomialSolver::new_with_debug(3, 4);
    assert!(solver2.debug_mode());
}
