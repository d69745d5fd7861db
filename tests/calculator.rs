use hyper_catalan::{HyperCatalanCalculator, SubdigonType};
use num::BigRational;
use num_bigint::BigInt;

fn ratio(n: i64, d: i64) -> BigRational {
    BigRational::new(BigInt::from(n), BigInt::from(d))
}

#[test]
fn test_hyper_catalan_calculator() {
    let mut calculator = HyperCatalanCalculator::new();

    let type1 = SubdigonType::new(vec![1, 0, 0]);
    let result1 = calculator.calculate(&type1);
    assert!(result1.numer() > &0.into());

    let cached_result = calculator.calculate(&type1);
    assert_eq!(result1, cached_result);
}

#[test]
fn single_digon_is_one() {
    let mut c = HyperCatalanCalculator::new();
    assert_eq!(c.calculate(&SubdigonType::new(vec![1, 0, 0])), ratio(1, 1));
}

#[test]
fn values_of_the_factorial_formula() {
    // e = floor(sum (i+2) m_i / 2), v = 1 + sum i m_i, e! / (v! prod m_i!).
    let mut c = HyperCatalanCalculator::new();
    assert_eq!(c.calculate(&SubdigonType::new(vec![2, 0, 0])), ratio(1, 1));
    assert_eq!(c.calculate(&SubdigonType::new(vec![1, 1, 0])), ratio(1, 1));
    assert_eq!(c.calculate(&SubdigonType::new(vec![3, 0, 0])), ratio(1, 1));
    assert_eq!(c.calculate(&SubdigonType::new(vec![0, 2, 0])), ratio(1, 2));
    assert_eq!(c.calculate(&SubdigonType::new(vec![2, 1, 0])), ratio(3, 2));
    assert_eq!(c.calculate(&SubdigonType::new(vec![0, 0, 1])), ratio(1, 3));
    // e = 10, v = 1: 10! / (1! * 10!).
    assert_eq!(c.calculate(&SubdigonType::new(vec![10])), ratio(1, 1));
    // e = 9, v = 7, m = (0, 6): 9! / (7! * 6!) = 72 / 720.
    assert_eq!(c.calculate(&SubdigonType::new(vec![0, 6])), ratio(1, 10));
}

#[test]
fn empty_type_is_one() {
    let mut c = HyperCatalanCalculator::new();
    assert_eq!(c.calculate(&SubdigonType::new(vec![])), ratio(1, 1));
    assert_eq!(c.calculate(&SubdigonType::new(vec![0, 0, 0])), ratio(1, 1));
}

#[test]
fn large_factorials_are_exact() {
    // e = 4*20/2 = 40, v = 1 + 2*20 = 41: 40! / (41! * 20!).
    let mut c = HyperCatalanCalculator::new();
    let r = c.calculate(&SubdigonType::new(vec![0, 0, 20]));
    let fact = |n: i64| -> BigInt {
        let mut f = BigInt::from(1);
        for i in 2..=n {
            f *= i;
        }
        f
    };
    let expected = BigRational::new(fact(40), fact(41) * fact(20));
    assert_eq!(r, expected);
}

#[test]
fn repeated_call_keeps_cache_size() {
    let mut c = HyperCatalanCalculator::new();
    assert_eq!(c.cache_len(), 0);
    let a = c.calculate(&SubdigonType::new(vec![2, 1, 0]));
    assert_eq!(c.cache_len(), 1);
    let b = c.calculate(&SubdigonType::new(vec![0, 2, 0]));
    assert_eq!(c.cache_len(), 2);
    let a2 = c.calculate(&SubdigonType::new(vec![2, 1, 0]));
    assert_eq!(c.cache_len(), 2);
    assert_eq!(a, a2);
    assert_eq!(a.numer(), a2.numer());
    assert_eq!(a.denom(), a2.denom());
    assert_ne!(a, b);
}

#[test]
fn values_are_positive() {
    let mut c = HyperCatalanCalculator::new();
    for values in [vec![0, 0, 1], vec![5, 0, 2], vec![0, 3, 3], vec![1, 1, 1, 1]] {
        let r = c.calculate(&SubdigonType::new(values));
        assert!(r.numer() > &BigInt::from(0));
        assert!(r.denom() > &BigInt::from(0));
    }
}
