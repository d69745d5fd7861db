//! Arbitrary-precision integers and rationals, from the `num` crates.
//!
//! Values of these types are opaque here; they are spoken of through the
//! integers they stand for.
use num::BigRational;
use num_bigint::BigInt;
use num_traits::One;
use vstd::prelude::*;

verus! {

#[verifier::external_type_specification]
#[verifier::external_body]
pub struct ExBigInt(num_bigint::BigInt);

#[verifier::external_type_specification]
#[verifier::external_body]
#[verifier::reject_recursive_types(T)]
pub struct ExRatio<T>(num::rational::Ratio<T>);

/// The integer that a `BigInt` stands for.
pub uninterp spec fn big_value(b: BigInt) -> int;

/// The numerator that a `BigRational` holds.
pub uninterp spec fn ratio_numer(r: BigRational) -> int;

/// The denominator that a `BigRational` holds.
pub uninterp spec fn ratio_denom(r: BigRational) -> int;

/// `r` stands for the fraction `n / d`, with a positive denominator.
pub open spec fn represents(r: BigRational, n: int, d: int) -> bool {
    &&& ratio_denom(r) > 0
    &&& ratio_numer(r) * d == n * ratio_denom(r)
}

/// Relies on `<BigInt as num_traits::One>::one`: the integer one.
#[verifier::external_body]
pub(crate) fn big_one() -> (r: BigInt)
    ensures
        big_value(r) == 1,
{
    BigInt::one()
}

/// Relies on `<BigInt as MulAssign<i32>>::mul_assign`: exact multiplication.
#[verifier::external_body]
pub(crate) fn big_mul_assign(a: &mut BigInt, k: i32)
    ensures
        big_value(*final(a)) == big_value(*old(a)) * k,
{
    *a *= k;
}

/// Relies on `<BigInt as MulAssign<BigInt>>::mul_assign`: exact multiplication.
#[verifier::external_body]
pub(crate) fn big_mul_assign_big(a: &mut BigInt, b: BigInt)
    ensures
        big_value(*final(a)) == big_value(*old(a)) * big_value(b),
{
    *a *= b;
}

/// Relies on `num_rational::Ratio::new`, which panics on a zero denominator
/// and otherwise reduces the fraction to lowest terms with a positive
/// denominator.
#[verifier::external_body]
pub(crate) fn make_ratio(numer: BigInt, denom: BigInt) -> (r: BigRational)
    requires
        big_value(denom) != 0,
    ensures
        ratio_denom(r) > 0,
        ratio_numer(r) * big_value(denom) == big_value(numer) * ratio_denom(r),
{
    BigRational::new(numer, denom)
}

/// Relies on `<num_rational::Ratio<BigInt> as Clone>::clone`, which clones
/// numerator and denominator.
#[verifier::external_body]
pub(crate) fn ratio_clone(r: &BigRational) -> (c: BigRational)
    ensures
        ratio_numer(c) == ratio_numer(*r),
        ratio_denom(c) == ratio_denom(*r),
{
    r.clone()
}

} // verus!
