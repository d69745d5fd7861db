use crate::exact::{
    big_mul_assign, big_mul_assign_big, big_one, big_value, make_ratio, ratio_clone, ratio_denom,
    ratio_numer, represents,
};
use crate::subdigon::{
    index_sum, lemma_prefix_bounds, lemma_sums_bounded, side_sum, valid_counts, SubdigonType,
};
use num::BigRational;
use num_bigint::BigInt;
use vstd::prelude::*;

verus! {

/// `n!`, with `n! = 1` for every `n <= 1`.
pub open spec fn factorial(n: int) -> int
    decreases n,
{
    if n <= 1 {
        1
    } else {
        n * factorial(n - 1)
    }
}

/// The product of the factorials of all counts.
pub open spec fn count_factorials(m: Seq<i32>) -> int
    decreases m.len(),
{
    if m.len() == 0 {
        1
    } else {
        count_factorials(m.drop_last()) * factorial(m.last() as int)
    }
}

/// Numerator of the Hyper-Catalan number of `m`: `e!`, with
/// `e = ⌊Σ (i + 2) · m[i] / 2⌋`.
pub open spec fn hc_numerator(m: Seq<i32>) -> int {
    factorial(side_sum(m) / 2)
}

/// Denominator of the Hyper-Catalan number of `m`: `v! · Π m[i]!`, with
/// `v = 1 + Σ i · m[i]`.
pub open spec fn hc_denominator(m: Seq<i32>) -> int {
    factorial(1 + index_sum(m)) * count_factorials(m)
}

/// Every factorial is at least one.
pub proof fn lemma_factorial_positive(n: int)
    ensures
        factorial(n) >= 1,
    decreases n,
{
    if n > 1 {
        lemma_factorial_positive(n - 1);
        assert(n * factorial(n - 1) >= 1) by (nonlinear_arith)
            requires
                n > 1,
                factorial(n - 1) >= 1,
        ;
    }
}

/// The product of factorials is at least one.
pub proof fn lemma_count_factorials_positive(m: Seq<i32>)
    ensures
        count_factorials(m) >= 1,
    decreases m.len(),
{
    if m.len() > 0 {
        lemma_count_factorials_positive(m.drop_last());
        lemma_factorial_positive(m.last() as int);
        let a = count_factorials(m.drop_last());
        let b = factorial(m.last() as int);
        assert(a * b >= 1) by (nonlinear_arith)
            requires
                a >= 1,
                b >= 1,
        ;
    }
}

/// Every Hyper-Catalan number is a positive rational: numerator and
/// denominator of the defining fraction are both positive.
pub proof fn lemma_hyper_catalan_positive(m: Seq<i32>)
    ensures
        hc_numerator(m) > 0,
        hc_denominator(m) > 0,
{
    lemma_factorial_positive(side_sum(m) / 2);
    lemma_factorial_positive(1 + index_sum(m));
    lemma_count_factorials_positive(m);
    let a = factorial(1 + index_sum(m));
    let b = count_factorials(m);
    assert(a * b > 0) by (nonlinear_arith)
        requires
            a >= 1,
            b >= 1,
    ;
}

/// The cached fraction for `m` in `c`, searched from the most recent entry.
pub open spec fn lookup_in(c: Seq<(SubdigonType, BigRational)>, m: Seq<i32>) -> Option<(int, int)>
    decreases c.len(),
{
    if c.len() == 0 {
        None
    } else if c.last().0.m@ == m {
        Some((ratio_numer(c.last().1), ratio_denom(c.last().1)))
    } else {
        lookup_in(c.drop_last(), m)
    }
}

/// Computes Hyper-Catalan numbers exactly, remembering each one it has
/// computed.
pub struct HyperCatalanCalculator {
    cache: Vec<(SubdigonType, BigRational)>,
}

impl HyperCatalanCalculator {
    /// Every cached value is the Hyper-Catalan number of its key.
    pub closed spec fn wf(&self) -> bool {
        forall|k: int|
            0 <= k < self.cache.len() ==> {
                let e = #[trigger] self.cache@[k];
                &&& valid_counts(e.0.m@)
                &&& represents(e.1, hc_numerator(e.0.m@), hc_denominator(e.0.m@))
            }
    }

    /// Number of cached entries.
    pub closed spec fn cache_size(&self) -> nat {
        self.cache@.len()
    }

    /// The cached fraction (numerator, denominator) for the counts `m`, if any.
    pub closed spec fn lookup(&self, m: Seq<i32>) -> Option<(int, int)> {
        lookup_in(self.cache@, m)
    }

    /// A calculator with an empty cache.
    pub fn new() -> (r: Self)
        ensures
            r.wf(),
            r.cache_size() == 0,
            forall|m: Seq<i32>| #[trigger] r.lookup(m) is None,
    {
        HyperCatalanCalculator { cache: Vec::new() }
    }

    /// Number of entries in the cache.
    pub fn cache_len(&self) -> (r: usize)
        ensures
            r == self.cache_size(),
    {
        self.cache.len()
    }

    /// `n!` as an exact integer; 1 for every `n <= 1`.
    fn factorial(&self, n: i32) -> (r: BigInt)
        ensures
            big_value(r) == factorial(n as int),
    {
        let mut result = big_one();
        let mut i: i64 = 2;
        while i <= n as i64
            invariant
                2 <= i,
                i <= n + 1 || i == 2,
                big_value(result) == factorial(i - 1),
            decreases n - i + 1,
        {
            let ghost before = big_value(result);
            assert(factorial(i as int) == i * factorial(i - 1));
            big_mul_assign(&mut result, i as i32);
            assert(big_value(result) == factorial(i as int)) by (nonlinear_arith)
                requires
                    big_value(result) == before * i,
                    factorial(i as int) == i * before,
            ;
            i = i + 1;
        }
        result
    }

    /// The Hyper-Catalan number of `type_`, `e! / (v! · Π m[i]!)` with
    /// `e = ⌊Σ (i + 2) · m[i] / 2⌋` and `v = 1 + Σ i · m[i]`, as an exact
    /// rational. A value already in the cache is returned from it, and the
    /// cache is left as it was; otherwise the new value is added.
    pub fn calculate(&mut self, type_: &SubdigonType) -> (r: BigRational)
        requires
            old(self).wf(),
            valid_counts(type_.m@),
        ensures
            final(self).wf(),
            represents(r, hc_numerator(type_.m@), hc_denominator(type_.m@)),
            ratio_numer(r) > 0,
            final(self).lookup(type_.m@) == Some((ratio_numer(r), ratio_denom(r))),
            old(self).lookup(type_.m@) is Some ==> old(self).lookup(type_.m@) == Some(
                (ratio_numer(r), ratio_denom(r)),
            ),
            old(self).lookup(type_.m@) is Some ==> final(self).cache_size() == old(
                self,
            ).cache_size(),
            old(self).lookup(type_.m@) is Some ==> *final(self) == *old(self),
            old(self).lookup(type_.m@) is None ==> final(self).cache_size() == old(self).cache_size()
                + 1,
            forall|m: Seq<i32>| m != type_.m@ ==> #[trigger] final(self).lookup(m) == old(self).lookup(m),
    {
        proof {
            lemma_hyper_catalan_positive(type_.m@);
        }
        let mut k: usize = self.cache.len();
        assert(self.cache@.subrange(0, k as int) =~= self.cache@);
        while k > 0
            invariant
                k <= self.cache.len(),
                self.wf(),
                valid_counts(type_.m@),
                lookup_in(self.cache@, type_.m@) == lookup_in(self.cache@.subrange(0, k as int), type_.m@),
            decreases k,
        {
            let i = k - 1;
            proof {
                let s = self.cache@.subrange(0, k as int);
                assert(s.drop_last() =~= self.cache@.subrange(0, i as int));
                assert(s.last() == self.cache@[i as int]);
            }
            if self.cache[i].0 == *type_ {
                let r = ratio_clone(&self.cache[i].1);
                proof {
                    let e = self.cache@[i as int];
                    assert(represents(e.1, hc_numerator(e.0.m@), hc_denominator(e.0.m@)));
                    lemma_hyper_catalan_positive(type_.m@);
                    Self::lemma_numer_positive(r, hc_numerator(type_.m@), hc_denominator(type_.m@));
                }
                return r;
            }
            k = i;
        }
        proof {
            lemma_sums_bounded(type_.m@);
        }
        let mut e: i32 = 0;
        let mut v: i32 = 1;
        let mut j: usize = 0;
        while j < type_.m.len()
            invariant
                j <= type_.m.len(),
                valid_counts(type_.m@),
                count_sum_zero_bound(type_.m@),
                e == side_sum(type_.m@.subrange(0, j as int)),
                v == 1 + index_sum(type_.m@.subrange(0, j as int)),
            decreases type_.m.len() - j,
        {
            proof {
                let s = type_.m@.subrange(0, j as int + 1);
                assert(s.drop_last() =~= type_.m@.subrange(0, j as int));
                assert(s.last() == type_.m@[j as int]);
                lemma_prefix_bounds(type_.m@, j as int + 1);
                lemma_prefix_bounds(type_.m@, j as int);
            }
            e = e + (j as i32 + 2) * type_.m[j];
            v = v + (j as i32) * type_.m[j];
            j = j + 1;
        }
        proof {
            assert(type_.m@.subrange(0, j as int) =~= type_.m@);
        }
        e = e / 2;
        let numerator = self.factorial(e);
        let mut denominator = self.factorial(v);
        let mut j: usize = 0;
        while j < type_.m.len()
            invariant
                j <= type_.m.len(),
                big_value(denominator) == factorial(v as int) * count_factorials(
                    type_.m@.subrange(0, j as int),
                ),
            decreases type_.m.len() - j,
        {
            proof {
                let s = type_.m@.subrange(0, j as int + 1);
                assert(s.drop_last() =~= type_.m@.subrange(0, j as int));
                assert(s.last() == type_.m@[j as int]);
            }
            let count = type_.m[j];
            if count > 0 {
                let f = self.factorial(count);
                big_mul_assign_big(&mut denominator, f);
            }
            proof {
                let a = factorial(v as int);
                let b = count_factorials(type_.m@.subrange(0, j as int));
                let c = factorial(count as int);
                assert(a * (b * c) == a * b * c) by (nonlinear_arith);
            }
            j = j + 1;
        }
        proof {
            assert(type_.m@.subrange(0, j as int) =~= type_.m@);
        }
        proof {
            lemma_hyper_catalan_positive(type_.m@);
        }
        let result = make_ratio(numerator, denominator);
        proof {
            Self::lemma_numer_positive(result, hc_numerator(type_.m@), hc_denominator(type_.m@));
        }
        let stored = ratio_clone(&result);
        let key = SubdigonType::new(type_.m.clone());
        proof {
            assert(key.m@ =~= type_.m@);
        }
        let ghost before = self.cache@;
        self.cache.push((key, stored));
        proof {
            assert(self.cache@.drop_last() =~= before);
            assert forall|m: Seq<i32>| m != type_.m@ implies #[trigger] lookup_in(self.cache@, m)
                == lookup_in(before, m) by {
                assert(self.cache@.drop_last() =~= before);
            }
            assert forall|k: int| 0 <= k < self.cache.len() implies {
                let e = #[trigger] self.cache@[k];
                &&& valid_counts(e.0.m@)
                &&& represents(e.1, hc_numerator(e.0.m@), hc_denominator(e.0.m@))
            } by {
                if k < before.len() {
                    assert(self.cache@[k] == before[k]);
                }
            }
        }
        result
    }

    proof fn lemma_numer_positive(r: BigRational, n: int, d: int)
        requires
            represents(r, n, d),
            n > 0,
            d > 0,
        ensures
            ratio_numer(r) > 0,
    {
        let a = ratio_numer(r);
        let b = ratio_denom(r);
        assert(a > 0) by (nonlinear_arith)
            requires
                a * d == n * b,
                n > 0,
                d > 0,
                b > 0,
        ;
    }
}

/// Counts that sum to zero have a zero index sum, and the side total covers
/// both other sums.
spec fn count_sum_zero_bound(m: Seq<i32>) -> bool {
    &&& crate::subdigon::count_sum(m) == 0 ==> index_sum(m) == 0
    &&& 2 * crate::subdigon::count_sum(m) + index_sum(m) == side_sum(m)
}

} // verus!
