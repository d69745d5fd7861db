use crate::calculator::{hc_denominator, hc_numerator, HyperCatalanCalculator};
use crate::exact::{ratio_denom, ratio_numer, represents};
use crate::subdigon::{count_sum, side_sum, valid_counts, SubdigonType};
use num::BigRational;
use vstd::prelude::*;

verus! {

/// All vectors of `parts` non-negative entries that sum to `total`, in
/// depth-first order: the first entry varies slowest, the last fastest.
pub open spec fn compositions(total: nat, parts: nat) -> Seq<Seq<i32>>
    decreases parts, total + 2,
{
    if parts == 0 {
        if total == 0 {
            seq![Seq::empty()]
        } else {
            Seq::empty()
        }
    } else {
        compositions_led(total, parts, total + 1)
    }
}

/// The compositions of `total` into `parts` entries whose first entry is
/// below `k`, in the order of `compositions`.
pub open spec fn compositions_led(total: nat, parts: nat, k: nat) -> Seq<Seq<i32>>
    decreases parts, k,
{
    if parts == 0 || k == 0 || k > total + 1 {
        Seq::empty()
    } else {
        compositions_led(total, parts, (k - 1) as nat) + prepend(
            (k - 1) as i32,
            compositions((total - (k - 1)) as nat, (parts - 1) as nat),
        )
    }
}

/// Each sequence of `ss` with `v` put in front.
pub open spec fn prepend(v: i32, ss: Seq<Seq<i32>>) -> Seq<Seq<i32>> {
    ss.map_values(|s: Seq<i32>| seq![v] + s)
}

/// Each sequence of `ss` with the prefix `p` put in front.
pub open spec fn prefixed(p: Seq<i32>, ss: Seq<Seq<i32>>) -> Seq<Seq<i32>> {
    ss.map_values(|s: Seq<i32>| p + s)
}

/// The types of the truncated series: the compositions into `parts` entries
/// of every face total from 0 up to `terms − 1`, in that order.
pub open spec fn series_types(terms: nat, parts: nat) -> Seq<Seq<i32>>
    decreases terms,
{
    if terms == 0 {
        Seq::empty()
    } else {
        series_types((terms - 1) as nat, parts) + compositions((terms - 1) as nat, parts)
    }
}

proof fn lemma_prefixed_concat(p: Seq<i32>, a: Seq<Seq<i32>>, b: Seq<Seq<i32>>)
    ensures
        prefixed(p, a + b) == prefixed(p, a) + prefixed(p, b),
{
    assert(prefixed(p, a + b) =~= prefixed(p, a) + prefixed(p, b));
}

proof fn lemma_prefixed_prepend(p: Seq<i32>, v: i32, ss: Seq<Seq<i32>>)
    ensures
        prefixed(p, prepend(v, ss)) == prefixed(p.push(v), ss),
{
    assert forall|j: int| 0 <= j < ss.len() implies #[trigger] prefixed(p, prepend(v, ss))[j]
        == prefixed(p.push(v), ss)[j] by {
        assert(p + (seq![v] + ss[j]) =~= p.push(v) + ss[j]);
    }
    assert(prefixed(p, prepend(v, ss)) =~= prefixed(p.push(v), ss));
}

proof fn lemma_count_sum_prepend(v: i32, s: Seq<i32>)
    ensures
        count_sum(seq![v] + s) == v + count_sum(s),
    decreases s.len(),
{
    if s.len() > 0 {
        lemma_count_sum_prepend(v, s.drop_last());
        assert((seq![v] + s).drop_last() =~= seq![v] + s.drop_last());
        assert((seq![v] + s).last() == s.last());
    } else {
        assert((seq![v] + s).drop_last() =~= Seq::<i32>::empty());
        assert((seq![v] + s).last() == v);
        assert(count_sum(Seq::<i32>::empty()) == 0);
    }
}

/// A composition: `parts` non-negative entries summing to `total`.
pub open spec fn is_composition(s: Seq<i32>, total: nat, parts: nat) -> bool {
    &&& s.len() == parts
    &&& forall|i: int| 0 <= i < s.len() ==> 0 <= #[trigger] s[i]
    &&& count_sum(s) == total
}

/// Every enumerated type has `parts` non-negative entries that sum to
/// `total`.
pub proof fn lemma_compositions_sound(total: nat, parts: nat)
    requires
        total <= i32::MAX,
    ensures
        forall|j: int|
            0 <= j < compositions(total, parts).len() ==> is_composition(
                #[trigger] compositions(total, parts)[j],
                total,
                parts,
            ),
    decreases parts, total + 2,
{
    let c = compositions(total, parts);
    if parts > 0 {
        lemma_compositions_led_sound(total, parts, total + 1);
        assert(c == compositions_led(total, parts, total + 1));
    } else if total == 0 {
        assert(count_sum(Seq::<i32>::empty()) == 0);
        assert(c == seq![Seq::<i32>::empty()]);
        assert(is_composition(c[0], total, parts));
    } else {
        assert(c.len() == 0);
    }
}

proof fn lemma_compositions_led_sound(total: nat, parts: nat, k: nat)
    requires
        total <= i32::MAX,
    ensures
        forall|j: int|
            0 <= j < compositions_led(total, parts, k).len() ==> is_composition(
                #[trigger] compositions_led(total, parts, k)[j],
                total,
                parts,
            ),
    decreases parts, k,
{
    if !(parts == 0 || k == 0 || k > total + 1) {
        let v = (k - 1) as i32;
        let rest = compositions((total - (k - 1)) as nat, (parts - 1) as nat);
        let a = compositions_led(total, parts, (k - 1) as nat);
        lemma_compositions_led_sound(total, parts, (k - 1) as nat);
        lemma_compositions_sound((total - (k - 1)) as nat, (parts - 1) as nat);
        let all = compositions_led(total, parts, k);
        assert forall|j: int| 0 <= j < all.len() implies is_composition(
            #[trigger] all[j],
            total,
            parts,
        ) by {
            if j >= a.len() {
                let s = rest[j - a.len()];
                assert(all[j] == seq![v] + s);
                assert(is_composition(s, (total - (k - 1)) as nat, (parts - 1) as nat));
                lemma_count_sum_prepend(v, s);
                assert forall|i: int| 0 <= i < all[j].len() implies 0 <= #[trigger] all[j][i] by {
                    if i > 0 {
                        assert(all[j][i] == s[i - 1]);
                    }
                }
            } else {
                assert(all[j] == a[j]);
            }
        }
    }
}

/// Every vector of `parts` non-negative entries that sum to `total` is
/// enumerated.
pub proof fn lemma_compositions_complete(s: Seq<i32>, total: nat, parts: nat)
    requires
        is_composition(s, total, parts),
        total <= i32::MAX,
    ensures
        compositions(total, parts).contains(s),
    decreases parts,
{
    if parts == 0 {
        assert(s =~= Seq::<i32>::empty());
        assert(count_sum(s) == 0);
        assert(compositions(total, parts) == seq![Seq::<i32>::empty()]);
        assert(compositions(total, parts)[0] == s);
    } else {
        let v = s[0];
        let rest = s.subrange(1, s.len() as int);
        assert(s =~= seq![v] + rest);
        lemma_count_sum_prepend(v, rest);
        assert forall|i: int| 0 <= i < rest.len() implies 0 <= #[trigger] rest[i] by {
            assert(rest[i] == s[i + 1]);
        }
        crate::subdigon::lemma_sums_bounded(rest);
        assert(0 <= v <= total);
        assert(is_composition(rest, (total - v) as nat, (parts - 1) as nat));
        lemma_compositions_complete(rest, (total - v) as nat, (parts - 1) as nat);
        lemma_led_contains(total, parts, total + 1, v, rest);
        assert(compositions(total, parts) == compositions_led(total, parts, total + 1));
    }
}

/// The enumeration holds exactly the compositions: a vector is enumerated if
/// and only if it has `parts` non-negative entries that sum to `total`.
pub proof fn lemma_compositions_exact(total: nat, parts: nat)
    requires
        total <= i32::MAX,
    ensures
        forall|s: Seq<i32>| #[trigger]
            compositions(total, parts).contains(s) <==> is_composition(s, total, parts),
{
    lemma_compositions_sound(total, parts);
    assert forall|s: Seq<i32>| #[trigger]
        compositions(total, parts).contains(s) <==> is_composition(s, total, parts) by {
        if is_composition(s, total, parts) {
            lemma_compositions_complete(s, total, parts);
        }
    }
}

proof fn lemma_led_contains(total: nat, parts: nat, k: nat, v: i32, rest: Seq<i32>)
    requires
        parts > 0,
        total <= i32::MAX,
        0 <= v < k <= total + 1,
        compositions((total - v) as nat, (parts - 1) as nat).contains(rest),
    ensures
        compositions_led(total, parts, k).contains(seq![v] + rest),
    decreases k,
{
    let a = compositions_led(total, parts, (k - 1) as nat);
    let rs = compositions((total - (k - 1)) as nat, (parts - 1) as nat);
    let b = prepend((k - 1) as i32, rs);
    assert(compositions_led(total, parts, k) == a + b);
    if v == k - 1 {
        let j = choose|j: int| 0 <= j < rs.len() && rs[j] == rest;
        assert(b[j] == seq![v] + rest);
        assert((a + b)[a.len() + j] == b[j]);
    } else {
        lemma_led_contains(total, parts, (k - 1) as nat, v, rest);
        let j = choose|j: int| 0 <= j < a.len() && a[j] == seq![v] + rest;
        assert((a + b)[j] == a[j]);
    }
}

/// With non-negative entries the side total is at most `(len + 1)` times the
/// face count.
proof fn lemma_side_sum_bound(m: Seq<i32>)
    requires
        forall|i: int| 0 <= i < m.len() ==> 0 <= #[trigger] m[i],
    ensures
        side_sum(m) <= (m.len() + 1) * count_sum(m),
    decreases m.len(),
{
    if m.len() > 0 {
        let p = m.drop_last();
        assert forall|i: int| 0 <= i < p.len() implies 0 <= #[trigger] p[i] by {
            assert(p[i] == m[i]);
        }
        lemma_side_sum_bound(p);
        crate::subdigon::lemma_sums_bounded(p);
        let c = count_sum(p);
        let l = m.last() as int;
        let n = m.len() as int;
        assert(0 <= l);
        assert(side_sum(p) + (n + 1) * l <= (n + 1) * (c + l)) by (nonlinear_arith)
            requires
                side_sum(p) <= n * c,
                c >= 0,
                n >= 1,
        ;
    }
}

/// Why a polynomial cannot be put into geometric form.
#[derive(Debug, Clone, Copy, PartialEq, Eq, Structural)]
pub enum SolveError {
    /// Fewer than two coefficients: the degree is below one.
    DegreeTooLow,
    /// The coefficient of `x` is zero.
    ZeroLinearCoefficient,
}

/// Decides whether a polynomial with `count` coefficients, whose linear
/// coefficient is zero exactly when `linear_is_zero`, can be solved by the
/// series: the degree must be at least one, then the linear coefficient
/// must be nonzero.
pub fn check_coefficients(count: usize, linear_is_zero: bool) -> (r: Result<(), SolveError>)
    ensures
        count < 2 ==> r == Err::<(), SolveError>(SolveError::DegreeTooLow),
        count >= 2 && linear_is_zero ==> r == Err::<(), SolveError>(
            SolveError::ZeroLinearCoefficient,
        ),
        count >= 2 && !linear_is_zero ==> r is Ok,
{
    if count < 2 {
        Err(SolveError::DegreeTooLow)
    } else if linear_is_zero {
        Err(SolveError::ZeroLinearCoefficient)
    } else {
        Ok(())
    }
}

/// Approximates roots of polynomials by the Hyper-Catalan series, holding the
/// size bounds of the series and a calculator whose cache lives as long as
/// the solver.
pub struct HyperCatalanPolynomialSolver {
    max_degree: usize,
    max_terms: usize,
    calculator: HyperCatalanCalculator,
    debug_mode: bool,
}

impl HyperCatalanPolynomialSolver {
    /// Bound on polygon size.
    pub closed spec fn spec_max_degree(&self) -> nat {
        self.max_degree as nat
    }

    /// Bound on the face totals of the series.
    pub closed spec fn spec_max_terms(&self) -> nat {
        self.max_terms as nat
    }

    /// Whether tracing is on.
    pub closed spec fn spec_debug_mode(&self) -> bool {
        self.debug_mode
    }

    /// The calculator's cache is sound.
    pub closed spec fn wf(&self) -> bool {
        self.calculator.wf()
    }

    /// The cached fraction (numerator, denominator) for the counts `m`, if any.
    pub closed spec fn lookup(&self, m: Seq<i32>) -> Option<(int, int)> {
        self.calculator.lookup(m)
    }

    /// A solver with the given bounds, a fresh calculator and tracing off.
    pub fn new(max_degree: usize, max_terms: usize) -> (r: Self)
        ensures
            r.wf(),
            r.spec_max_degree() == max_degree,
            r.spec_max_terms() == max_terms,
            !r.spec_debug_mode(),
            forall|m: Seq<i32>| #[trigger] r.lookup(m) is None,
    {
        HyperCatalanPolynomialSolver {
            max_degree,
            max_terms,
            calculator: HyperCatalanCalculator::new(),
            debug_mode: false,
        }
    }

    /// A solver with the given bounds, a fresh calculator and tracing on.
    pub fn new_with_debug(max_degree: usize, max_terms: usize) -> (r: Self)
        ensures
            r.wf(),
            r.spec_max_degree() == max_degree,
            r.spec_max_terms() == max_terms,
            r.spec_debug_mode(),
            forall|m: Seq<i32>| #[trigger] r.lookup(m) is None,
    {
        HyperCatalanPolynomialSolver {
            max_degree,
            max_terms,
            calculator: HyperCatalanCalculator::new(),
            debug_mode: true,
        }
    }

    /// Turns tracing on or off; nothing else changes.
    pub fn set_debug_mode(&mut self, debug: bool)
        ensures
            final(self).spec_debug_mode() == debug,
            final(self).spec_max_degree() == old(self).spec_max_degree(),
            final(self).spec_max_terms() == old(self).spec_max_terms(),
            final(self).wf() == old(self).wf(),
            forall|m: Seq<i32>| #[trigger] final(self).lookup(m) == old(self).lookup(m),
    {
        self.debug_mode = debug;
    }

    /// Bound on polygon size: types have `max_degree − 1` counts.
    pub fn max_degree(&self) -> (r: usize)
        ensures
            r == self.spec_max_degree(),
    {
        self.max_degree
    }

    /// Number of face totals that the series sums over.
    pub fn max_terms(&self) -> (r: usize)
        ensures
            r == self.spec_max_terms(),
    {
        self.max_terms
    }

    /// Whether tracing is on.
    pub fn debug_mode(&self) -> (r: bool)
        ensures
            r == self.spec_debug_mode(),
    {
        self.debug_mode
    }

    /// The terms of the truncated Hyper-Catalan series, without the geometric
    /// coefficients: for each face total from 0 up to `max_terms − 1`, each
    /// type with `max_degree − 1` counts (in the order of `generate_types`),
    /// paired with its exact Hyper-Catalan number from the calculator.
    pub fn series_terms(&mut self) -> (r: Vec<(SubdigonType, BigRational)>)
        requires
            old(self).wf(),
            old(self).spec_max_degree() >= 1,
            old(self).spec_max_degree() * old(self).spec_max_terms() <= i32::MAX,
        ensures
            final(self).wf(),
            final(self).spec_max_degree() == old(self).spec_max_degree(),
            final(self).spec_max_terms() == old(self).spec_max_terms(),
            final(self).spec_debug_mode() == old(self).spec_debug_mode(),
            r@.map_values(|e: (SubdigonType, BigRational)| e.0.m@) == series_types(
                old(self).spec_max_terms(),
                (old(self).spec_max_degree() - 1) as nat,
            ),
            forall|k: int|
                0 <= k < r.len() ==> {
                    let e = #[trigger] r@[k];
                    &&& represents(e.1, hc_numerator(e.0.m@), hc_denominator(e.0.m@))
                    &&& final(self).lookup(e.0.m@) == Some((ratio_numer(e.1), ratio_denom(e.1)))
                },
    {
        let mut out: Vec<(SubdigonType, BigRational)> = Vec::new();
        let parts = self.max_degree - 1;
        let ghost degree = self.max_degree;
        let ghost terms = self.max_terms;
        let ghost debug = self.debug_mode;
        let mut total: usize = 0;
        assert(out@.map_values(|e: (SubdigonType, BigRational)| e.0.m@) =~= series_types(
            0,
            parts as nat,
        ));
        while total < self.max_terms
            invariant
                self.wf(),
                self.max_degree == degree,
                self.max_terms == terms,
                self.debug_mode == debug,
                degree >= 1,
                degree * terms <= i32::MAX,
                parts == degree - 1,
                total <= terms,
                out@.map_values(|e: (SubdigonType, BigRational)| e.0.m@) == series_types(
                    total as nat,
                    parts as nat,
                ),
                forall|k: int|
                    0 <= k < out.len() ==> {
                        let e = #[trigger] out@[k];
                        &&& represents(e.1, hc_numerator(e.0.m@), hc_denominator(e.0.m@))
                        &&& self.lookup(e.0.m@) == Some((ratio_numer(e.1), ratio_denom(e.1)))
                    },
            decreases terms - total,
        {
            proof {
                assert(total <= i32::MAX) by (nonlinear_arith)
                    requires
                        total < terms,
                        degree >= 1,
                        degree * terms <= i32::MAX,
                ;
                lemma_compositions_sound(total as nat, parts as nat);
            }
            let types = self.generate_types(total, parts);
            let ghost comps = compositions(total as nat, parts as nat);
            let ghost base = series_types(total as nat, parts as nat);
            let mut j: usize = 0;
            proof {
                assert(comps.subrange(0, 0) =~= Seq::<Seq<i32>>::empty());
                assert(base + comps.subrange(0, 0) =~= base);
            }
            while j < types.len()
                invariant
                    self.wf(),
                    self.max_degree == degree,
                    self.max_terms == terms,
                    self.debug_mode == debug,
                    degree >= 1,
                    degree * terms <= i32::MAX,
                    parts == degree - 1,
                    total < terms,
                    j <= types.len(),
                    types.deep_view() == comps,
                    forall|q: int|
                        0 <= q < comps.len() ==> is_composition(
                            #[trigger] comps[q],
                            total as nat,
                            parts as nat,
                        ),
                    out@.map_values(|e: (SubdigonType, BigRational)| e.0.m@) == base
                        + comps.subrange(0, j as int),
                    forall|k: int|
                        0 <= k < out.len() ==> {
                            let e = #[trigger] out@[k];
                            &&& represents(e.1, hc_numerator(e.0.m@), hc_denominator(e.0.m@))
                            &&& self.lookup(e.0.m@) == Some((ratio_numer(e.1), ratio_denom(e.1)))
                        },
                decreases types.len() - j,
            {
                let t = SubdigonType::new(types[j].clone());
                proof {
                    assert(types.deep_view()[j as int] =~= types@[j as int]@);
                    assert(t.m@ =~= comps[j as int]);
                    let m = t.m@;
                    assert(is_composition(m, total as nat, parts as nat));
                    lemma_side_sum_bound(m);
                    assert(side_sum(m) <= i32::MAX) by (nonlinear_arith)
                        requires
                            side_sum(m) <= (parts + 1) * total,
                            parts + 1 == degree,
                            total < terms,
                            degree * terms <= i32::MAX,
                            total >= 0,
                    ;
                    assert(parts < i32::MAX) by (nonlinear_arith)
                        requires
                            parts + 1 == degree,
                            total < terms,
                            degree * terms <= i32::MAX,
                    ;
                }
                let c = self.calculator.calculate(&t);
                let ghost prev = out@;
                let ghost tm = t.m@;
                out.push((t, c));
                proof {
                    let f = |e: (SubdigonType, BigRational)| e.0.m@;
                    let want = base + comps.subrange(0, j + 1);
                    let had = base + comps.subrange(0, j as int);
                    assert(prev.map_values(f) == had);
                    assert(types.deep_view().len() == types.len());
                    assert(comps.len() == types.len());
                    assert(out@.len() == prev.len() + 1);
                    assert(had.len() == prev.len());
                    assert(want.len() == had.len() + 1);
                    assert(out@.map_values(f).len() == want.len());
                    assert forall|k: int| 0 <= k < out.len() implies #[trigger] out@.map_values(
                        f,
                    )[k] == want[k] by {
                        if k < prev.len() {
                            assert(out@[k] == prev[k]);
                            assert(prev.map_values(f)[k] == had[k]);
                        } else {
                            assert(out@[k].0.m@ == tm);
                        }
                    }
                    assert(out@.map_values(f) =~= want);
                    assert forall|k: int| 0 <= k < out.len() implies {
                        let e = #[trigger] out@[k];
                        &&& represents(e.1, hc_numerator(e.0.m@), hc_denominator(e.0.m@))
                        &&& self.lookup(e.0.m@) == Some((ratio_numer(e.1), ratio_denom(e.1)))
                    } by {
                        if k < prev.len() {
                            assert(out@[k] == prev[k]);
                        }
                    }
                }
                j = j + 1;
            }
            proof {
                assert(comps.subrange(0, j as int) =~= comps);
            }
            total = total + 1;
        }
        out
    }

    /// Every vector of `max_polygon_size` non-negative entries that sum to
    /// `total_faces`, first entry slowest.
    pub fn generate_types(&self, total_faces: usize, max_polygon_size: usize) -> (r: Vec<Vec<i32>>)
        requires
            total_faces <= i32::MAX,
        ensures
            r.deep_view() == compositions(total_faces as nat, max_polygon_size as nat),
    {
        let mut results: Vec<Vec<i32>> = Vec::new();
        let mut current: Vec<i32> = Vec::new();
        let mut j: usize = 0;
        while j < max_polygon_size
            invariant
                j <= max_polygon_size,
                current.len() == j,
            decreases max_polygon_size - j,
        {
            current.push(0);
            j = j + 1;
        }
        self.generate_types_recursive(&mut results, &mut current, total_faces, 0, max_polygon_size);
        proof {
            assert(current@.subrange(0, 0) =~= Seq::<i32>::empty());
            let c = compositions(total_faces as nat, max_polygon_size as nat);
            assert(prefixed(Seq::<i32>::empty(), c) =~= c) by {
                assert forall|k: int| 0 <= k < c.len() implies #[trigger] prefixed(
                    Seq::<i32>::empty(),
                    c,
                )[k] == c[k] by {
                    assert(Seq::<i32>::empty() + c[k] =~= c[k]);
                }
            }
            assert(Seq::<Seq<i32>>::empty() + c =~= c);
        }
        results
    }

    /// Appends to `results`, for every way to fill the entries from `index`
    /// on with non-negative values summing to `remaining_faces`, the vector
    /// `current` with those entries, in depth-first order.
    fn generate_types_recursive(
        &self,
        results: &mut Vec<Vec<i32>>,
        current: &mut Vec<i32>,
        remaining_faces: usize,
        index: usize,
        max_polygon_size: usize,
    )
        requires
            index <= max_polygon_size,
            old(current).len() == max_polygon_size,
            remaining_faces <= i32::MAX,
        ensures
            final(current).len() == max_polygon_size,
            final(current)@.subrange(0, index as int) == old(current)@.subrange(0, index as int),
            final(results).deep_view() == old(results).deep_view() + prefixed(
                old(current)@.subrange(0, index as int),
                compositions(remaining_faces as nat, (max_polygon_size - index) as nat),
            ),
        decreases max_polygon_size - index,
    {
        let ghost prefix = current@.subrange(0, index as int);
        let ghost start = results.deep_view();
        if index == max_polygon_size {
            if remaining_faces == 0 {
                let v = current.clone();
                proof {
                    assert(v.deep_view() =~= current@);
                    assert(current@ =~= prefix);
                }
                results.push(v);
                proof {
                    assert(prefix + Seq::<i32>::empty() =~= prefix);
                    assert(results.deep_view() =~= start + prefixed(prefix, seq![Seq::empty()]));
                }
            } else {
                assert(start + prefixed(prefix, Seq::empty()) =~= start);
            }
            return;
        }
        let ghost parts = (max_polygon_size - index) as nat;
        assert(start + prefixed(prefix, Seq::empty()) =~= start);
        let mut i: usize = 0;
        while i <= remaining_faces
            invariant
                index < max_polygon_size,
                remaining_faces <= i32::MAX,
                parts == max_polygon_size - index,
                i <= remaining_faces + 1,
                current.len() == max_polygon_size,
                current@.subrange(0, index as int) == prefix,
                results.deep_view() == start + prefixed(
                    prefix,
                    compositions_led(remaining_faces as nat, parts, i as nat),
                ),
            decreases remaining_faces + 1 - i,
        {
            current.set(index, i as i32);
            proof {
                assert(current@.subrange(0, index as int + 1) =~= prefix.push(i as i32));
            }
            self.generate_types_recursive(
                results,
                current,
                remaining_faces - i,
                index + 1,
                max_polygon_size,
            );
            proof {
                let rest = compositions((remaining_faces - i) as nat, (parts - 1) as nat);
                let led = compositions_led(remaining_faces as nat, parts, i as nat);
                assert(compositions_led(remaining_faces as nat, parts, (i + 1) as nat) == led
                    + prepend(i as i32, rest));
                lemma_prefixed_concat(prefix, led, prepend(i as i32, rest));
                lemma_prefixed_prepend(prefix, i as i32, rest);
                assert(current@.subrange(0, index as int) =~= current@.subrange(
                    0,
                    index as int + 1,
                ).subrange(0, index as int));
            }
            i = i + 1;
        }
    }
}

} // verus!
