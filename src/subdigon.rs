use vstd::prelude::*;

verus! {

/// Number of faces: the sum of the counts.
pub open spec fn count_sum(m: Seq<i32>) -> int
    decreases m.len(),
{
    if m.len() == 0 {
        0
    } else {
        count_sum(m.drop_last()) + m.last()
    }
}

/// Sum of the sides of all polygons: `Σ (i + 2) · m[i]`.
pub open spec fn side_sum(m: Seq<i32>) -> int
    decreases m.len(),
{
    if m.len() == 0 {
        0
    } else {
        side_sum(m.drop_last()) + (m.len() + 1) * m.last()
    }
}

/// `Σ i · m[i]`.
pub open spec fn index_sum(m: Seq<i32>) -> int
    decreases m.len(),
{
    if m.len() == 0 {
        0
    } else {
        index_sum(m.drop_last()) + (m.len() - 1) * m.last()
    }
}

/// A sequence of polygon counts that the library accepts: every count is
/// non-negative and the side total fits in an `i32`.
pub open spec fn valid_counts(m: Seq<i32>) -> bool {
    &&& forall|i: int| 0 <= i < m.len() ==> 0 <= #[trigger] m[i]
    &&& side_sum(m) <= i32::MAX
    &&& m.len() < i32::MAX
}

/// Faces of a subdigon with counts `m`.
pub open spec fn spec_faces(m: Seq<i32>) -> int {
    count_sum(m)
}

/// Edges of a subdigon with counts `m`: half the side total, truncated.
pub open spec fn spec_edges(m: Seq<i32>) -> int {
    side_sum(m) / 2
}

/// Vertices of a subdigon with counts `m`, by Euler's formula.
pub open spec fn spec_vertices(m: Seq<i32>) -> int {
    spec_edges(m) - spec_faces(m) + 2
}

/// The character of the decimal digit `d`.
pub open spec fn digit_char(d: int) -> char {
    ((d + 48) as u8) as char
}

/// Decimal digits of `n`, most significant first, without leading zeros.
pub open spec fn digits(n: nat) -> Seq<char>
    decreases n,
{
    if n < 10 {
        seq![digit_char(n as int)]
    } else {
        digits(n / 10).push(digit_char((n % 10) as int))
    }
}

/// Decimal text of `n`, with a leading `-` when it is negative.
pub open spec fn decimal(n: int) -> Seq<char> {
    if n < 0 {
        seq!['-'] + digits((-n) as nat)
    } else {
        digits(n as nat)
    }
}

/// The counts in decimal, separated by commas.
pub open spec fn counts_text(m: Seq<i32>) -> Seq<char>
    decreases m.len(),
{
    if m.len() == 0 {
        Seq::empty()
    } else if m.len() == 1 {
        decimal(m[0] as int)
    } else {
        counts_text(m.drop_last()) + seq![','] + decimal(m.last() as int)
    }
}

/// Relies on `<i32 as ToString>::to_string`, which writes the integer in
/// decimal with a leading `-` when it is negative.
#[verifier::external_body]
fn decimal_text(v: i32) -> (r: String)
    ensures
        r@ == decimal(v as int),
{
    v.to_string()
}

/// With non-negative counts all sums are non-negative, the side total is
/// twice the face count plus the index sum, and no faces means no index sum.
pub proof fn lemma_sums_bounded(m: Seq<i32>)
    requires
        forall|i: int| 0 <= i < m.len() ==> 0 <= #[trigger] m[i],
    ensures
        0 <= count_sum(m),
        2 * count_sum(m) + index_sum(m) == side_sum(m),
        0 <= index_sum(m),
        count_sum(m) == 0 ==> index_sum(m) == 0,
    decreases m.len(),
{
    if m.len() > 0 {
        let p = m.drop_last();
        assert forall|i: int| 0 <= i < p.len() implies 0 <= #[trigger] p[i] by {
            assert(p[i] == m[i]);
        }
        lemma_sums_bounded(p);
        assert(0 <= m.last());
        assert((m.len() - 1) * m.last() >= 0) by (nonlinear_arith)
            requires
                m.len() >= 1,
                m.last() >= 0,
        ;
        assert((m.len() + 1) * m.last() == 2 * m.last() + (m.len() - 1) * m.last())
            by (nonlinear_arith);
        if m.last() == 0 {
            assert((m.len() - 1) * m.last() == 0);
        }
    }
}

/// Every prefix of valid counts has sums within the bounds of the whole.
pub proof fn lemma_prefix_bounds(m: Seq<i32>, k: int)
    requires
        valid_counts(m),
        0 <= k <= m.len(),
    ensures
        0 <= count_sum(m.subrange(0, k)) <= count_sum(m),
        0 <= side_sum(m.subrange(0, k)) <= side_sum(m),
        0 <= index_sum(m.subrange(0, k)) <= index_sum(m),
    decreases m.len() - k,
{
    let s = m.subrange(0, k);
    assert forall|i: int| 0 <= i < s.len() implies 0 <= #[trigger] s[i] by {
        assert(s[i] == m[i]);
    }
    lemma_sums_bounded(s);
    if k == m.len() {
        assert(s =~= m);
    } else {
        lemma_prefix_bounds(m, k + 1);
        let t = m.subrange(0, k + 1);
        assert(t.drop_last() =~= s);
        assert(t.last() == m[k]);
        assert(0 <= m[k]);
        assert((t.len() + 1) * t.last() >= 0) by (nonlinear_arith)
            requires
                t.last() >= 0,
                t.len() >= 0,
        ;
        assert((t.len() - 1) * t.last() >= 0) by (nonlinear_arith)
            requires
                t.last() >= 0,
                t.len() >= 1,
        ;
    }
}

/// Counts of polygons by size in a subdivided polygon: `m[i]` is the number
/// of polygons with `i + 2` sides.
#[derive(Debug, Clone, Eq, Hash)]
pub struct SubdigonType {
    pub m: Vec<i32>,
}

impl SubdigonType {
    /// A subdigon type with the given counts.
    pub fn new(values: Vec<i32>) -> (r: Self)
        ensures
            r.m@ == values@,
    {
        SubdigonType { m: values }
    }

    /// Number of faces: the sum of the counts.
    pub fn faces(&self) -> (r: i32)
        requires
            valid_counts(self.m@),
        ensures
            r == spec_faces(self.m@),
    {
        let mut total: i32 = 0;
        let mut i: usize = 0;
        while i < self.m.len()
            invariant
                i <= self.m.len(),
                valid_counts(self.m@),
                total == count_sum(self.m@.subrange(0, i as int)),
            decreases self.m.len() - i,
        {
            proof {
                lemma_prefix_bounds(self.m@, i as int + 1);
                let s = self.m@.subrange(0, i as int + 1);
                assert(s.drop_last() =~= self.m@.subrange(0, i as int));
                assert(s.last() == self.m@[i as int]);
                lemma_sums_bounded(self.m@);
            }
            total = total + self.m[i];
            i = i + 1;
        }
        assert(self.m@.subrange(0, i as int) =~= self.m@);
        total
    }

    /// Number of edges: `Σ (i + 2) · m[i]`, halved with truncation.
    pub fn edges(&self) -> (r: i32)
        requires
            valid_counts(self.m@),
        ensures
            r == spec_edges(self.m@),
    {
        let mut sum: i32 = 0;
        let mut i: usize = 0;
        while i < self.m.len()
            invariant
                i <= self.m.len(),
                valid_counts(self.m@),
                sum == side_sum(self.m@.subrange(0, i as int)),
            decreases self.m.len() - i,
        {
            proof {
                lemma_prefix_bounds(self.m@, i as int + 1);
                let s = self.m@.subrange(0, i as int + 1);
                assert(s.drop_last() =~= self.m@.subrange(0, i as int));
                assert(s.last() == self.m@[i as int]);
                assert(s.len() == i + 1);
                lemma_prefix_bounds(self.m@, i as int);
            }
            sum = sum + (i as i32 + 2) * self.m[i];
            i = i + 1;
        }
        assert(self.m@.subrange(0, i as int) =~= self.m@);
        proof {
            lemma_prefix_bounds(self.m@, i as int);
        }
        sum / 2
    }

    /// Number of vertices: `edges − faces + 2`.
    pub fn vertices(&self) -> (r: i32)
        requires
            valid_counts(self.m@),
        ensures
            r == spec_vertices(self.m@),
            r == spec_edges(self.m@) - spec_faces(self.m@) + 2,
    {
        proof {
            lemma_sums_bounded(self.m@);
        }
        self.edges() - self.faces() + 2
    }

    /// Text of the counts: `(` then the counts in decimal separated by
    /// commas, then `))`.
    pub fn to_string(&self) -> (r: String)
        ensures
            r@ == seq!['('] + counts_text(self.m@) + seq![')', ')'],
    {
        let mut text = String::from_str("(");
        proof {
            reveal_strlit("(");
            reveal_strlit(",");
            reveal_strlit("))");
            assert(text@ =~= seq!['('] + counts_text(self.m@.subrange(0, 0)));
        }
        let mut i: usize = 0;
        while i < self.m.len()
            invariant
                i <= self.m.len(),
                text@ == seq!['('] + counts_text(self.m@.subrange(0, i as int)),
            decreases self.m.len() - i,
        {
            proof {
                reveal_strlit(",");
            }
            let part = decimal_text(self.m[i]);
            let ghost before = text@;
            if i > 0 {
                text.append(",");
            }
            text.append(part.as_str());
            proof {
                let t = self.m@.subrange(0, i as int + 1);
                assert(t.drop_last() =~= self.m@.subrange(0, i as int));
                assert(t.last() == self.m@[i as int]);
                if i == 0 {
                    assert(text@ =~= seq!['('] + counts_text(t));
                } else {
                    assert(text@ =~= before + seq![','] + decimal(self.m@[i as int] as int));
                    assert(text@ =~= seq!['('] + counts_text(t));
                }
            }
            i = i + 1;
        }
        text.append("))");
        proof {
            reveal_strlit("))");
            assert(self.m@.subrange(0, i as int) =~= self.m@);
            assert(text@ =~= seq!['('] + counts_text(self.m@) + seq![')', ')']);
        }
        text
    }
}

impl PartialEq for SubdigonType {
    /// Structural equality of the counts.
    fn eq(&self, other: &SubdigonType) -> (r: bool) {
        if self.m.len() != other.m.len() {
            return false;
        }
        let mut i: usize = 0;
        while i < self.m.len()
            invariant
                i <= self.m.len(),
                self.m.len() == other.m.len(),
                forall|j: int| 0 <= j < i ==> self.m@[j] == other.m@[j],
            decreases self.m.len() - i,
        {
            if self.m[i] != other.m[i] {
                return false;
            }
            i = i + 1;
        }
        assert(self.m@ =~= other.m@);
        true
    }
}

impl vstd::std_specs::cmp::PartialEqSpecImpl for SubdigonType {
    open spec fn obeys_eq_spec() -> bool {
        true
    }

    open spec fn eq_spec(&self, other: &SubdigonType) -> bool {
        self.m@ == other.m@
    }
}

} // verus!
