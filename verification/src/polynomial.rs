//! Sparse polynomials kept in canonical form: terms sorted by strictly decreasing
//! monomial, with nonzero reduced coefficients.

use vstd::prelude::*;

use crate::monomial::{checked_mul, mul_fits, spec_mul, Monomial, MonomialError};
use crate::order::{compare, lemma_compare_equal, lemma_compare_flip, lemma_compare_mul, lemma_compare_trans, spec_gt, OrderRel};
use crate::ring::RingCtx;

verus! {

/// One term `coeff * mono`.
#[derive(Debug, Clone, PartialEq, Eq)]
pub struct Term {
    /// Coefficient, a reduced residue of the field.
    pub coeff: u32,
    /// Monomial.
    pub mono: Monomial,
}

/// Errors raised by polynomial arithmetic.
#[derive(Debug, Clone, Copy, PartialEq, Eq, Structural)]
pub enum PolynomialError {
    /// Monomial arithmetic failed.
    Monomial(MonomialError),
    /// A term has a different number of variables than the ring.
    VariableCountMismatch,
    /// The scalar is zero where a nonzero one is needed.
    ZeroScalar,
}

/// A polynomial as a list of terms.
#[derive(Debug, Clone, PartialEq, Eq)]
pub struct Polynomial {
    terms: Vec<Term>,
}

impl View for Polynomial {
    type V = Seq<Term>;

    closed spec fn view(&self) -> Seq<Term> {
        self.terms@
    }
}

/// Sum of the coefficients of the terms of `s` whose monomial is `m`.
pub open spec fn coeff_sum(s: Seq<Term>, m: Seq<u32>) -> int
    decreases s.len(),
{
    if s.len() == 0 {
        0
    } else {
        coeff_sum(s.drop_last(), m) + (if s.last().mono@ == m {
            s.last().coeff as int
        } else {
            0int
        })
    }
}

/// Canonical form: right variable count, nonzero reduced coefficients,
/// strictly decreasing monomials.
pub open spec fn poly_wf(ctx: RingCtx, s: Seq<Term>) -> bool {
    &&& forall|i: int| 0 <= i < s.len() ==> (#[trigger] s[i]).mono@.len() == ctx.nvars
    &&& forall|i: int| 0 <= i < s.len() ==> 0 < (#[trigger] s[i]).coeff < ctx.field.modulus()
    &&& forall|i: int, j: int|
        0 <= i < j < s.len() ==> spec_gt(ctx.order, (#[trigger] s[i]).mono@, (#[trigger] s[j]).mono@)
}

/// The `(coefficient, monomial)` pairs of a term list.
pub open spec fn term_pairs(s: Seq<Term>) -> Seq<(u32, Seq<u32>)> {
    Seq::new(s.len(), |i: int| (s[i].coeff, s[i].mono@))
}

pub proof fn lemma_coeff_sum_append(a: Seq<Term>, b: Seq<Term>, m: Seq<u32>)
    ensures
        coeff_sum(a + b, m) == coeff_sum(a, m) + coeff_sum(b, m),
    decreases b.len(),
{
    if b.len() == 0 {
        assert(a + b =~= a);
    } else {
        lemma_coeff_sum_append(a, b.drop_last(), m);
        assert((a + b).drop_last() =~= a + b.drop_last());
    }
}

pub proof fn lemma_coeff_sum_single(t: Term, m: Seq<u32>)
    ensures
        coeff_sum(seq![t], m) == (if t.mono@ == m { t.coeff as int } else { 0int }),
{
    assert(seq![t].drop_last() =~= Seq::<Term>::empty());
    assert(coeff_sum(Seq::<Term>::empty(), m) == 0);
    assert(seq![t].last() == t);
}

/// In a canonical polynomial, the coefficient sum of `m` is the coefficient of the unique
/// term with monomial `m`, or zero.
pub proof fn lemma_coeff_sum_wf(ctx: RingCtx, s: Seq<Term>, m: Seq<u32>)
    requires
        poly_wf(ctx, s),
    ensures
        (forall|i: int| 0 <= i < s.len() ==> (#[trigger] s[i]).mono@ != m) ==> coeff_sum(s, m) == 0,
        forall|i: int| 0 <= i < s.len() && (#[trigger] s[i]).mono@ == m ==> coeff_sum(s, m) == s[i].coeff,
    decreases s.len(),
{
    if s.len() > 0 {
        let s0 = s.drop_last();
        assert(poly_wf(ctx, s0)) by {
            assert forall|i: int, j: int| 0 <= i < j < s0.len() implies spec_gt(ctx.order, (#[trigger] s0[i]).mono@, (#[trigger] s0[j]).mono@) by {
                assert(s0[i] == s[i] && s0[j] == s[j]);
            }
        }
        lemma_coeff_sum_wf(ctx, s0, m);
        let n = s.len() - 1;
        if s[n].mono@ == m {
            assert forall|i: int| 0 <= i < s0.len() implies (#[trigger] s0[i]).mono@ != m by {
                assert(s0[i] == s[i]);
                assert(spec_gt(ctx.order, s[i].mono@, s[n].mono@));
                lemma_compare_equal(ctx.order, s[i].mono@, s[n].mono@);
            }
        }
        assert forall|i: int| 0 <= i < s.len() && (#[trigger] s[i]).mono@ == m implies coeff_sum(s, m) == s[i].coeff by {
            if i < n {
                assert(s0[i] == s[i]);
                assert(spec_gt(ctx.order, s[i].mono@, s[n].mono@));
                lemma_compare_equal(ctx.order, s[i].mono@, s[n].mono@);
            }
        }
    }
}

pub proof fn lemma_wf_subrange(ctx: RingCtx, s: Seq<Term>, lo: int, hi: int)
    requires
        poly_wf(ctx, s),
        0 <= lo <= hi <= s.len(),
    ensures
        poly_wf(ctx, s.subrange(lo, hi)),
{
    let r = s.subrange(lo, hi);
    assert forall|i: int, j: int| 0 <= i < j < r.len() implies spec_gt(ctx.order, (#[trigger] r[i]).mono@, (#[trigger] r[j]).mono@) by {
        assert(r[i] == s[lo + i] && r[j] == s[lo + j]);
    }
    assert forall|i: int| 0 <= i < r.len() implies 0 < (#[trigger] r[i]).coeff < ctx.field.modulus() by {
        assert(r[i] == s[lo + i]);
    }
    assert forall|i: int| 0 <= i < r.len() implies (#[trigger] r[i]).mono@.len() == ctx.nvars by {
        assert(r[i] == s[lo + i]);
    }
}

impl Polynomial {
    /// The zero polynomial.
    pub fn zero() -> (p: Polynomial)
        ensures
            p@ == Seq::<Term>::empty(),
    {
        Polynomial { terms: Vec::new() }
    }

    /// Wraps a term list that is already in canonical form for `ctx`.
    pub fn from_canonical_terms(ctx: &RingCtx, terms: Vec<Term>) -> (p: Polynomial)
        requires
            poly_wf(*ctx, terms@),
        ensures
            p@ == terms@,
    {
        Polynomial { terms }
    }

    /// `true` for the zero polynomial.
    pub fn is_zero(&self) -> (b: bool)
        ensures
            b == (self@.len() == 0),
    {
        self.terms.len() == 0
    }

    /// Number of terms.
    pub fn len(&self) -> (n: usize)
        ensures
            n == self@.len(),
    {
        self.terms.len()
    }

    /// Borrows the terms, largest monomial first.
    pub fn terms(&self) -> (t: &[Term])
        ensures
            t@ == self@,
    {
        self.terms.as_slice()
    }

    /// Leading monomial, `None` for the zero polynomial.
    pub fn leading_mono(&self) -> (m: Option<&Monomial>)
        ensures
            self@.len() == 0 ==> m is None,
            self@.len() > 0 ==> (m matches Some(x) && *x == self@[0].mono),
    {
        if self.terms.len() == 0 {
            None
        } else {
            Some(&self.terms[0].mono)
        }
    }

    /// Leading coefficient, `None` for the zero polynomial.
    pub fn leading_coeff(&self) -> (c: Option<u32>)
        ensures
            self@.len() == 0 ==> c is None,
            self@.len() > 0 ==> c == Some(self@[0].coeff),
    {
        if self.terms.len() == 0 {
            None
        } else {
            Some(self.terms[0].coeff)
        }
    }

    /// Leading term, `None` for the zero polynomial.
    pub fn leading_term(&self) -> (t: Option<&Term>)
        ensures
            self@.len() == 0 ==> t is None,
            self@.len() > 0 ==> (t matches Some(x) && *x == self@[0]),
    {
        if self.terms.len() == 0 {
            None
        } else {
            Some(&self.terms[0])
        }
    }

    /// A copy with the same terms.
    pub fn duplicate(&self) -> (p: Polynomial)
        ensures
            p@.len() == self@.len(),
            forall|i: int| 0 <= i < self@.len() ==> (#[trigger] p@[i]).coeff == self@[i].coeff && p@[i].mono@ == self@[i].mono@,
    {
        let mut v: Vec<Term> = Vec::new();
        let mut i: usize = 0;
        while i < self.terms.len()
            invariant
                i <= self@.len(),
                v@.len() == i,
                forall|k: int| 0 <= k < i ==> (#[trigger] v@[k]).coeff == self@[k].coeff && v@[k].mono@ == self@[k].mono@,
            decreases self@.len() - i,
        {
            let t = &self.terms[i];
            v.push(Term { coeff: t.coeff, mono: t.mono.duplicate() });
            i += 1;
        }
        Polynomial { terms: v }
    }
}

/// Two canonical polynomials whose terms with monomials other than `m` coincide
/// have the same coefficient sums away from `m`.
#[verifier::spinoff_prover]
proof fn lemma_same_off(ctx: RingCtx, a: Seq<Term>, b: Seq<Term>, m: Seq<u32>, x: Seq<u32>)
    requires
        poly_wf(ctx, a),
        poly_wf(ctx, b),
        x != m,
        forall|i: int| 0 <= i < a.len() && (#[trigger] a[i]).mono@ != m ==> exists|j: int| 0 <= j < b.len() && #[trigger] b[j] == a[i],
        forall|j: int| 0 <= j < b.len() && (#[trigger] b[j]).mono@ != m ==> exists|i: int| 0 <= i < a.len() && #[trigger] a[i] == b[j],
    ensures
        coeff_sum(a, x) == coeff_sum(b, x),
{
    lemma_coeff_sum_wf(ctx, a, x);
    lemma_coeff_sum_wf(ctx, b, x);
    if exists|i: int| 0 <= i < a.len() && (#[trigger] a[i]).mono@ == x {
        let i = choose|i: int| 0 <= i < a.len() && (#[trigger] a[i]).mono@ == x;
        let j = choose|j: int| 0 <= j < b.len() && #[trigger] b[j] == a[i];
        assert(b[j].mono@ == x);
    } else if exists|j: int| 0 <= j < b.len() && (#[trigger] b[j]).mono@ == x {
        let j = choose|j: int| 0 <= j < b.len() && (#[trigger] b[j]).mono@ == x;
        let i = choose|i: int| 0 <= i < a.len() && #[trigger] a[i] == b[j];
        assert(a[i].mono@ == x);
    }
}

/// The coefficient update that `add_term` promises.
pub open spec fn added(ctx: RingCtx, s0: Seq<Term>, s1: Seq<Term>, c: u32, m: Seq<u32>) -> bool {
    forall|x: Seq<u32>|
        #![trigger coeff_sum(s1, x)]
        coeff_sum(s1, x) == (coeff_sum(s0, x) + (if x == m {
            c as int
        } else {
            0int
        })) % ctx.field.modulus()
}

/// Distinct positions of a canonical polynomial hold distinct monomials.
pub proof fn lemma_wf_distinct(ctx: RingCtx, s: Seq<Term>, i: int, j: int)
    requires
        poly_wf(ctx, s),
        0 <= i < s.len(),
        0 <= j < s.len(),
        i != j,
    ensures
        s[i].mono@ != s[j].mono@,
{
    if i < j {
        assert(spec_gt(ctx.order, s[i].mono@, s[j].mono@));
        lemma_compare_equal(ctx.order, s[i].mono@, s[j].mono@);
    } else {
        assert(spec_gt(ctx.order, s[j].mono@, s[i].mono@));
        lemma_compare_equal(ctx.order, s[j].mono@, s[i].mono@);
    }
}

#[verifier::spinoff_prover]
proof fn lemma_wf_update(ctx: RingCtx, s0: Seq<Term>, k: int, t: Term)
    requires
        poly_wf(ctx, s0),
        0 <= k < s0.len(),
        s0[k].mono@ == t.mono@,
        0 < t.coeff < ctx.field.modulus(),
    ensures
        poly_wf(ctx, s0.update(k, t)),
{
    let s1 = s0.update(k, t);
    assert forall|i: int, j: int| 0 <= i < j < s1.len() implies spec_gt(ctx.order, (#[trigger] s1[i]).mono@, (#[trigger] s1[j]).mono@) by {
        assert(s1[i].mono@ == s0[i].mono@ && s1[j].mono@ == s0[j].mono@);
    }
    assert forall|i: int| 0 <= i < s1.len() implies 0 < (#[trigger] s1[i]).coeff < ctx.field.modulus() by {
        assert(i != k ==> s1[i] == s0[i]);
    }
    assert forall|i: int| 0 <= i < s1.len() implies (#[trigger] s1[i]).mono@.len() == ctx.nvars by {
        assert(s1[i].mono@ == s0[i].mono@);
    }
}

#[verifier::spinoff_prover]
proof fn lemma_wf_remove(ctx: RingCtx, s0: Seq<Term>, k: int)
    requires
        poly_wf(ctx, s0),
        0 <= k < s0.len(),
    ensures
        poly_wf(ctx, s0.remove(k)),
{
    let s1 = s0.remove(k);
    assert forall|i: int, j: int| 0 <= i < j < s1.len() implies spec_gt(ctx.order, (#[trigger] s1[i]).mono@, (#[trigger] s1[j]).mono@) by {
        let ii = if i < k { i } else { i + 1 };
        let jj = if j < k { j } else { j + 1 };
        assert(s1[i] == s0[ii] && s1[j] == s0[jj]);
    }
    assert forall|i: int| 0 <= i < s1.len() implies 0 < (#[trigger] s1[i]).coeff < ctx.field.modulus() by {
        let ii = if i < k { i } else { i + 1 };
        assert(s1[i] == s0[ii]);
    }
    assert forall|i: int| 0 <= i < s1.len() implies (#[trigger] s1[i]).mono@.len() == ctx.nvars by {
        let ii = if i < k { i } else { i + 1 };
        assert(s1[i] == s0[ii]);
    }
}

#[verifier::spinoff_prover]
proof fn lemma_add_case_update(ctx: RingCtx, s0: Seq<Term>, k: int, t: Term, c: u32, m: Seq<u32>)
    requires
        ctx.wf(),
        poly_wf(ctx, s0),
        0 <= k < s0.len(),
        s0[k].mono@ == m,
        t.mono@ == m,
        0 < t.coeff < ctx.field.modulus(),
        t.coeff == (s0[k].coeff + c) % ctx.field.modulus(),
    ensures
        poly_wf(ctx, s0.update(k, t)),
        added(ctx, s0, s0.update(k, t), c, m),
{
    let p = ctx.field.modulus();
    let s1 = s0.update(k, t);
    lemma_wf_update(ctx, s0, k, t);
    assert forall|x: Seq<u32>| #![trigger coeff_sum(s1, x)] coeff_sum(s1, x) == (coeff_sum(s0, x) + (if x == m { c as int } else { 0int })) % p by {
        lemma_update_coeff(ctx, s0, k, t, c, m, x);
    }
}

#[verifier::spinoff_prover]
#[verifier::rlimit(80)]
proof fn lemma_update_coeff(ctx: RingCtx, s0: Seq<Term>, k: int, t: Term, c: u32, m: Seq<u32>, x: Seq<u32>)
    requires
        ctx.wf(),
        poly_wf(ctx, s0),
        poly_wf(ctx, s0.update(k, t)),
        0 <= k < s0.len(),
        s0[k].mono@ == m,
        t.mono@ == m,
        t.coeff == (s0[k].coeff + c) % ctx.field.modulus(),
    ensures
        coeff_sum(s0.update(k, t), x) == (coeff_sum(s0, x) + (if x == m { c as int } else { 0int })) % ctx.field.modulus(),
{
    let p = ctx.field.modulus();
    let s1 = s0.update(k, t);
    if x == m {
        lemma_coeff_sum_wf(ctx, s1, x);
        lemma_coeff_sum_wf(ctx, s0, x);
        assert(s1[k].mono@ == x);
    } else {
        lemma_coeff_sum_wf(ctx, s0, x);
        assert forall|i: int| 0 <= i < s0.len() && (#[trigger] s0[i]).mono@ != m implies exists|j: int| 0 <= j < s1.len() && #[trigger] s1[j] == s0[i] by {
            assert(s1[i] == s0[i]);
        }
        assert forall|j: int| 0 <= j < s1.len() && (#[trigger] s1[j]).mono@ != m implies exists|i: int| 0 <= i < s0.len() && #[trigger] s0[i] == s1[j] by {
            assert(s1[j] == s0[j]);
        }
        lemma_same_off(ctx, s0, s1, m, x);
        vstd::arithmetic::div_mod::lemma_small_mod(coeff_sum(s0, x) as nat, p as nat);
    }
}

#[verifier::spinoff_prover]
proof fn lemma_remove_coeff_at(ctx: RingCtx, s0: Seq<Term>, k: int, c: u32, m: Seq<u32>)
    requires
        ctx.wf(),
        poly_wf(ctx, s0),
        poly_wf(ctx, s0.remove(k)),
        0 <= k < s0.len(),
        s0[k].mono@ == m,
        (s0[k].coeff + c) % ctx.field.modulus() == 0,
    ensures
        coeff_sum(s0.remove(k), m) == (coeff_sum(s0, m) + c) % ctx.field.modulus(),
{
    let s1 = s0.remove(k);
    lemma_coeff_sum_wf(ctx, s0, m);
    lemma_coeff_sum_wf(ctx, s1, m);
    assert forall|i: int| 0 <= i < s1.len() implies (#[trigger] s1[i]).mono@ != m by {
        let ii = if i < k { i } else { i + 1 };
        assert(s1[i] == s0[ii]);
        lemma_wf_distinct(ctx, s0, ii, k);
    }
}

#[verifier::spinoff_prover]
#[verifier::rlimit(80)]
proof fn lemma_remove_coeff_off(ctx: RingCtx, s0: Seq<Term>, k: int, m: Seq<u32>, x: Seq<u32>)
    requires
        ctx.wf(),
        poly_wf(ctx, s0),
        poly_wf(ctx, s0.remove(k)),
        0 <= k < s0.len(),
        s0[k].mono@ == m,
        x != m,
    ensures
        coeff_sum(s0.remove(k), x) == coeff_sum(s0, x) % ctx.field.modulus(),
{
    let p = ctx.field.modulus();
    let s1 = s0.remove(k);
    lemma_coeff_sum_wf(ctx, s0, x);
    assert forall|i: int| 0 <= i < s0.len() && (#[trigger] s0[i]).mono@ != m implies exists|j: int| 0 <= j < s1.len() && #[trigger] s1[j] == s0[i] by {
        let jj = if i < k { i } else { i - 1 };
        assert(s1[jj] == s0[i]);
    }
    assert forall|j: int| 0 <= j < s1.len() && (#[trigger] s1[j]).mono@ != m implies exists|i: int| 0 <= i < s0.len() && #[trigger] s0[i] == s1[j] by {
        let ii = if j < k { j } else { j + 1 };
        assert(s1[j] == s0[ii]);
    }
    lemma_same_off(ctx, s0, s1, m, x);
    vstd::arithmetic::div_mod::lemma_small_mod(coeff_sum(s0, x) as nat, p as nat);
}

proof fn lemma_remove_coeff(ctx: RingCtx, s0: Seq<Term>, k: int, c: u32, m: Seq<u32>, x: Seq<u32>)
    requires
        ctx.wf(),
        poly_wf(ctx, s0),
        poly_wf(ctx, s0.remove(k)),
        0 <= k < s0.len(),
        s0[k].mono@ == m,
        (s0[k].coeff + c) % ctx.field.modulus() == 0,
    ensures
        coeff_sum(s0.remove(k), x) == (coeff_sum(s0, x) + (if x == m { c as int } else { 0int })) % ctx.field.modulus(),
{
    if x == m {
        lemma_remove_coeff_at(ctx, s0, k, c, m);
    } else {
        lemma_remove_coeff_off(ctx, s0, k, m, x);
    }
}

#[verifier::spinoff_prover]
proof fn lemma_add_case_remove(ctx: RingCtx, s0: Seq<Term>, k: int, c: u32, m: Seq<u32>)
    requires
        ctx.wf(),
        poly_wf(ctx, s0),
        0 <= k < s0.len(),
        s0[k].mono@ == m,
        (s0[k].coeff + c) % ctx.field.modulus() == 0,
    ensures
        poly_wf(ctx, s0.remove(k)),
        added(ctx, s0, s0.remove(k), c, m),
{
    let s1 = s0.remove(k);
    lemma_wf_remove(ctx, s0, k);
    assert forall|x: Seq<u32>| #![trigger coeff_sum(s1, x)] coeff_sum(s1, x) == (coeff_sum(s0, x) + (if x == m { c as int } else { 0int })) % ctx.field.modulus() by {
        lemma_remove_coeff(ctx, s0, k, c, m, x);
    }
}

#[verifier::spinoff_prover]
proof fn lemma_add_case_insert(ctx: RingCtx, s0: Seq<Term>, k: int, t: Term, m: Seq<u32>)
    requires
        ctx.wf(),
        poly_wf(ctx, s0),
        0 <= k <= s0.len(),
        t.mono@ == m,
        m.len() == ctx.nvars,
        0 < t.coeff < ctx.field.modulus(),
        forall|i: int| 0 <= i < k ==> spec_gt(ctx.order, (#[trigger] s0[i]).mono@, m),
        k < s0.len() ==> spec_gt(ctx.order, m, s0[k].mono@),
    ensures
        poly_wf(ctx, s0.insert(k, t)),
        added(ctx, s0, s0.insert(k, t), t.coeff, m),
{
    let p = ctx.field.modulus();
    let s1 = s0.insert(k, t);
    assert forall|i: int, j: int| 0 <= i < j < s1.len() implies spec_gt(ctx.order, (#[trigger] s1[i]).mono@, (#[trigger] s1[j]).mono@) by {
        if j < k {
            assert(s1[i] == s0[i] && s1[j] == s0[j]);
        } else if j == k {
            assert(s1[i] == s0[i]);
        } else if i < k {
            assert(s1[i] == s0[i] && s1[j] == s0[j - 1]);
        } else if i == k {
            assert(s1[j] == s0[j - 1]);
            if j - 1 > k {
                assert(spec_gt(ctx.order, s0[k].mono@, s0[j - 1].mono@));
                lemma_compare_trans(ctx.order, m, s0[k].mono@, s0[j - 1].mono@);
            }
        } else {
            assert(s1[i] == s0[i - 1] && s1[j] == s0[j - 1]);
        }
    }
    assert forall|i: int| 0 <= i < s1.len() implies 0 < (#[trigger] s1[i]).coeff < p by {
        if i < k {
            assert(s1[i] == s0[i]);
        } else if i > k {
            assert(s1[i] == s0[i - 1]);
        }
    }
    assert forall|i: int| 0 <= i < s1.len() implies (#[trigger] s1[i]).mono@.len() == ctx.nvars by {
        if i < k {
            assert(s1[i] == s0[i]);
        } else if i > k {
            assert(s1[i] == s0[i - 1]);
        }
    }
    assert forall|x: Seq<u32>| #![trigger coeff_sum(s1, x)] coeff_sum(s1, x) == (coeff_sum(s0, x) + (if x == m { t.coeff as int } else { 0int })) % p by {
        lemma_insert_coeff(ctx, s0, k, t, m, x);
    }
}

#[verifier::spinoff_prover]
#[verifier::rlimit(80)]
proof fn lemma_insert_coeff(ctx: RingCtx, s0: Seq<Term>, k: int, t: Term, m: Seq<u32>, x: Seq<u32>)
    requires
        ctx.wf(),
        poly_wf(ctx, s0),
        poly_wf(ctx, s0.insert(k, t)),
        0 <= k <= s0.len(),
        t.mono@ == m,
        0 < t.coeff < ctx.field.modulus(),
        forall|i: int| 0 <= i < k ==> spec_gt(ctx.order, (#[trigger] s0[i]).mono@, m),
        k < s0.len() ==> spec_gt(ctx.order, m, s0[k].mono@),
    ensures
        coeff_sum(s0.insert(k, t), x) == (coeff_sum(s0, x) + (if x == m { t.coeff as int } else { 0int })) % ctx.field.modulus(),
{
    let p = ctx.field.modulus();
    let s1 = s0.insert(k, t);
    lemma_coeff_sum_wf(ctx, s1, x);
    lemma_coeff_sum_wf(ctx, s0, x);
    if x == m {
        assert(s1[k] == t);
        assert forall|i: int| 0 <= i < s0.len() implies (#[trigger] s0[i]).mono@ != x by {
            lemma_compare_equal(ctx.order, s0[i].mono@, m);
            if i > k {
                assert(spec_gt(ctx.order, s0[k].mono@, s0[i].mono@));
                lemma_compare_trans(ctx.order, m, s0[k].mono@, s0[i].mono@);
                lemma_compare_equal(ctx.order, m, s0[i].mono@);
            } else if i == k {
                lemma_compare_equal(ctx.order, m, s0[i].mono@);
            }
        }
        vstd::arithmetic::div_mod::lemma_small_mod(t.coeff as nat, p as nat);
    } else {
        assert forall|i: int| 0 <= i < s0.len() && (#[trigger] s0[i]).mono@ != m implies exists|j: int| 0 <= j < s1.len() && #[trigger] s1[j] == s0[i] by {
            let jj = if i < k { i } else { i + 1 };
            assert(s1[jj] == s0[i]);
        }
        assert forall|j: int| 0 <= j < s1.len() && (#[trigger] s1[j]).mono@ != m implies exists|i: int| 0 <= i < s0.len() && #[trigger] s0[i] == s1[j] by {
            let ii = if j < k { j } else { j - 1 };
            assert(s1[j] == s0[ii]);
        }
        lemma_same_off(ctx, s0, s1, m, x);
        vstd::arithmetic::div_mod::lemma_small_mod(coeff_sum(s0, x) as nat, p as nat);
    }
}

impl Polynomial {
    /// Adds `c * m` to a canonical polynomial, keeping it canonical.
    pub fn add_term(&mut self, ctx: &RingCtx, c: u32, m: Monomial)
        requires
            ctx.wf(),
            poly_wf(*ctx, old(self)@),
            ctx.field.is_elem(c),
            m@.len() == ctx.nvars,
        ensures
            poly_wf(*ctx, final(self)@),
            added(*ctx, old(self)@, final(self)@, c, m@),
    {
        let ghost s0 = self@;
        let ghost p = ctx.field.modulus();
        if c == 0 {
            proof {
                assert forall|x: Seq<u32>| #![trigger coeff_sum(s0, x)] coeff_sum(s0, x) == (coeff_sum(s0, x) + 0int) % p by {
                    lemma_coeff_sum_wf(*ctx, s0, x);
                    vstd::arithmetic::div_mod::lemma_small_mod(coeff_sum(s0, x) as nat, p as nat);
                }
            }
            return;
        }
        let n = self.terms.len();
        let mut k: usize = 0;
        while k < n && compare(ctx.order, &self.terms[k].mono, &m) == OrderRel::Greater
            invariant
                n == s0.len(),
                self@ == s0,
                poly_wf(*ctx, s0),
                m@.len() == ctx.nvars,
                k <= n,
                forall|i: int| 0 <= i < k ==> spec_gt(ctx.order, (#[trigger] s0[i]).mono@, m@),
            decreases n - k,
        {
            k += 1;
        }
        let equal = k < n && compare(ctx.order, &self.terms[k].mono, &m) == OrderRel::Equal;
        proof {
            if k < n {
                lemma_compare_equal(ctx.order, s0[k as int].mono@, m@);
                lemma_compare_flip(ctx.order, s0[k as int].mono@, m@);
            }
        }
        if equal {
            let old_term = self.terms.remove(k);
            let sum = ctx.field.add(old_term.coeff, c);
            if sum != 0 {
                let t = Term { coeff: sum, mono: old_term.mono };
                proof {
                    lemma_add_case_update(*ctx, s0, k as int, t, c, m@);
                }
                self.terms.insert(k, t);
                proof {
                    assert(self@ =~= s0.update(k as int, t));
                }
            } else {
                proof {
                    lemma_add_case_remove(*ctx, s0, k as int, c, m@);
                    assert(self@ =~= s0.remove(k as int));
                }
            }
        } else {
            let t = Term { coeff: c, mono: m };
            proof {
                lemma_add_case_insert(*ctx, s0, k as int, t, t.mono@);
            }
            self.terms.insert(k, t);
        }
    }
}

proof fn lemma_accumulate_step(p: int, prev: int, a: int, cs: int, d: int, cc: int)
    requires
        p > 0,
        prev == (a + cs) % p,
        d == cc % p,
    ensures
        (prev + d) % p == (a + cs + cc) % p,
{
    vstd::arithmetic::div_mod::lemma_add_mod_noop(prev, d, p);
    vstd::arithmetic::div_mod::lemma_mod_twice(a + cs, p);
    vstd::arithmetic::div_mod::lemma_mod_twice(cc, p);
    vstd::arithmetic::div_mod::lemma_add_mod_noop(a + cs, cc, p);
}

/// All terms of `s` have `n` variables.
pub open spec fn terms_nvars(s: Seq<Term>, n: nat) -> bool {
    forall|i: int| 0 <= i < s.len() ==> (#[trigger] s[i]).mono@.len() == n
}

impl Polynomial {
    /// `self += c * (sum of terms)`, where the terms need not be canonical.
    pub fn add_scaled_terms(&mut self, ctx: &RingCtx, terms: &[Term], c: u32)
        requires
            ctx.wf(),
            poly_wf(*ctx, old(self)@),
            ctx.field.is_elem(c),
            terms_nvars(terms@, ctx.nvars as nat),
        ensures
            poly_wf(*ctx, final(self)@),
            forall|x: Seq<u32>|
                #![trigger coeff_sum(final(self)@, x)]
                coeff_sum(final(self)@, x) == (coeff_sum(old(self)@, x) + c * coeff_sum(terms@, x))
                    % ctx.field.modulus(),
    {
        let ghost s0 = self@;
        let ghost p = ctx.field.modulus();
        proof {
            assert forall|x: Seq<u32>| #![trigger coeff_sum(s0, x)] coeff_sum(s0, x) == (coeff_sum(s0, x) + c * coeff_sum(terms@.subrange(0, 0), x)) % p by {
                assert(terms@.subrange(0, 0) =~= Seq::<Term>::empty());
                lemma_coeff_sum_wf(*ctx, s0, x);
                vstd::arithmetic::div_mod::lemma_small_mod(coeff_sum(s0, x) as nat, p as nat);
            }
        }
        let mut i: usize = 0;
        while i < terms.len()
            invariant
                ctx.wf(),
                p == ctx.field.modulus(),
                ctx.field.is_elem(c),
                terms_nvars(terms@, ctx.nvars as nat),
                i <= terms@.len(),
                poly_wf(*ctx, self@),
                forall|x: Seq<u32>|
                    #![trigger coeff_sum(self@, x)]
                    coeff_sum(self@, x) == (coeff_sum(s0, x) + c * coeff_sum(terms@.subrange(0, i as int), x)) % p,
            decreases terms@.len() - i,
        {
            let t = &terms[i];
            let reduced = ctx.field.elem(t.coeff);
            let d = ctx.field.mul(c, reduced);
            let ghost before = self@;
            let ghost tm = t.mono@;
            self.add_term(ctx, d, t.mono.duplicate());
            proof {
                let pre = terms@.subrange(0, i as int);
                let post = terms@.subrange(0, i + 1);
                assert(post.drop_last() =~= pre);
                assert(post.last() == terms@[i as int]);
                assert forall|x: Seq<u32>| #![trigger coeff_sum(self@, x)] coeff_sum(self@, x) == (coeff_sum(s0, x) + c * coeff_sum(post, x)) % p by {
                    let e: int = if tm == x { t.coeff as int } else { 0int };
                    assert(coeff_sum(post, x) == coeff_sum(pre, x) + e);
                    assert(c * coeff_sum(post, x) == c * coeff_sum(pre, x) + c * e) by (nonlinear_arith)
                        requires
                            coeff_sum(post, x) == coeff_sum(pre, x) + e,
                    ;
                    let dd: int = if x == tm { d as int } else { 0int };
                    if x == tm {
                        vstd::arithmetic::div_mod::lemma_mul_mod_noop_right(c as int, t.coeff as int, p);
                    } else {
                        vstd::arithmetic::div_mod::lemma_small_mod(0, p as nat);
                    }
                    assert(dd == (c * e) % p);
                    lemma_accumulate_step(p, coeff_sum(before, x), coeff_sum(s0, x), c * coeff_sum(pre, x), dd, c * e);
                }
            }
            i += 1;
        }
        proof {
            assert(terms@.subrange(0, terms@.len() as int) =~= terms@);
        }
    }

    /// Builds the canonical polynomial equal to the sum of the given terms.
    pub fn from_terms(ctx: &RingCtx, terms: Vec<Term>) -> (r: Result<Polynomial, PolynomialError>)
        requires
            ctx.wf(),
        ensures
            r is Err <==> !terms_nvars(terms@, ctx.nvars as nat),
            r matches Ok(q) ==> poly_wf(*ctx, q@) && forall|x: Seq<u32>|
                #![trigger coeff_sum(q@, x)]
                coeff_sum(q@, x) == coeff_sum(terms@, x) % ctx.field.modulus(),
    {
        let mut i: usize = 0;
        while i < terms.len()
            invariant
                i <= terms@.len(),
                forall|k: int| 0 <= k < i ==> (#[trigger] terms@[k]).mono@.len() == ctx.nvars,
            decreases terms@.len() - i,
        {
            if terms[i].mono.n_vars() != ctx.nvars {
                return Err(PolynomialError::VariableCountMismatch);
            }
            i += 1;
        }
        let mut q = Polynomial::zero();
        proof {
            assert(coeff_sum(Seq::<Term>::empty(), Seq::<u32>::empty()) == 0);
        }
        q.add_scaled_terms(ctx, terms.as_slice(), 1);
        proof {
            assert forall|x: Seq<u32>| #![trigger coeff_sum(q@, x)] coeff_sum(q@, x) == coeff_sum(terms@, x) % ctx.field.modulus() by {
                assert(coeff_sum(Seq::<Term>::empty(), x) == 0);
            }
        }
        Ok(q)
    }

    /// `c * self` for a field element `c`.
    pub fn scale(&self, ctx: &RingCtx, c: u32) -> (r: Polynomial)
        requires
            ctx.wf(),
            poly_wf(*ctx, self@),
            ctx.field.is_elem(c),
        ensures
            poly_wf(*ctx, r@),
            forall|x: Seq<u32>|
                #![trigger coeff_sum(r@, x)]
                coeff_sum(r@, x) == (c * coeff_sum(self@, x)) % ctx.field.modulus(),
    {
        let mut q = Polynomial::zero();
        q.add_scaled_terms(ctx, self.terms.as_slice(), c);
        proof {
            assert forall|x: Seq<u32>| #![trigger coeff_sum(q@, x)] coeff_sum(q@, x) == (c * coeff_sum(self@, x)) % ctx.field.modulus() by {
                assert(coeff_sum(Seq::<Term>::empty(), x) == 0);
            }
        }
        q
    }

    /// `self - other`.
    pub fn sub(&self, ctx: &RingCtx, other: &Polynomial) -> (r: Polynomial)
        requires
            ctx.wf(),
            poly_wf(*ctx, self@),
            poly_wf(*ctx, other@),
        ensures
            poly_wf(*ctx, r@),
            forall|x: Seq<u32>|
                #![trigger coeff_sum(r@, x)]
                coeff_sum(r@, x) == (coeff_sum(self@, x) - coeff_sum(other@, x)) % ctx.field.modulus(),
    {
        let mut q = Polynomial::zero();
        q.add_scaled_terms(ctx, self.terms.as_slice(), 1);
        let ghost q1 = q@;
        let minus_one = ctx.field.characteristic() - 1;
        q.add_scaled_terms(ctx, other.terms.as_slice(), minus_one);
        proof {
            let p = ctx.field.modulus();
            assert forall|x: Seq<u32>| #![trigger coeff_sum(q@, x)] coeff_sum(q@, x) == (coeff_sum(self@, x) - coeff_sum(other@, x)) % p by {
                assert(coeff_sum(Seq::<Term>::empty(), x) == 0);
                let f = coeff_sum(self@, x);
                let g = coeff_sum(other@, x);
                lemma_coeff_sum_wf(*ctx, self@, x);
                vstd::arithmetic::div_mod::lemma_small_mod(f as nat, p as nat);
                assert(coeff_sum(q1, x) == f);
                assert(f + (p - 1) * g == p * g + (f - g)) by (nonlinear_arith);
                vstd::arithmetic::div_mod::lemma_mod_multiples_vanish(g, f - g, p);
            }
        }
        q
    }

    /// Multiplies every monomial by `t`; fails when an exponent overflows.
    pub fn mul_monomial(&self, ctx: &RingCtx, t: &Monomial) -> (r: Result<Polynomial, PolynomialError>)
        requires
            ctx.wf(),
            poly_wf(*ctx, self@),
            t@.len() == ctx.nvars,
        ensures
            r is Err <==> exists|i: int| 0 <= i < self@.len() && !mul_fits((#[trigger] self@[i]).mono@, t@),
            r is Err ==> r == Err::<Polynomial, PolynomialError>(PolynomialError::Monomial(MonomialError::ExponentOverflow)),
            r matches Ok(q) ==> poly_wf(*ctx, q@) && q@.len() == self@.len() && forall|i: int|
                0 <= i < self@.len() ==> (#[trigger] q@[i]).coeff == self@[i].coeff && q@[i].mono@
                    == spec_mul(self@[i].mono@, t@),
    {
        let mut v: Vec<Term> = Vec::new();
        let mut i: usize = 0;
        while i < self.terms.len()
            invariant
                poly_wf(*ctx, self@),
                t@.len() == ctx.nvars,
                i <= self@.len(),
                v@.len() == i,
                forall|k: int| 0 <= k < i ==> mul_fits((#[trigger] self@[k]).mono@, t@),
                forall|k: int|
                    0 <= k < i ==> (#[trigger] v@[k]).coeff == self@[k].coeff && v@[k].mono@ == spec_mul(
                        self@[k].mono@,
                        t@,
                    ),
            decreases self@.len() - i,
        {
            let term = &self.terms[i];
            match checked_mul(&term.mono, t) {
                Ok(m) => {
                    v.push(Term { coeff: term.coeff, mono: m });
                },
                Err(e) => {
                    assert(self@[i as int].mono@.len() == t@.len());
                    return Err(PolynomialError::Monomial(e));
                },
            }
            i += 1;
        }
        proof {
            let s = self@;
            let q = v@;
            assert forall|a: int, b: int| 0 <= a < b < q.len() implies spec_gt(ctx.order, (#[trigger] q[a]).mono@, (#[trigger] q[b]).mono@) by {
                assert(spec_gt(ctx.order, s[a].mono@, s[b].mono@));
                lemma_compare_mul(ctx.order, s[a].mono@, s[b].mono@, t@);
            }
        }
        Ok(Polynomial { terms: v })
    }
}

impl Polynomial {
    /// The polynomial without its leading term; zero stays zero.
    pub fn tail(&self) -> (r: Polynomial)
        ensures
            self@.len() == 0 ==> r@.len() == 0,
            self@.len() > 0 ==> term_pairs(r@) == term_pairs(self@.subrange(1, self@.len() as int)),
    {
        let mut v: Vec<Term> = Vec::new();
        let mut i: usize = 1;
        if self.terms.len() == 0 {
            return Polynomial { terms: v };
        }
        while i < self.terms.len()
            invariant
                1 <= i <= self@.len(),
                v@.len() == i - 1,
                forall|k: int| 0 <= k < v@.len() ==> (#[trigger] v@[k]).coeff == self@[k + 1].coeff && v@[k].mono@ == self@[k + 1].mono@,
            decreases self@.len() - i,
        {
            let t = &self.terms[i];
            v.push(Term { coeff: t.coeff, mono: t.mono.duplicate() });
            i += 1;
        }
        let r = Polynomial { terms: v };
        assert(term_pairs(r@) =~= term_pairs(self@.subrange(1, self@.len() as int)));
        r
    }
}

/// Two term lists with the same coefficients and monomials at every position have the
/// same canonical form and coefficient sums.
pub proof fn lemma_term_pairs_eq(ctx: RingCtx, a: Seq<Term>, b: Seq<Term>)
    requires
        term_pairs(a) == term_pairs(b),
    ensures
        a.len() == b.len(),
        forall|i: int| 0 <= i < a.len() ==> (#[trigger] a[i]).coeff == b[i].coeff && a[i].mono@ == b[i].mono@,
        poly_wf(ctx, a) <==> poly_wf(ctx, b),
        forall|x: Seq<u32>| #[trigger] coeff_sum(a, x) == coeff_sum(b, x),
{
    assert(a.len() == term_pairs(a).len());
    assert forall|i: int| 0 <= i < a.len() implies (#[trigger] a[i]).coeff == b[i].coeff && a[i].mono@ == b[i].mono@ by {
        assert(term_pairs(a)[i] == term_pairs(b)[i]);
    }
    assert forall|x: Seq<u32>| #[trigger] coeff_sum(a, x) == coeff_sum(b, x) by {
        lemma_coeff_sum_pairs(a, b, x);
    }
    if poly_wf(ctx, a) {
        assert forall|i: int, j: int| 0 <= i < j < b.len() implies spec_gt(ctx.order, (#[trigger] b[i]).mono@, (#[trigger] b[j]).mono@) by {
            assert(spec_gt(ctx.order, a[i].mono@, a[j].mono@));
        }
        assert forall|i: int| 0 <= i < b.len() implies (#[trigger] b[i]).mono@.len() == ctx.nvars && 0 < b[i].coeff < ctx.field.modulus() by {
            assert(a[i].mono@.len() == ctx.nvars && 0 < a[i].coeff < ctx.field.modulus());
        }
    }
    if poly_wf(ctx, b) {
        assert forall|i: int, j: int| 0 <= i < j < a.len() implies spec_gt(ctx.order, (#[trigger] a[i]).mono@, (#[trigger] a[j]).mono@) by {
            assert(spec_gt(ctx.order, b[i].mono@, b[j].mono@));
        }
        assert forall|i: int| 0 <= i < a.len() implies (#[trigger] a[i]).mono@.len() == ctx.nvars && 0 < a[i].coeff < ctx.field.modulus() by {
            assert(b[i].mono@.len() == ctx.nvars && 0 < b[i].coeff < ctx.field.modulus());
        }
    }
}

proof fn lemma_coeff_sum_pairs(a: Seq<Term>, b: Seq<Term>, x: Seq<u32>)
    requires
        a.len() == b.len(),
        forall|i: int| 0 <= i < a.len() ==> (#[trigger] a[i]).coeff == b[i].coeff && a[i].mono@ == b[i].mono@,
    ensures
        coeff_sum(a, x) == coeff_sum(b, x),
    decreases a.len(),
{
    if a.len() > 0 {
        lemma_coeff_sum_pairs(a.drop_last(), b.drop_last(), x);
        assert(a.last().mono@ == b.last().mono@);
    }
}

/// After adding `c * m`, every term of the result has monomial `m` or a monomial of a term
/// of the polynomial before the addition.
pub proof fn lemma_added_terms(ctx: RingCtx, s0: Seq<Term>, s1: Seq<Term>, c: u32, m: Seq<u32>)
    requires
        ctx.wf(),
        poly_wf(ctx, s0),
        poly_wf(ctx, s1),
        added(ctx, s0, s1, c, m),
    ensures
        forall|i: int| 0 <= i < s1.len() ==> (#[trigger] s1[i]).mono@ == m || exists|j: int| 0 <= j < s0.len() && s0[j].mono@ == s1[i].mono@,
{
    assert forall|i: int| 0 <= i < s1.len() implies (#[trigger] s1[i]).mono@ == m || exists|j: int| 0 <= j < s0.len() && s0[j].mono@ == s1[i].mono@ by {
        let x = s1[i].mono@;
        if x != m && !(exists|j: int| 0 <= j < s0.len() && s0[j].mono@ == x) {
            lemma_coeff_sum_wf(ctx, s0, x);
            lemma_coeff_sum_wf(ctx, s1, x);
            assert(coeff_sum(s1, x) == (coeff_sum(s0, x) + 0int) % ctx.field.modulus());
            vstd::arithmetic::div_mod::lemma_small_mod(0, ctx.field.modulus() as nat);
        }
    }
}

impl Polynomial {
    /// Multiplies every coefficient by the unit `c`; monomials are kept.
    pub fn scale_unit(&self, ctx: &RingCtx, c: u32) -> (r: Polynomial)
        requires
            ctx.wf(),
            poly_wf(*ctx, self@),
            ctx.field.is_elem(c),
            exists|b: u32| ctx.field.is_elem(b) && (c * b) % ctx.field.modulus() == 1,
        ensures
            poly_wf(*ctx, r@),
            r@.len() == self@.len(),
            forall|i: int| 0 <= i < self@.len() ==> (#[trigger] r@[i]).mono@ == self@[i].mono@ && r@[i].coeff == (c * self@[i].coeff) % ctx.field.modulus(),
    {
        let ghost b = choose|b: u32| ctx.field.is_elem(b) && (c * b) % ctx.field.modulus() == 1;
        let mut v: Vec<Term> = Vec::new();
        let mut i: usize = 0;
        while i < self.terms.len()
            invariant
                ctx.wf(),
                poly_wf(*ctx, self@),
                ctx.field.is_elem(c),
                ctx.field.is_elem(b) && (c * b) % ctx.field.modulus() == 1,
                i <= self@.len(),
                v@.len() == i,
                forall|k: int| 0 <= k < i ==> (#[trigger] v@[k]).mono@ == self@[k].mono@ && v@[k].coeff == (c * self@[k].coeff) % ctx.field.modulus(),
                forall|k: int| 0 <= k < i ==> 0 < (#[trigger] v@[k]).coeff < ctx.field.modulus(),
            decreases self@.len() - i,
        {
            let t = &self.terms[i];
            let nc = ctx.field.mul(c, t.coeff);
            proof {
                crate::field::lemma_mul_unit_nonzero(ctx.field.modulus(), t.coeff as int, c as int, b as int);
                vstd::arithmetic::mul::lemma_mul_is_commutative(c as int, t.coeff as int);
            }
            v.push(Term { coeff: nc, mono: t.mono.duplicate() });
            i += 1;
        }
        let r = Polynomial { terms: v };
        proof {
            assert forall|a: int, bb: int| 0 <= a < bb < r@.len() implies spec_gt(ctx.order, (#[trigger] r@[a]).mono@, (#[trigger] r@[bb]).mono@) by {
                assert(spec_gt(ctx.order, self@[a].mono@, self@[bb].mono@));
            }
            assert forall|k: int| 0 <= k < r@.len() implies (#[trigger] r@[k]).mono@.len() == ctx.nvars by {
                assert(self@[k].mono@.len() == ctx.nvars);
            }
        }
        r
    }
}

/// `a * t == m` over the integers: every exponent of `a` plus that of `t` is that of `m`.
pub open spec fn shift_eq(a: Seq<u32>, t: Seq<u32>, m: Seq<u32>) -> bool {
    &&& a.len() == m.len()
    &&& t.len() == m.len()
    &&& forall|i: int| 0 <= i < m.len() ==> a[i] + t[i] == #[trigger] m[i]
}

/// Sum of the coefficients of the terms of `s` whose monomial times `t` is `m`.
pub open spec fn coeff_sum_shifted(s: Seq<Term>, t: Seq<u32>, m: Seq<u32>) -> int
    decreases s.len(),
{
    if s.len() == 0 {
        0
    } else {
        coeff_sum_shifted(s.drop_last(), t, m) + (if shift_eq(s.last().mono@, t, m) {
            s.last().coeff as int
        } else {
            0int
        })
    }
}

/// A term-wise multiple by `t` has the shifted coefficient sums.
pub proof fn lemma_coeff_sum_multiple(row: Seq<Term>, src: Seq<Term>, t: Seq<u32>, m: Seq<u32>)
    requires
        row.len() == src.len(),
        forall|i: int| 0 <= i < src.len() ==> (#[trigger] row[i]).coeff == src[i].coeff && row[i].mono@ == spec_mul(src[i].mono@, t),
        forall|i: int| 0 <= i < src.len() ==> mul_fits((#[trigger] src[i]).mono@, t) && src[i].mono@.len() == t.len(),
    ensures
        coeff_sum(row, m) == coeff_sum_shifted(src, t, m),
    decreases src.len(),
{
    if src.len() > 0 {
        lemma_coeff_sum_multiple(row.drop_last(), src.drop_last(), t, m);
        assert(row.last() == row[row.len() - 1]);
        let a = src.last().mono@;
        assert(src.last() == src[src.len() - 1]);
        assert(mul_fits(a, t) && a.len() == t.len());
        if spec_mul(a, t) == m {
            assert(shift_eq(a, t, m));
        }
        if shift_eq(a, t, m) {
            assert(spec_mul(a, t) =~= m);
        }
    }
}

impl Polynomial {
    /// Whether the polynomial is in canonical form for `ctx`: every monomial has the ring's
    /// variable count, every coefficient is a nonzero field element, and monomials strictly
    /// decrease.
    pub fn belongs_to(&self, ctx: &RingCtx) -> (b: bool)
        requires
            ctx.wf(),
        ensures
            b == poly_wf(*ctx, self@),
    {
        let n = self.terms.len();
        let p = ctx.field.characteristic();
        let mut i: usize = 0;
        while i < n
            invariant
                n == self@.len(),
                p == ctx.field.modulus(),
                i <= n,
                forall|k: int| 0 <= k < i ==> (#[trigger] self@[k]).mono@.len() == ctx.nvars && 0 < self@[k].coeff < p,
                forall|k: int| 0 < k < i ==> spec_gt(ctx.order, (#[trigger] self@[k - 1]).mono@, self@[k].mono@),
            decreases n - i,
        {
            let t = &self.terms[i];
            if t.mono.n_vars() != ctx.nvars || t.coeff == 0 || t.coeff >= p {
                return false;
            }
            if i > 0 {
                let c = compare(ctx.order, &self.terms[i - 1].mono, &t.mono);
                if c != OrderRel::Greater {
                    return false;
                }
            }
            i += 1;
        }
        proof {
            assert forall|a: int, b: int| 0 <= a < b < n implies spec_gt(ctx.order, (#[trigger] self@[a]).mono@, (#[trigger] self@[b]).mono@) by {
                lemma_chain_gt(*ctx, self@, a, b);
            }
        }
        true
    }
}

proof fn lemma_chain_gt(ctx: RingCtx, s: Seq<Term>, a: int, b: int)
    requires
        0 <= a < b < s.len(),
        forall|k: int| 0 <= k < s.len() ==> (#[trigger] s[k]).mono@.len() == ctx.nvars,
        forall|k: int| 0 < k < s.len() ==> spec_gt(ctx.order, (#[trigger] s[k - 1]).mono@, s[k].mono@),
    ensures
        spec_gt(ctx.order, s[a].mono@, s[b].mono@),
    decreases b - a,
{
    if b > a + 1 {
        lemma_chain_gt(ctx, s, a, b - 1);
        assert(spec_gt(ctx.order, s[b - 1].mono@, s[b].mono@));
        lemma_compare_trans(ctx.order, s[a].mono@, s[b - 1].mono@, s[b].mono@);
    } else {
        assert(spec_gt(ctx.order, s[b - 1].mono@, s[b].mono@));
    }
}

/// A canonical term list is determined by its coefficients: two canonical lists with the
/// same coefficient at every monomial have the same terms.
pub proof fn lemma_canonical_unique(ctx: RingCtx, a: Seq<Term>, b: Seq<Term>)
    requires
        poly_wf(ctx, a),
        poly_wf(ctx, b),
        forall|x: Seq<u32>| #[trigger] coeff_sum(a, x) == coeff_sum(b, x),
    ensures
        term_pairs(a) == term_pairs(b),
    decreases a.len() + b.len(),
{
    if a.len() == 0 && b.len() == 0 {
        assert(term_pairs(a) =~= term_pairs(b));
        return;
    }
    if a.len() > 0 {
        let ma = a.last().mono@;
        lemma_coeff_sum_wf(ctx, a, ma);
        lemma_coeff_sum_wf(ctx, b, ma);
        assert(coeff_sum(a, ma) == a.last().coeff);
        assert(coeff_sum(b, ma) != 0);
    }
    if b.len() > 0 {
        let mb = b.last().mono@;
        lemma_coeff_sum_wf(ctx, a, mb);
        lemma_coeff_sum_wf(ctx, b, mb);
        assert(coeff_sum(b, mb) == b.last().coeff);
        assert(coeff_sum(a, mb) != 0);
    }
    let n = a.len() - 1;
    let m = b.len() - 1;
    let ma = a[n].mono@;
    let mb = b[m].mono@;
    let i = choose|i: int| 0 <= i < a.len() && (#[trigger] a[i]).mono@ == mb;
    let j = choose|j: int| 0 <= j < b.len() && (#[trigger] b[j]).mono@ == ma;
    if ma != mb {
        // a[i] = mb sits above the last term of a, and b[j] = ma above the last term of b.
        assert(i < n);
        assert(j < m);
        assert(spec_gt(ctx.order, mb, ma));
        assert(spec_gt(ctx.order, ma, mb));
        lemma_compare_flip(ctx.order, ma, mb);
        assert(false);
    }
    lemma_coeff_sum_wf(ctx, a, ma);
    lemma_coeff_sum_wf(ctx, b, ma);
    assert(a[n].coeff == b[m].coeff);
    let a0 = a.drop_last();
    let b0 = b.drop_last();
    assert(poly_wf(ctx, a0)) by {
        assert forall|x: int, y: int| 0 <= x < y < a0.len() implies spec_gt(ctx.order, (#[trigger] a0[x]).mono@, (#[trigger] a0[y]).mono@) by {
            assert(a0[x] == a[x] && a0[y] == a[y]);
        }
    }
    assert(poly_wf(ctx, b0)) by {
        assert forall|x: int, y: int| 0 <= x < y < b0.len() implies spec_gt(ctx.order, (#[trigger] b0[x]).mono@, (#[trigger] b0[y]).mono@) by {
            assert(b0[x] == b[x] && b0[y] == b[y]);
        }
    }
    assert forall|x: Seq<u32>| #[trigger] coeff_sum(a0, x) == coeff_sum(b0, x) by {
        assert(coeff_sum(a, x) == coeff_sum(b, x));
    }
    lemma_canonical_unique(ctx, a0, b0);
    assert(term_pairs(a) =~= term_pairs(a0).push((a[n].coeff, ma)));
    assert(term_pairs(b) =~= term_pairs(b0).push((b[m].coeff, mb)));
}

} // verus!
