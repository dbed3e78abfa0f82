//! Multivariate division: reducing a polynomial by a list of reducers.

use vstd::prelude::*;

use crate::f4::symbolic::materialize::all_wf;
use crate::f4::symbolic::reducers::{find_top_reducer_index, first_reducer, lemma_first_reducer, reduces, top_reducer};
use crate::monomial::{exp_sum, mul_fits, spec_mul, MonomialError};
use crate::order::{lemma_compare_equal, lemma_compare_flip, lemma_compare_mul, lemma_compare_trans, lemma_rank_decreases, rank, spec_gt, MonomialOrder};
use crate::polynomial::{lemma_coeff_sum_wf, coeff_sum, coeff_sum_shifted, term_pairs, lemma_added_terms, lemma_coeff_sum_append, lemma_coeff_sum_multiple, lemma_coeff_sum_single, lemma_term_pairs_eq, lemma_wf_subrange, poly_wf, Polynomial, PolynomialError, Term};
use crate::division::{cancelled, div_run, div_step, division_fits, is_remainder, lead_step_fits, lemma_factor_cancels, lemma_run_extend, lemma_run_stuck, multiple_fits_by};
use crate::ring::RingCtx;

verus! {

/// Errors raised while reducing a polynomial.
#[derive(Debug, Clone, Copy, PartialEq, Eq, Structural)]
pub enum ReduceError {
    /// Polynomial arithmetic failed.
    Polynomial(PolynomialError),
}

/// Some nonzero reducer's leading monomial divides `m`.
pub open spec fn reducible_by(reducers: Seq<Polynomial>, m: Seq<u32>) -> bool {
    exists|i: int| 0 <= i < reducers.len() && reduces(#[trigger] reducers[i], m)
}

/// No term of `p` is divisible by a leading monomial of a nonzero reducer.
pub open spec fn fully_reduced(reducers: Seq<Polynomial>, p: Polynomial) -> bool {
    forall|t: int| 0 <= t < p@.len() ==> !reducible_by(reducers, (#[trigger] p@[t]).mono@)
}

/// `Σ c_k · coeff(t_k · reducers[i_k], x)` over the steps `(c_k, t_k, i_k)`.
pub open spec fn combination(reducers: Seq<Polynomial>, steps: Seq<(int, Seq<u32>, int)>, x: Seq<u32>) -> int
    decreases steps.len(),
{
    if steps.len() == 0 {
        0
    } else {
        let (c, t, i) = steps.last();
        combination(reducers, steps.drop_last(), x) + c * coeff_sum_shifted(reducers[i]@, t, x)
    }
}

/// The steps name reducers, and `f - q` equals their combination coefficientwise, modulo the
/// characteristic.
pub open spec fn reduction_witness(ctx: RingCtx, reducers: Seq<Polynomial>, f: Seq<Term>, q: Seq<Term>, steps: Seq<(int, Seq<u32>, int)>) -> bool {
    &&& forall|k: int| 0 <= k < steps.len() ==> 0 <= (#[trigger] steps[k]).2 < reducers.len()
    &&& forall|x: Seq<u32>| (coeff_sum(f, x) - coeff_sum(q, x) - #[trigger] combination(reducers, steps, x)) % ctx.field.modulus() == 0
}

/// `q` differs from `f` by a combination of monomial multiples of the reducers: they are
/// congruent modulo the ideal the reducers generate.
pub open spec fn congruent_mod(ctx: RingCtx, reducers: Seq<Polynomial>, f: Seq<Term>, q: Seq<Term>) -> bool {
    exists|steps: Seq<(int, Seq<u32>, int)>| reduction_witness(ctx, reducers, f, q, steps)
}

/// `q` differs from `f` by a combination of monomial multiples of the elements of `basis`
/// whose index is in `allowed`.
pub open spec fn congruent_mod_by(ctx: RingCtx, basis: Seq<Polynomial>, allowed: Set<int>, f: Seq<Term>, q: Seq<Term>) -> bool {
    exists|steps: Seq<(int, Seq<u32>, int)>|
        #[trigger] reduction_witness(ctx, basis, f, q, steps) && forall|k: int| 0 <= k < steps.len() ==> allowed.contains(#[trigger] steps[k].2)
}

/// Shifted coefficient sums only depend on the `(coefficient, monomial)` list.
proof fn lemma_shifted_pairs(a: Seq<Term>, b: Seq<Term>, t: Seq<u32>, x: Seq<u32>)
    requires
        term_pairs(a) == term_pairs(b),
    ensures
        coeff_sum_shifted(a, t, x) == coeff_sum_shifted(b, t, x),
    decreases a.len(),
{
    assert(a.len() == term_pairs(a).len() && b.len() == term_pairs(b).len());
    if a.len() > 0 {
        assert(term_pairs(a.drop_last()) =~= term_pairs(b.drop_last())) by {
            assert forall|i: int| 0 <= i < a.len() - 1 implies term_pairs(a.drop_last())[i] == term_pairs(b.drop_last())[i] by {
                assert(term_pairs(a)[i] == term_pairs(b)[i]);
            }
        }
        lemma_shifted_pairs(a.drop_last(), b.drop_last(), t, x);
        assert(term_pairs(a)[a.len() - 1] == term_pairs(b)[b.len() - 1]);
    }
}

/// `p` has the terms of some `basis[j]` with `j` in `allowed`.
pub open spec fn copy_in(basis: Seq<Polynomial>, allowed: Set<int>, p: Polynomial) -> bool {
    exists|j: int| allowed.contains(j) && 0 <= j < basis.len() && term_pairs(p@) == term_pairs(#[trigger] basis[j]@)
}

/// An index witnessing `copy_in`.
pub open spec fn copy_index(basis: Seq<Polynomial>, allowed: Set<int>, p: Polynomial) -> int {
    choose|j: int| allowed.contains(j) && 0 <= j < basis.len() && term_pairs(p@) == term_pairs(#[trigger] basis[j]@)
}

/// The steps with every reducer index moved from `r` to `basis`.
pub open spec fn moved_steps(r: Seq<Polynomial>, basis: Seq<Polynomial>, allowed: Set<int>, steps: Seq<(int, Seq<u32>, int)>) -> Seq<(int, Seq<u32>, int)> {
    Seq::new(steps.len(), |s: int| (steps[s].0, steps[s].1, copy_index(basis, allowed, r[steps[s].2])))
}

/// Steps over copies `r` of elements of `basis` become steps over `basis` itself.
pub proof fn lemma_witness_transfer(
    ctx: RingCtx,
    r: Seq<Polynomial>,
    basis: Seq<Polynomial>,
    allowed: Set<int>,
    f: Seq<Term>,
    q: Seq<Term>,
    steps: Seq<(int, Seq<u32>, int)>,
)
    requires
        reduction_witness(ctx, r, f, q, steps),
        forall|k: int| 0 <= k < r.len() ==> copy_in(basis, allowed, #[trigger] r[k]),
    ensures
        congruent_mod_by(ctx, basis, allowed, f, q),
{
    let mapped = moved_steps(r, basis, allowed, steps);
    assert forall|k: int| 0 <= k < steps.len() implies allowed.contains(#[trigger] mapped[k].2) && 0 <= mapped[k].2 < basis.len() by {
        let i = steps[k].2;
        assert(0 <= i < r.len());
        assert(copy_in(basis, allowed, r[i]));
    }
    assert forall|x: Seq<u32>| (coeff_sum(f, x) - coeff_sum(q, x) - #[trigger] combination(basis, mapped, x)) % ctx.field.modulus() == 0 by {
        lemma_combination_transfer(r, basis, allowed, steps, x);
    }
    assert(reduction_witness(ctx, basis, f, q, mapped));
}

proof fn lemma_combination_transfer(r: Seq<Polynomial>, basis: Seq<Polynomial>, allowed: Set<int>, steps: Seq<(int, Seq<u32>, int)>, x: Seq<u32>)
    requires
        forall|k: int| 0 <= k < steps.len() ==> 0 <= (#[trigger] steps[k]).2 < r.len(),
        forall|k: int| 0 <= k < r.len() ==> copy_in(basis, allowed, #[trigger] r[k]),
    ensures
        combination(basis, moved_steps(r, basis, allowed, steps), x) == combination(r, steps, x),
    decreases steps.len(),
{
    let mapped = moved_steps(r, basis, allowed, steps);
    if steps.len() > 0 {
        let t = steps.drop_last();
        assert forall|k: int| 0 <= k < t.len() implies 0 <= (#[trigger] t[k]).2 < r.len() by {
            assert(t[k] == steps[k]);
        }
        lemma_combination_transfer(r, basis, allowed, t, x);
        assert(mapped.drop_last() =~= moved_steps(r, basis, allowed, t));
        let (c, tt, i) = steps.last();
        assert(steps.last() == steps[steps.len() - 1]);
        assert(0 <= i < r.len());
        assert(copy_in(basis, allowed, r[i]));
        let j = copy_index(basis, allowed, r[i]);
        assert(mapped.last() == (c, tt, j));
        lemma_shifted_pairs(r[i]@, basis[j]@, tt, x);
    }
}

/// A reduction step keeps `a ≡ 0 (mod p)` when `r` becomes `(r - y % p) % p` and `y` joins
/// the combination.
proof fn lemma_mod_reduce_step(p: int, a: int, r: int, y: int)
    requires
        p > 0,
        a % p == 0,
    ensures
        (a + r - (r - y % p) % p - y) % p == 0,
{
    let q1 = (r - y % p) / p;
    let q2 = y / p;
    let qa = a / p;
    vstd::arithmetic::div_mod::lemma_fundamental_div_mod(r - y % p, p);
    vstd::arithmetic::div_mod::lemma_fundamental_div_mod(y, p);
    vstd::arithmetic::div_mod::lemma_fundamental_div_mod(a, p);
    assert(a + r - (r - y % p) % p - y == p * (qa + q1 - q2)) by (nonlinear_arith)
        requires
            a == p * qa,
            r - y % p == p * q1 + (r - y % p) % p,
            y == p * q2 + y % p,
    ;
    vstd::arithmetic::div_mod::lemma_mod_multiples_basic(qa + q1 - q2, p);
    assert(p * (qa + q1 - q2) == (qa + q1 - q2) * p) by (nonlinear_arith);
}

/// Moving a term from the remainder to the result keeps `a ≡ 0 (mod p)`.
pub proof fn lemma_mod_move_step(p: int, a: int, o: int, d: int)
    requires
        p > 0,
        a % p == 0,
    ensures
        (a + (o + d) - (o + d) % p) % p == 0,
{
    let q = (o + d) / p;
    let qa = a / p;
    vstd::arithmetic::div_mod::lemma_fundamental_div_mod(o + d, p);
    vstd::arithmetic::div_mod::lemma_fundamental_div_mod(a, p);
    assert(a + (o + d) - (o + d) % p == p * (qa + q)) by (nonlinear_arith)
        requires
            a == p * qa,
            o + d == p * q + (o + d) % p,
    ;
    vstd::arithmetic::div_mod::lemma_mod_multiples_basic(qa + q, p);
    assert(p * (qa + q) == (qa + q) * p) by (nonlinear_arith);
}

/// No monomial of `s` is greater than `m`.
pub open spec fn bounded_by(o: MonomialOrder, s: Seq<Term>, m: Seq<u32>) -> bool {
    forall|t: int| 0 <= t < s.len() ==> !spec_gt(o, (#[trigger] s[t]).mono@, m)
}

/// `x <= a` and `a <= b` give `x <= b`.
pub proof fn lemma_not_gt_trans(o: MonomialOrder, x: Seq<u32>, a: Seq<u32>, b: Seq<u32>)
    requires
        x.len() == a.len(),
        a.len() == b.len(),
        !spec_gt(o, x, a),
        !spec_gt(o, a, b),
    ensures
        !spec_gt(o, x, b),
{
    if spec_gt(o, x, b) {
        lemma_compare_equal(o, x, a);
        lemma_compare_flip(o, x, a);
        if x == a {
        } else {
            assert(spec_gt(o, a, x));
            lemma_compare_trans(o, a, x, b);
        }
    }
}

/// A canonical polynomial is bounded by its leading monomial.
proof fn lemma_bounded_by_lead(ctx: RingCtx, s: Seq<Term>)
    requires
        poly_wf(ctx, s),
        s.len() > 0,
    ensures
        bounded_by(ctx.order, s, s[0].mono@),
{
    assert forall|t: int| 0 <= t < s.len() implies !spec_gt(ctx.order, (#[trigger] s[t]).mono@, s[0].mono@) by {
        lemma_compare_equal(ctx.order, s[t].mono@, s[0].mono@);
        lemma_compare_flip(ctx.order, s[0].mono@, s[t].mono@);
    }
}

/// Subtracting a multiple of a reducer that cancels the leading monomial `m` keeps the
/// remainder bounded by `bound`.
proof fn lemma_reduce_step_bounded(
    ctx: RingCtx,
    rest0: Seq<Term>,
    rest1: Seq<Term>,
    g: Seq<Term>,
    shifted: Seq<Term>,
    scaled: Seq<Term>,
    q: Seq<u32>,
    factor: u32,
    bound: Seq<u32>,
)
    requires
        ctx.wf(),
        poly_wf(ctx, rest0),
        poly_wf(ctx, rest1),
        poly_wf(ctx, g),
        poly_wf(ctx, shifted),
        rest0.len() > 0,
        g.len() > 0,
        bound.len() == ctx.nvars,
        q.len() == ctx.nvars,
        bounded_by(ctx.order, rest0, bound),
        spec_mul(g[0].mono@, q) == rest0[0].mono@,
        shifted.len() == g.len(),
        forall|i: int| 0 <= i < g.len() ==> (#[trigger] shifted[i]).mono@ == spec_mul(g[i].mono@, q) && mul_fits(g[i].mono@, q),
        forall|x: Seq<u32>| #![trigger coeff_sum(scaled, x)] coeff_sum(scaled, x) == (factor * coeff_sum(shifted, x)) % ctx.field.modulus(),
        forall|x: Seq<u32>| #![trigger coeff_sum(rest1, x)] coeff_sum(rest1, x) == (coeff_sum(rest0, x) - coeff_sum(scaled, x)) % ctx.field.modulus(),
    ensures
        bounded_by(ctx.order, rest1, bound),
{
    let o = ctx.order;
    let m = rest0[0].mono@;
    assert forall|t: int| 0 <= t < rest1.len() implies !spec_gt(o, (#[trigger] rest1[t]).mono@, bound) by {
        let x = rest1[t].mono@;
        if spec_gt(o, x, bound) {
            lemma_coeff_sum_wf(ctx, rest1, x);
            assert(coeff_sum(rest1, x) == rest1[t].coeff);
            assert forall|k: int| 0 <= k < rest0.len() implies (#[trigger] rest0[k]).mono@ != x by {
                if rest0[k].mono@ == x {
                    assert(!spec_gt(o, rest0[k].mono@, bound));
                }
            }
            lemma_coeff_sum_wf(ctx, rest0, x);
            assert(!spec_gt(o, m, bound));
            assert forall|i: int| 0 <= i < shifted.len() implies (#[trigger] shifted[i]).mono@ != x by {
                assert(0 <= i < g.len());
                assert(shifted[i].mono@ == spec_mul(g[i].mono@, q));
                assert(mul_fits(g[i].mono@, q));
                assert(shifted[0].mono@ == spec_mul(g[0].mono@, q));
                assert(mul_fits(g[0].mono@, q));
                lemma_compare_mul(o, g[i].mono@, g[0].mono@, q);
                lemma_compare_equal(o, g[i].mono@, g[0].mono@);
                lemma_compare_flip(o, g[0].mono@, g[i].mono@);
                assert(!spec_gt(o, g[i].mono@, g[0].mono@));
                assert(!spec_gt(o, shifted[i].mono@, m));
                lemma_not_gt_trans(o, shifted[i].mono@, m, bound);
            }
            lemma_coeff_sum_wf(ctx, shifted, x);
            assert(coeff_sum(shifted, x) == 0);
            assert(factor * 0 == 0) by (nonlinear_arith);
            assert(0int % ctx.field.modulus() == 0);
            assert(coeff_sum(scaled, x) == 0);
            assert(coeff_sum(rest1, x) == 0);
        }
    }
}

/// Subtracting the multiple that cancels the leading term leaves a remainder whose terms are
/// all below the cancelled monomial.
#[verifier::spinoff_prover]
proof fn lemma_reduce_step_strict(
    ctx: RingCtx,
    rest0: Seq<Term>,
    rest1: Seq<Term>,
    g: Seq<Term>,
    shifted: Seq<Term>,
    scaled: Seq<Term>,
    q: Seq<u32>,
    factor: u32,
)
    requires
        ctx.wf(),
        poly_wf(ctx, rest0),
        poly_wf(ctx, rest1),
        poly_wf(ctx, g),
        poly_wf(ctx, shifted),
        rest0.len() > 0,
        g.len() > 0,
        q.len() == ctx.nvars,
        spec_mul(g[0].mono@, q) == rest0[0].mono@,
        shifted.len() == g.len(),
        forall|i: int| 0 <= i < g.len() ==> (#[trigger] shifted[i]).mono@ == spec_mul(g[i].mono@, q) && mul_fits(g[i].mono@, q) && shifted[i].coeff == g[i].coeff,
        (factor * g[0].coeff) % ctx.field.modulus() == rest0[0].coeff,
        forall|x: Seq<u32>| #![trigger coeff_sum(scaled, x)] coeff_sum(scaled, x) == (factor * coeff_sum(shifted, x)) % ctx.field.modulus(),
        forall|x: Seq<u32>| #![trigger coeff_sum(rest1, x)] coeff_sum(rest1, x) == (coeff_sum(rest0, x) - coeff_sum(scaled, x)) % ctx.field.modulus(),
    ensures
        rest1.len() > 0 ==> spec_gt(ctx.order, rest0[0].mono@, rest1[0].mono@),
{
    let m = rest0[0].mono@;
    let p = ctx.field.modulus();
    lemma_bounded_by_lead(ctx, rest0);
    assert(forall|i: int| 0 <= i < g.len() ==> (#[trigger] shifted[i]).mono@ == spec_mul(g[i].mono@, q) && mul_fits(g[i].mono@, q));
    lemma_reduce_step_bounded(ctx, rest0, rest1, g, shifted, scaled, q, factor, m);
    lemma_coeff_sum_wf(ctx, shifted, m);
    assert(shifted[0].mono@ == m);
    assert(coeff_sum(shifted, m) == g[0].coeff);
    assert(coeff_sum(scaled, m) == rest0[0].coeff);
    lemma_coeff_sum_wf(ctx, rest0, m);
    assert(coeff_sum(rest0, m) == rest0[0].coeff);
    assert(coeff_sum(rest1, m) == 0);
    if rest1.len() > 0 {
        let x = rest1[0].mono@;
        lemma_coeff_sum_wf(ctx, rest1, x);
        assert(x != m);
        assert(!spec_gt(ctx.order, x, m));
        lemma_compare_equal(ctx.order, x, m);
        lemma_compare_flip(ctx.order, x, m);
    }
}

/// Normal form of `f` by `reducers`.
///
/// The leading term of the remainder is cancelled by the first reducer whose leading
/// monomial divides it; a leading term that no reducer divides moves to the result.
pub fn normal_form(ctx: &RingCtx, f: &Polynomial, reducers: &[Polynomial]) -> (r: Result<Polynomial, ReduceError>)
    requires
        ctx.wf(),
        poly_wf(*ctx, f@),
        all_wf(*ctx, reducers@),
    ensures
        r matches Ok(q) ==> poly_wf(*ctx, q@) && fully_reduced(reducers@, q) && congruent_mod(*ctx, reducers@, f@, q@),
        r matches Ok(q) ==> (f@.len() == 0 ==> q@.len() == 0) && (f@.len() > 0 ==> bounded_by(ctx.order, q@, f@[0].mono@)),
        r matches Err(e) ==> e == ReduceError::Polynomial(PolynomialError::Monomial(MonomialError::ExponentOverflow)),
        fully_reduced(reducers@, *f) ==> (r matches Ok(q) && term_pairs(q@) == term_pairs(f@)),
        ctx.order == MonomialOrder::Grevlex && (f@.len() > 0 ==> exp_sum(f@[0].mono@) <= u32::MAX) ==> r is Ok,
        r is Ok <==> division_fits(*ctx, reducers@, f@),
        r matches Ok(q) ==> is_remainder(*ctx, reducers@, f@, q@),
{
    let mut rest = f.duplicate();
    let mut out = Polynomial::zero();
    let ghost p = ctx.field.modulus();
    let ghost mut steps: Seq<(int, Seq<u32>, int)> = Seq::empty();
    let ghost mut rests: Seq<Seq<Term>> = seq![rest@];
    let ghost mut outs: Seq<Seq<Term>> = seq![out@];
    proof {
        assert(term_pairs(rest@) =~= term_pairs(f@));
    }
    proof {
        assert(crate::polynomial::term_pairs(rest@) =~= crate::polynomial::term_pairs(f@));
        lemma_term_pairs_eq(*ctx, rest@, f@);
        assert forall|x: Seq<u32>| (coeff_sum(f@, x) - coeff_sum(rest@, x) - coeff_sum(out@, x) - #[trigger] combination(reducers@, steps, x)) % p == 0 by {
            assert(coeff_sum(out@, x) == 0);
            assert(combination(reducers@, steps, x) == 0);
            assert(coeff_sum(rest@, x) == coeff_sum(f@, x));
            assert(p > 0);
            assert(0int % p == 0);
        }
        if f@.len() > 0 {
            lemma_bounded_by_lead(*ctx, f@);
            assert forall|t: int| 0 <= t < rest@.len() implies !spec_gt(ctx.order, (#[trigger] rest@[t]).mono@, f@[0].mono@) by {
                assert(rest@[t].mono@ == f@[t].mono@);
            }
        }
    }
    while !rest.is_zero()
        invariant
            ctx.wf(),
            p == ctx.field.modulus(),
            all_wf(*ctx, reducers@),
            poly_wf(*ctx, rest@),
            poly_wf(*ctx, out@),
            fully_reduced(reducers@, out),
            forall|k: int| 0 <= k < steps.len() ==> 0 <= (#[trigger] steps[k]).2 < reducers@.len(),
            forall|x: Seq<u32>| (coeff_sum(f@, x) - coeff_sum(rest@, x) - coeff_sum(out@, x) - #[trigger] combination(reducers@, steps, x)) % p == 0,
            poly_wf(*ctx, f@),
            f@.len() == 0 ==> rest@.len() == 0 && out@.len() == 0,
            f@.len() > 0 ==> bounded_by(ctx.order, rest@, f@[0].mono@) && bounded_by(ctx.order, out@, f@[0].mono@),
            fully_reduced(reducers@, *f) ==> steps.len() == 0 && forall|t: int| 0 <= t < rest@.len() ==> !reducible_by(reducers@, (#[trigger] rest@[t]).mono@),
            div_run(*ctx, reducers@, f@, rests, outs),
            rests.last() == rest@,
            outs.last() == out@,
        decreases (if rest@.len() == 0 { 0nat } else { rank(ctx.order, ctx.nvars as nat, rest@[0].mono@) + 1 }),
    {
        let lead = rest.leading_term().unwrap();
        let c = lead.coeff;
        let m = lead.mono.duplicate();
        let found = find_top_reducer_index(&m, reducers).unwrap();
        match found {
            Some((i, q)) => {
                let g = &reducers[i];
                let lcg = g.leading_coeff().unwrap();
                proof {
                    if fully_reduced(reducers@, *f) {
                        let fi = first_reducer(reducers@, m@, 0);
                        lemma_first_reducer(reducers@, m@, 0);
                        assert(fi >= 0);
                        assert(reduces(reducers@[fi], m@));
                        assert(reducible_by(reducers@, rest@[0].mono@));
                        assert(false);
                    }
                    assert(poly_wf(*ctx, g@));
                    assert(q@.len() == m@.len());
                }
                let inv = ctx.field.try_inv(lcg).unwrap();
                let factor = ctx.field.mul(c, inv);
                proof {
                    lemma_factor_cancels(p, c as int, inv as int, lcg as int);
                }
                let shifted = match g.mul_monomial(ctx, &q) {
                    Ok(t) => t,
                    Err(e) => {
                        proof {
                            assert(!multiple_fits_by(g@, q@));
                            assert(!lead_step_fits(reducers@, rests.last()));
                            lemma_run_stuck(*ctx, reducers@, f@, rests, outs);
                            if ctx.order == MonomialOrder::Grevlex && exp_sum(f@[0].mono@) <= u32::MAX {
                                lemma_degree_step_fits(*ctx, reducers@, m@, g@, q@, f@[0].mono@, i);
                                assert(!spec_gt(ctx.order, rest@[0].mono@, f@[0].mono@));
                            }
                        }
                        return Err(ReduceError::Polynomial(e));
                    },
                };
                let scaled = shifted.scale(ctx, factor);
                let ghost rest0 = rest@;
                let ghost steps0 = steps;
                rest = rest.sub(ctx, &scaled);
                proof {
                    assert(spec_mul(g@[0].mono@, q@) =~= rest0[0].mono@) by {
                        assert(reduces(reducers@[i as int], m@));
                        assert(crate::monomial::spec_divides(g@[0].mono@, m@));
                        let fi = first_reducer(reducers@, m@, 0);
                        assert(top_reducer(reducers@, m@) == Some((crate::f4::symbolic::types::ProductSource::Basis(i), q@)));
                        assert(fi >= 0);
                        assert(fi as usize == i);
                        lemma_first_reducer(reducers@, m@, 0);
                        assert(fi == i as int);
                        assert(crate::f4::types::lm(reducers@[fi]) == g@[0].mono@);
                        assert(q@ == crate::monomial::spec_quotient(g@[0].mono@, m@));
                    }
                    assert(mul_fits(g@[0].mono@, q@));
                    lemma_reduce_step_bounded(*ctx, rest0, rest@, g@, shifted@, scaled@, q@, factor, f@[0].mono@);
                    lemma_reduce_step_strict(*ctx, rest0, rest@, g@, shifted@, scaled@, q@, factor);
                    if rest@.len() > 0 {
                        lemma_rank_decreases(ctx.order, ctx.nvars as nat, rest0[0].mono@, rest@[0].mono@);
                    }
                    steps = steps.push((factor as int, q@, i as int));
                    assert forall|k: int| 0 <= k < steps.len() implies 0 <= (#[trigger] steps[k]).2 < reducers@.len() by {
                        if k < steps0.len() {
                            assert(steps[k] == steps0[k]);
                        }
                    }
                    assert forall|x: Seq<u32>| (coeff_sum(f@, x) - coeff_sum(rest@, x) - coeff_sum(out@, x) - #[trigger] combination(reducers@, steps, x)) % p == 0 by {
                        assert(steps.drop_last() =~= steps0);
                        lemma_coeff_sum_multiple(shifted@, g@, q@, x);
                        let y = factor * coeff_sum_shifted(g@, q@, x);
                        assert(coeff_sum(scaled@, x) == y % p);
                        assert(combination(reducers@, steps, x) == combination(reducers@, steps0, x) + y);
                        lemma_mod_reduce_step(p, coeff_sum(f@, x) - coeff_sum(rest0, x) - coeff_sum(out@, x) - combination(reducers@, steps0, x), coeff_sum(rest0, x), y);
                    }
                    assert(multiple_fits_by(g@, q@));
                    assert(cancelled(*ctx, rest0, g@, q@, inv, rest@)) by {
                        assert forall|x: Seq<u32>| #[trigger] coeff_sum(rest@, x) == (coeff_sum(rest0, x) - (((c * inv) % p) * coeff_sum_shifted(g@, q@, x)) % p) % p by {
                            lemma_coeff_sum_multiple(shifted@, g@, q@, x);
                        }
                    }
                    assert(g@[0].coeff == lcg);
                    assert(ctx.field.is_elem(inv) && (g@[0].coeff * inv) % p == 1 && cancelled(*ctx, rest0, g@, q@, inv, rest@));
                    assert(div_step(*ctx, reducers@, rest0, out@, rest@, out@));
                    lemma_run_extend(*ctx, reducers@, f@, rests, outs, rest@, out@);
                    rests = rests.push(rest@);
                    outs = outs.push(out@);
                }
            },
            None => {
                let ghost out0 = out@;
                proof {
                    lemma_first_reducer(reducers@, m@, 0);
                    assert forall|k: int| 0 <= k < reducers@.len() implies !reduces(#[trigger] reducers@[k], m@) by {}
                }
                out.add_term(ctx, c, m);
                proof {
                    lemma_added_terms(*ctx, out0, out@, c, m@);
                    assert forall|t: int| 0 <= t < out@.len() implies !spec_gt(ctx.order, (#[trigger] out@[t]).mono@, f@[0].mono@) by {
                        if out@[t].mono@ != m@ {
                            let j = choose|j: int| 0 <= j < out0.len() && out0[j].mono@ == out@[t].mono@;
                            assert(!spec_gt(ctx.order, out0[j].mono@, f@[0].mono@));
                        } else {
                            assert(!spec_gt(ctx.order, rest@[0].mono@, f@[0].mono@));
                        }
                    }
                    assert forall|t: int| 0 <= t < out@.len() implies !reducible_by(reducers@, (#[trigger] out@[t]).mono@) by {
                        if out@[t].mono@ != m@ {
                            let j = choose|j: int| 0 <= j < out0.len() && out0[j].mono@ == out@[t].mono@;
                            assert(!reducible_by(reducers@, out0[j].mono@));
                        }
                    }
                }
                let ghost rest0 = rest@;
                rest = rest.tail();
                proof {
                    lemma_wf_subrange(*ctx, rest0, 1, rest0.len() as int);
                    lemma_term_pairs_eq(*ctx, rest@, rest0.subrange(1, rest0.len() as int));
                    assert forall|t: int| 0 <= t < rest@.len() implies (#[trigger] rest@[t]).mono@ == rest0[t + 1].mono@ by {
                        assert(rest0.subrange(1, rest0.len() as int)[t] == rest0[t + 1]);
                    }
                    if rest@.len() > 0 {
                        assert(rest@[0].mono@ == rest0[1].mono@);
                        assert(spec_gt(ctx.order, rest0[0].mono@, rest0[1].mono@));
                        lemma_rank_decreases(ctx.order, ctx.nvars as nat, rest0[0].mono@, rest@[0].mono@);
                    }
                    assert forall|t: int| 0 <= t < rest@.len() implies !spec_gt(ctx.order, (#[trigger] rest@[t]).mono@, f@[0].mono@) by {
                        assert(rest@[t].mono@ == rest0[t + 1].mono@);
                        assert(!spec_gt(ctx.order, rest0[t + 1].mono@, f@[0].mono@));
                    }
                    assert forall|x: Seq<u32>| (coeff_sum(f@, x) - coeff_sum(rest@, x) - coeff_sum(out@, x) - #[trigger] combination(reducers@, steps, x)) % p == 0 by {
                        let d = if x == m@ { c as int } else { 0int };
                        assert(rest0 =~= seq![rest0[0]] + rest0.subrange(1, rest0.len() as int));
                        lemma_coeff_sum_append(seq![rest0[0]], rest0.subrange(1, rest0.len() as int), x);
                        lemma_coeff_sum_single(rest0[0], x);
                        assert(coeff_sum(rest@, x) == coeff_sum(rest0, x) - d);
                        assert(coeff_sum(out@, x) == (coeff_sum(out0, x) + d) % p);
                        lemma_mod_move_step(p, coeff_sum(f@, x) - coeff_sum(rest0, x) - coeff_sum(out0, x) - combination(reducers@, steps, x), coeff_sum(out0, x), d);
                    }
                    assert(div_step(*ctx, reducers@, rest0, out0, rest@, out@));
                    lemma_run_extend(*ctx, reducers@, f@, rests, outs, rest@, out@);
                    rests = rests.push(rest@);
                    outs = outs.push(out@);
                }
            },
        }
    }
    proof {
        assert forall|x: Seq<u32>| (coeff_sum(f@, x) - coeff_sum(out@, x) - #[trigger] combination(reducers@, steps, x)) % p == 0 by {
            assert(coeff_sum(rest@, x) == 0);
        }
        assert(reduction_witness(*ctx, reducers@, f@, out@, steps));
        assert(div_run(*ctx, reducers@, f@, rests, outs));
        assert(term_pairs(outs.last()) == term_pairs(out@));
        if fully_reduced(reducers@, *f) {
            assert forall|x: Seq<u32>| (coeff_sum(f@, x) - coeff_sum(out@, x)) % p == 0 by {
                assert(combination(reducers@, steps, x) == 0);
            }
            lemma_congruent_canonical(*ctx, f@, out@);
        }
    }
    Ok(out)
}

/// Two canonical term lists whose coefficients agree modulo the characteristic at every
/// monomial have the same terms.
pub proof fn lemma_congruent_canonical(ctx: RingCtx, f: Seq<Term>, q: Seq<Term>)
    requires
        ctx.wf(),
        poly_wf(ctx, f),
        poly_wf(ctx, q),
        forall|x: Seq<u32>| (coeff_sum(f, x) - coeff_sum(q, x)) % ctx.field.modulus() == 0,
    ensures
        term_pairs(f) == term_pairs(q),
{
    let p = ctx.field.modulus();
    assert forall|x: Seq<u32>| #[trigger] coeff_sum(f, x) == coeff_sum(q, x) by {
        assert((coeff_sum(f, x) - coeff_sum(q, x)) % p == 0);
        lemma_coeff_sum_wf(ctx, f, x);
        lemma_coeff_sum_wf(ctx, q, x);
        assert(0 <= coeff_sum(f, x) < p);
        assert(0 <= coeff_sum(q, x) < p);
        if coeff_sum(f, x) != coeff_sum(q, x) {
            let d = coeff_sum(f, x) - coeff_sum(q, x);
            if d > 0 {
                vstd::arithmetic::div_mod::lemma_small_mod(d as nat, p as nat);
            } else {
                vstd::arithmetic::div_mod::lemma_small_mod((d + p) as nat, p as nat);
                vstd::arithmetic::div_mod::lemma_mod_add_multiples_vanish(d, p as int);
            }
        }
    }
    crate::polynomial::lemma_canonical_unique(ctx, f, q);
}

/// Under the graded order, a reduction step by the top reducer of `m` multiplies the reducer
/// by `lm(g) / m` without overflow when `m` has at most the degree of `top`.
proof fn lemma_degree_step_fits(ctx: RingCtx, reducers: Seq<Polynomial>, m: Seq<u32>, g: Seq<Term>, q: Seq<u32>, top: Seq<u32>, i: usize)
    requires
        ctx.order == MonomialOrder::Grevlex,
        all_wf(ctx, reducers),
        i < reducers.len(),
        reducers.len() <= usize::MAX,
        g == reducers[i as int]@,
        top_reducer(reducers, m) == Some((crate::f4::symbolic::types::ProductSource::Basis(i), q)),
        !spec_gt(ctx.order, m, top),
        exp_sum(top) <= u32::MAX,
    ensures
        forall|k: int| 0 <= k < g.len() ==> mul_fits((#[trigger] g[k]).mono@, q),
{
    lemma_first_reducer(reducers, m, 0);
    let fi = first_reducer(reducers, m, 0);
    assert(fi >= 0);
    assert(fi as usize == i);
    assert(fi == i as int);
    assert(reduces(reducers[i as int], m));
    let l = g[0].mono@;
    assert(crate::monomial::spec_divides(l, m));
    assert(q == crate::monomial::spec_quotient(l, m));
    crate::order::lemma_exp_sum_quotient(l, m);
    crate::order::lemma_grevlex_degree(m, top);
    assert(poly_wf(ctx, g));
    assert forall|k: int| 0 <= k < g.len() implies mul_fits((#[trigger] g[k]).mono@, q) by {
        if k > 0 {
            assert(spec_gt(ctx.order, g[0].mono@, g[k].mono@));
        }
        assert(exp_sum(g[k].mono@) <= exp_sum(l));
        crate::order::lemma_degrees_fit(g[k].mono@, q);
    }
}

} // verus!
