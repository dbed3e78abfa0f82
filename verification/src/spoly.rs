//! S-polynomial construction.

use vstd::prelude::*;

use crate::monomial::{checked_div_exact, checked_lcm, mul_fits, spec_divides, spec_lcm, spec_mul, spec_quotient, MonomialError};
use crate::order::{lemma_compare_mul, spec_gt};
use crate::ideal::{in_ideal, lemma_mod_add_zero, lemma_mod_self_diff, lemma_shift_split};
use crate::reduce::{combination, reduction_witness};
use crate::polynomial::{coeff_sum, coeff_sum_shifted, shift_eq, lemma_coeff_sum_multiple, lemma_coeff_sum_wf, poly_wf, Polynomial, PolynomialError, Term};
use crate::ring::RingCtx;

verus! {

/// Errors that can occur while constructing an S-polynomial.
#[derive(Debug, Clone, Copy, PartialEq, Eq, Structural)]
pub enum SPolyError {
    /// Polynomial or monomial arithmetic failed, or an input is not a polynomial of the ring.
    Poly(PolynomialError),
    /// One input polynomial is zero.
    ZeroInput,
    /// A leading coefficient is not invertible.
    NonInvertibleLeadingCoefficient,
}

impl From<MonomialError> for SPolyError {
    fn from(e: MonomialError) -> (r: SPolyError) {
        SPolyError::Poly(PolynomialError::Monomial(e))
    }
}

impl vstd::std_specs::convert::FromSpecImpl<MonomialError> for SPolyError {
    open spec fn obeys_from_spec() -> bool {
        true
    }

    open spec fn from_spec(e: MonomialError) -> SPolyError {
        SPolyError::Poly(PolynomialError::Monomial(e))
    }
}

/// Every monomial of `s` times `t` has no exponent overflow.
pub open spec fn multiple_fits(s: Seq<Term>, t: Seq<u32>) -> bool {
    forall|i: int| 0 <= i < s.len() ==> mul_fits((#[trigger] s[i]).mono@, t)
}

/// Both multiples `(L / lm(f)) * f` and `(L / lm(g)) * g` have no exponent overflow.
pub open spec fn spoly_fits(f: Seq<Term>, g: Seq<Term>) -> bool {
    let l = spec_lcm(f[0].mono@, g[0].mono@);
    multiple_fits(f, spec_quotient(f[0].mono@, l)) && multiple_fits(g, spec_quotient(g[0].mono@, l))
}

/// The S-polynomial `(L / lt(f)) * f - (L / lt(g)) * g` with `L = lcm(lm(f), lm(g))`,
/// stated by its coefficients: `inv_f` and `inv_g` are the inverses of the leading
/// coefficients.
pub open spec fn is_spoly(ctx: RingCtx, s: Seq<Term>, f: Seq<Term>, g: Seq<Term>, inv_f: u32, inv_g: u32) -> bool {
    let l = spec_lcm(f[0].mono@, g[0].mono@);
    let mf = spec_quotient(f[0].mono@, l);
    let mg = spec_quotient(g[0].mono@, l);
    let p = ctx.field.modulus();
    &&& (inv_f * f[0].coeff) % p == 1
    &&& (inv_g * g[0].coeff) % p == 1
    &&& forall|x: Seq<u32>|
        #![trigger coeff_sum(s, x)]
        coeff_sum(s, x) == ((inv_f * coeff_sum_shifted(f, mf, x)) % p - (inv_g * coeff_sum_shifted(g, mg, x)) % p) % p
}

/// `s` is the S-polynomial of `f` and `g`.
pub open spec fn is_spoly_of(ctx: RingCtx, s: Seq<Term>, f: Seq<Term>, g: Seq<Term>) -> bool {
    exists|a: u32, b: u32| is_spoly(ctx, s, f, g, a, b)
}

/// The S-polynomial of `f` and `g` lies in the ideal they generate.
pub proof fn lemma_spoly_in_ideal(ctx: RingCtx, s: Seq<Term>, f: Polynomial, g: Polynomial)
    requires
        ctx.wf(),
        is_spoly_of(ctx, s, f@, g@),
    ensures
        in_ideal(ctx, seq![f, g], s),
{
    let (a, b) = choose|a: u32, b: u32| is_spoly(ctx, s, f@, g@, a, b);
    let fv = f@;
    let gv = g@;
    let l = spec_lcm(fv[0].mono@, gv[0].mono@);
    let mf = spec_quotient(fv[0].mono@, l);
    let mg = spec_quotient(gv[0].mono@, l);
    let p = ctx.field.modulus();
    let gens = seq![f, g];
    let e = Seq::<Term>::empty();
    let w = seq![(a as int, mf, 0int), (-(b as int), mg, 1int)];
    assert forall|x: Seq<u32>| (coeff_sum(s, x) - coeff_sum(e, x) - #[trigger] combination(gens, w, x)) % p == 0 by {
        let ca = coeff_sum_shifted(fv, mf, x);
        let cb = coeff_sum_shifted(gv, mg, x);
        assert(w.drop_last() =~= seq![(a as int, mf, 0int)]);
        assert(w.drop_last().drop_last() =~= Seq::<(int, Seq<u32>, int)>::empty());
        assert(combination(gens, Seq::<(int, Seq<u32>, int)>::empty(), x) == 0);
        assert(gens[0] == f && gens[1] == g);
        let w1 = w.drop_last();
        assert(w1.last() == (a as int, mf, 0int));
        assert(combination(gens, w1, x) == combination(gens, w1.drop_last(), x) + (a as int) * coeff_sum_shifted(gens[0]@, mf, x));
        assert(combination(gens, w1, x) == a * ca);
        assert(w.last() == (-(b as int), mg, 1int));
        assert(combination(gens, w, x) == combination(gens, w1, x) + (-(b as int)) * coeff_sum_shifted(gens[1]@, mg, x));
        assert(combination(gens, w, x) == a * ca + (-(b as int)) * cb);
        assert(coeff_sum(e, x) == 0);
        let u = (a * ca) % p - (b * cb) % p;
        assert(coeff_sum(s, x) == u % p);
        lemma_mod_self_diff(p, u);
        lemma_mod_self_diff(p, a * ca);
        lemma_mod_self_diff(p, b * cb);
        lemma_mod_add_zero(p, (a * ca) % p - a * ca, (b * cb) % p - b * cb);
        assert((-(b as int)) * cb == -(b * cb)) by (nonlinear_arith);
        lemma_mod_add_zero(p, u % p - u, ((a * ca) % p - a * ca) - ((b * cb) % p - b * cb));
    }
    assert(reduction_witness(ctx, gens, s, e, w));
}

/// The S-polynomial of `f` and `g` in `ctx`.
///
/// The inputs must be nonzero polynomials of the ring (canonical for `ctx`).
pub fn s_polynomial_in(ctx: &RingCtx, f: &Polynomial, g: &Polynomial) -> (r: Result<Polynomial, SPolyError>)
    requires
        ctx.wf(),
    ensures
        !(poly_wf(*ctx, f@) && poly_wf(*ctx, g@)) ==> r == Err::<Polynomial, SPolyError>(SPolyError::Poly(PolynomialError::VariableCountMismatch)),
        poly_wf(*ctx, f@) && poly_wf(*ctx, g@) && (f@.len() == 0 || g@.len() == 0) ==> r == Err::<Polynomial, SPolyError>(SPolyError::ZeroInput),
        poly_wf(*ctx, f@) && poly_wf(*ctx, g@) && f@.len() > 0 && g@.len() > 0 && !spoly_fits(f@, g@) ==> r == Err::<Polynomial, SPolyError>(SPolyError::Poly(PolynomialError::Monomial(MonomialError::ExponentOverflow))),
        poly_wf(*ctx, f@) && poly_wf(*ctx, g@) && f@.len() > 0 && g@.len() > 0 && spoly_fits(f@, g@) ==> (r matches Ok(s) && poly_wf(*ctx, s@) && is_spoly_of(*ctx, s@, f@, g@)),
{
    if !f.belongs_to(ctx) || !g.belongs_to(ctx) {
        return Err(SPolyError::Poly(PolynomialError::VariableCountMismatch));
    }
    let lt_f = match f.leading_term() {
        Some(t) => t,
        None => return Err(SPolyError::ZeroInput),
    };
    let lt_g = match g.leading_term() {
        Some(t) => t,
        None => return Err(SPolyError::ZeroInput),
    };
    let lcm = match checked_lcm(&lt_f.mono, &lt_g.mono) {
        Ok(m) => m,
        Err(e) => return Err(SPolyError::from(e)),
    };
    proof {
        assert(crate::monomial::spec_divides(lt_f.mono@, lcm@));
        assert(crate::monomial::spec_divides(lt_g.mono@, lcm@));
    }
    let mult_f = match checked_div_exact(&lt_f.mono, &lcm) {
        Ok(m) => m,
        Err(e) => return Err(SPolyError::from(e)),
    };
    let mult_g = match checked_div_exact(&lt_g.mono, &lcm) {
        Ok(m) => m,
        Err(e) => return Err(SPolyError::from(e)),
    };
    let inv_f = match ctx.field.try_inv(lt_f.coeff) {
        Some(x) => x,
        None => return Err(SPolyError::NonInvertibleLeadingCoefficient),
    };
    let inv_g = match ctx.field.try_inv(lt_g.coeff) {
        Some(x) => x,
        None => return Err(SPolyError::NonInvertibleLeadingCoefficient),
    };
    proof {
        assert(mult_f@ == spec_quotient(f@[0].mono@, spec_lcm(f@[0].mono@, g@[0].mono@)));
        assert(mult_g@ == spec_quotient(g@[0].mono@, spec_lcm(f@[0].mono@, g@[0].mono@)));
    }
    let shifted_f = match f.mul_monomial(ctx, &mult_f) {
        Ok(p) => p,
        Err(e) => {
            proof {
                let i = choose|i: int| 0 <= i < f@.len() && !mul_fits((#[trigger] f@[i]).mono@, mult_f@);
                assert(!multiple_fits(f@, mult_f@));
                assert(!spoly_fits(f@, g@));
            }
            return Err(SPolyError::Poly(e));
        },
    };
    let shifted_g = match g.mul_monomial(ctx, &mult_g) {
        Ok(p) => p,
        Err(e) => {
            proof {
                let i = choose|i: int| 0 <= i < g@.len() && !mul_fits((#[trigger] g@[i]).mono@, mult_g@);
                assert(!multiple_fits(g@, mult_g@));
                assert(!spoly_fits(f@, g@));
            }
            return Err(SPolyError::Poly(e));
        },
    };
    let left = shifted_f.scale(ctx, inv_f);
    let right = shifted_g.scale(ctx, inv_g);
    let s = left.sub(ctx, &right);
    proof {
        vstd::arithmetic::mul::lemma_mul_is_commutative(lt_f.coeff as int, inv_f as int);
        vstd::arithmetic::mul::lemma_mul_is_commutative(lt_g.coeff as int, inv_g as int);
        assert forall|x: Seq<u32>| #![trigger coeff_sum(s@, x)] coeff_sum(s@, x) == ((inv_f * coeff_sum_shifted(f@, mult_f@, x)) % ctx.field.modulus() - (inv_g * coeff_sum_shifted(g@, mult_g@, x)) % ctx.field.modulus()) % ctx.field.modulus() by {
            lemma_coeff_sum_multiple(shifted_f@, f@, mult_f@, x);
            lemma_coeff_sum_multiple(shifted_g@, g@, mult_g@, x);
        }
        assert(is_spoly(*ctx, s@, f@, g@, inv_f, inv_g));
        assert(is_spoly_of(*ctx, s@, f@, g@));
    }
    Ok(s)
}

/// The multiple of a canonical polynomial that reaches `l` has the leading coefficient at
/// `l`.
proof fn lemma_lead_at_lcm(ctx: RingCtx, f: Seq<Term>, l: Seq<u32>)
    requires
        ctx.wf(),
        poly_wf(ctx, f),
        f.len() > 0,
        spec_divides(f[0].mono@, l),
    ensures
        coeff_sum_shifted(f, spec_quotient(f[0].mono@, l), l) == f[0].coeff,
{
    let n = ctx.nvars as nat;
    let lm = f[0].mono@;
    let m = spec_quotient(lm, l);
    assert(spec_divides(m, l));
    assert(spec_quotient(m, l) =~= lm) by {
        assert forall|i: int| 0 <= i < lm.len() implies spec_quotient(m, l)[i] == lm[i] by {
            assert(lm[i] <= l[i]);
            assert(m[i] == (l[i] - lm[i]) as u32);
        }
    }
    lemma_shift_split(f, m, l, n);
    lemma_coeff_sum_wf(ctx, f, lm);
}

/// The leading terms cancel: the S-polynomial has no term at the least common multiple of
/// the two leading monomials.
pub proof fn lemma_spoly_cancels(ctx: RingCtx, s: Seq<Term>, f: Seq<Term>, g: Seq<Term>)
    requires
        ctx.wf(),
        poly_wf(ctx, f),
        poly_wf(ctx, g),
        f.len() > 0,
        g.len() > 0,
        is_spoly_of(ctx, s, f, g),
    ensures
        coeff_sum(s, spec_lcm(f[0].mono@, g[0].mono@)) == 0,
{
    let (a, b) = choose|a: u32, b: u32| is_spoly(ctx, s, f, g, a, b);
    let l = spec_lcm(f[0].mono@, g[0].mono@);
    let p = ctx.field.modulus();
    assert(spec_divides(f[0].mono@, l));
    assert(spec_divides(g[0].mono@, l));
    lemma_lead_at_lcm(ctx, f, l);
    lemma_lead_at_lcm(ctx, g, l);
    assert(coeff_sum(s, l) == ((a * f[0].coeff) % p - (b * g[0].coeff) % p) % p);
    assert(0int % p == 0);
}

/// Two inverses of the same element agree modulo `p`, and so do their multiples.
pub proof fn lemma_inverse_unique(p: int, a: int, b: int, c: int, y: int)
    requires
        p > 0,
        (a * c) % p == 1,
        (b * c) % p == 1,
    ensures
        (a * y) % p == (b * y) % p,
{
    vstd::arithmetic::div_mod::lemma_mul_mod_noop_right(a, b * c, p);
    vstd::arithmetic::div_mod::lemma_mul_mod_noop_right(b, a * c, p);
    assert(a * (b * c) == b * (a * c)) by (nonlinear_arith);
    assert(a * 1 == a && b * 1 == b);
    assert(a % p == b % p);
    vstd::arithmetic::div_mod::lemma_mul_mod_noop_left(a, y, p);
    vstd::arithmetic::div_mod::lemma_mul_mod_noop_left(b, y, p);
}

/// Swapping the arguments negates the S-polynomial: at every monomial the two
/// coefficients add up to zero modulo the characteristic.
pub proof fn lemma_spoly_antisymmetric(ctx: RingCtx, s1: Seq<Term>, s2: Seq<Term>, f: Seq<Term>, g: Seq<Term>)
    requires
        ctx.wf(),
        f.len() > 0,
        g.len() > 0,
        f[0].mono@.len() == g[0].mono@.len(),
        is_spoly_of(ctx, s1, f, g),
        is_spoly_of(ctx, s2, g, f),
    ensures
        forall|x: Seq<u32>| (#[trigger] coeff_sum(s1, x) + coeff_sum(s2, x)) % ctx.field.modulus() == 0,
{
    let p = ctx.field.modulus() as int;
    let (a1, b1) = choose|a: u32, b: u32| is_spoly(ctx, s1, f, g, a, b);
    let (a2, b2) = choose|a: u32, b: u32| is_spoly(ctx, s2, g, f, a, b);
    let lf = f[0].mono@;
    let lg = g[0].mono@;
    assert(spec_lcm(lf, lg) =~= spec_lcm(lg, lf));
    let l = spec_lcm(lf, lg);
    let mf = spec_quotient(lf, l);
    let mg = spec_quotient(lg, l);
    assert forall|x: Seq<u32>| (#[trigger] coeff_sum(s1, x) + coeff_sum(s2, x)) % ctx.field.modulus() == 0 by {
        let cf = coeff_sum_shifted(f, mf, x);
        let cg = coeff_sum_shifted(g, mg, x);
        lemma_inverse_unique(p, a1 as int, b2 as int, f[0].coeff as int, cf);
        lemma_inverse_unique(p, b1 as int, a2 as int, g[0].coeff as int, cg);
        let u = (a1 * cf) % p;
        let v = (b1 * cg) % p;
        assert(coeff_sum(s1, x) == (u - v) % p);
        assert(coeff_sum(s2, x) == (v - u) % p);
        vstd::arithmetic::div_mod::lemma_add_mod_noop(u - v, v - u, p);
        assert((u - v) + (v - u) == 0);
        assert(0int % p == 0);
    }
}

/// A nonzero shifted coefficient sum comes from a term whose monomial times the shift is
/// `x`.
proof fn lemma_shifted_source(s: Seq<Term>, t: Seq<u32>, x: Seq<u32>)
    requires
        coeff_sum_shifted(s, t, x) != 0,
    ensures
        exists|k: int| 0 <= k < s.len() && shift_eq((#[trigger] s[k]).mono@, t, x),
    decreases s.len(),
{
    if s.len() > 0 {
        if shift_eq(s.last().mono@, t, x) {
            assert(s[s.len() - 1] == s.last());
        } else {
            lemma_shifted_source(s.drop_last(), t, x);
            let k = choose|k: int| 0 <= k < s.drop_last().len() && shift_eq((#[trigger] s.drop_last()[k]).mono@, t, x);
            assert(s[k] == s.drop_last()[k]);
        }
    }
}

/// A monomial of the multiple of `f` by `mf` is at most the multiple of the leading
/// monomial, `l`, and equals it only at the leading term.
proof fn lemma_shift_below(ctx: RingCtx, f: Seq<Term>, mf: Seq<u32>, l: Seq<u32>, k: int, x: Seq<u32>)
    requires
        ctx.wf(),
        poly_wf(ctx, f),
        0 <= k < f.len(),
        spec_divides(f[0].mono@, l),
        mf == spec_quotient(f[0].mono@, l),
        shift_eq(f[k].mono@, mf, x),
        x != l,
    ensures
        spec_gt(ctx.order, l, x),
{
    let f0 = f[0].mono@;
    let fk = f[k].mono@;
    assert(f0.len() == l.len());
    assert(spec_mul(f0, mf) =~= l);
    assert(spec_mul(fk, mf) =~= x);
    assert(mul_fits(f0, mf));
    assert forall|i: int| 0 <= i < fk.len() implies fk[i] + mf[i] <= u32::MAX by {
        assert(fk[i] + mf[i] == x[i]);
    }
    assert(mul_fits(fk, mf));
    if k == 0 {
        assert(x =~= l);
    } else {
        assert(spec_gt(ctx.order, f0, fk));
        lemma_compare_mul(ctx.order, f0, fk, mf);
    }
}

/// Every monomial of the S-polynomial lies below the least common multiple of the two
/// leading monomials: the leading terms cancel and nothing above them is created.
pub proof fn lemma_spoly_below_lcm(ctx: RingCtx, s: Seq<Term>, f: Seq<Term>, g: Seq<Term>)
    requires
        ctx.wf(),
        poly_wf(ctx, f),
        poly_wf(ctx, g),
        poly_wf(ctx, s),
        f.len() > 0,
        g.len() > 0,
        is_spoly_of(ctx, s, f, g),
    ensures
        forall|k: int| 0 <= k < s.len() ==> spec_gt(ctx.order, spec_lcm(f[0].mono@, g[0].mono@), (#[trigger] s[k]).mono@),
{
    let l = spec_lcm(f[0].mono@, g[0].mono@);
    let mf = spec_quotient(f[0].mono@, l);
    let mg = spec_quotient(g[0].mono@, l);
    let p = ctx.field.modulus();
    let (a, b) = choose|a: u32, b: u32| is_spoly(ctx, s, f, g, a, b);
    lemma_spoly_cancels(ctx, s, f, g);
    assert(spec_divides(f[0].mono@, l));
    assert(spec_divides(g[0].mono@, l));
    assert forall|k: int| 0 <= k < s.len() implies spec_gt(ctx.order, l, (#[trigger] s[k]).mono@) by {
        let x = s[k].mono@;
        lemma_coeff_sum_wf(ctx, s, x);
        assert(coeff_sum(s, x) == s[k].coeff);
        assert(x != l);
        let cf = coeff_sum_shifted(f, mf, x);
        let cg = coeff_sum_shifted(g, mg, x);
        if cf != 0 {
            lemma_shifted_source(f, mf, x);
            let kf = choose|kf: int| 0 <= kf < f.len() && shift_eq((#[trigger] f[kf]).mono@, mf, x);
            lemma_shift_below(ctx, f, mf, l, kf, x);
        } else if cg != 0 {
            lemma_shifted_source(g, mg, x);
            let kg = choose|kg: int| 0 <= kg < g.len() && shift_eq((#[trigger] g[kg]).mono@, mg, x);
            lemma_shift_below(ctx, g, mg, l, kg, x);
        } else {
            assert(coeff_sum(s, x) == ((a * cf) % p - (b * cg) % p) % p);
            assert(a * 0 == 0 && b * 0 == 0);
            assert(0int % p == 0);
        }
    }
}

} // verus!
