//! Membership in the ideal generated by a list of polynomials, and its closure laws.

use vstd::prelude::*;

use crate::f4::symbolic::materialize::all_wf;
use crate::f4::types::{is_nonzero, lm};
use crate::order::{lemma_rank_decreases, rank, spec_gt};
use crate::monomial::{mul_fits, spec_divides, spec_mul, spec_one, spec_quotient};
use crate::polynomial::{coeff_sum, coeff_sum_shifted, lemma_coeff_sum_wf, poly_wf, shift_eq, Polynomial, Term};
use crate::reduce::{combination, congruent_mod, reduction_witness};
use crate::ring::RingCtx;

verus! {

/// Every monomial of `s` has `n` variables.
pub open spec fn monos_len(s: Seq<Term>, n: nat) -> bool {
    forall|i: int| 0 <= i < s.len() ==> (#[trigger] s[i]).mono@.len() == n
}

/// `f` lies in the ideal generated by `gens`: coefficientwise it is a combination of monomial
/// multiples of the generators, modulo the characteristic.
pub open spec fn in_ideal(ctx: RingCtx, gens: Seq<Polynomial>, f: Seq<Term>) -> bool {
    congruent_mod(ctx, gens, f, Seq::<Term>::empty())
}

/// Every element of `a` lies in the ideal generated by `b`.
pub open spec fn ideal_within(ctx: RingCtx, a: Seq<Polynomial>, b: Seq<Polynomial>) -> bool {
    forall|i: int| 0 <= i < a.len() ==> in_ideal(ctx, b, (#[trigger] a[i])@)
}

/// The coefficient of `x` in `t · s` is that of `x / t` in `s` when `t` divides `x`, and 0
/// otherwise.
pub proof fn lemma_shift_split(s: Seq<Term>, t: Seq<u32>, x: Seq<u32>, n: nat)
    requires
        monos_len(s, n),
    ensures
        coeff_sum_shifted(s, t, x) == if spec_divides(t, x) && t.len() == n { coeff_sum(s, spec_quotient(t, x)) } else { 0 },
    decreases s.len(),
{
    if s.len() > 0 {
        let s0 = s.drop_last();
        assert forall|i: int| 0 <= i < s0.len() implies (#[trigger] s0[i]).mono@.len() == n by {
            assert(s0[i] == s[i]);
        }
        lemma_shift_split(s0, t, x, n);
        let a = s.last().mono@;
        assert(s.last() == s[s.len() - 1]);
        assert(a.len() == n);
        let q = spec_quotient(t, x);
        if shift_eq(a, t, x) {
            assert forall|i: int| 0 <= i < t.len() implies t[i] <= x[i] by {
                assert(a[i] + t[i] == x[i]);
            }
            assert(a =~= q) by {
                assert forall|i: int| 0 <= i < a.len() implies a[i] == q[i] by {
                    assert(a[i] + t[i] == x[i]);
                }
            }
        }
        if spec_divides(t, x) && t.len() == n && a == q {
            assert forall|i: int| 0 <= i < x.len() implies a[i] + t[i] == #[trigger] x[i] by {
                assert(q[i] == (x[i] - t[i]) as u32);
            }
            assert(shift_eq(a, t, x));
        }
        if !(spec_divides(t, x) && t.len() == n) {
            assert(!shift_eq(a, t, x)) by {
                if shift_eq(a, t, x) {
                    assert forall|i: int| 0 <= i < t.len() implies t[i] <= x[i] by {
                        assert(a[i] + t[i] == x[i]);
                    }
                }
            }
        }
    }
}

/// A combination over a concatenation of steps is the sum of the two combinations.
pub proof fn lemma_combination_concat(b: Seq<Polynomial>, s1: Seq<(int, Seq<u32>, int)>, s2: Seq<(int, Seq<u32>, int)>, x: Seq<u32>)
    ensures
        combination(b, s1 + s2, x) == combination(b, s1, x) + combination(b, s2, x),
    decreases s2.len(),
{
    if s2.len() == 0 {
        assert(s1 + s2 =~= s1);
    } else {
        assert((s1 + s2).drop_last() =~= s1 + s2.drop_last());
        assert((s1 + s2).last() == s2.last());
        lemma_combination_concat(b, s1, s2.drop_last(), x);
    }
}

/// The steps of a combination name generators of `b`.
pub open spec fn steps_valid(b: Seq<Polynomial>, steps: Seq<(int, Seq<u32>, int)>) -> bool {
    forall|k: int| 0 <= k < steps.len() ==> 0 <= (#[trigger] steps[k]).2 < b.len()
}

/// Every generator's monomials have `n` variables.
pub open spec fn gens_len(b: Seq<Polynomial>, n: nat) -> bool {
    forall|j: int| 0 <= j < b.len() ==> monos_len((#[trigger] b[j])@, n)
}

/// The steps `steps`, each scaled by `c` and shifted by `t`; a step whose shift would
/// overflow gets coefficient 0.
pub open spec fn shifted_steps(steps: Seq<(int, Seq<u32>, int)>, c: int, t: Seq<u32>) -> Seq<(int, Seq<u32>, int)> {
    Seq::new(
        steps.len(),
        |k: int|
            if mul_fits(steps[k].1, t) && steps[k].1.len() == t.len() {
                (c * steps[k].0, spec_mul(steps[k].1, t), steps[k].2)
            } else {
                (0, steps[k].1, steps[k].2)
            },
    )
}

/// Scaling and shifting the steps scales and shifts the combination.
pub proof fn lemma_shifted_steps(b: Seq<Polynomial>, steps: Seq<(int, Seq<u32>, int)>, c: int, t: Seq<u32>, x: Seq<u32>, n: nat)
    requires
        gens_len(b, n),
        steps_valid(b, steps),
        t.len() == n,
    ensures
        steps_valid(b, shifted_steps(steps, c, t)),
        combination(b, shifted_steps(steps, c, t), x) == if spec_divides(t, x) { c * combination(b, steps, spec_quotient(t, x)) } else { 0 },
    decreases steps.len(),
{
    let sh = shifted_steps(steps, c, t);
    assert forall|k: int| 0 <= k < sh.len() implies 0 <= (#[trigger] sh[k]).2 < b.len() by {
        assert(sh[k].2 == steps[k].2);
    }
    if steps.len() > 0 {
        let s0 = steps.drop_last();
        assert forall|k: int| 0 <= k < s0.len() implies 0 <= (#[trigger] s0[k]).2 < b.len() by {
            assert(s0[k] == steps[k]);
        }
        lemma_shifted_steps(b, s0, c, t, x, n);
        assert(sh.drop_last() =~= shifted_steps(s0, c, t));
        let (d, s, j) = steps.last();
        assert(steps.last() == steps[steps.len() - 1]);
        assert(sh.last() == sh[sh.len() - 1]);
        let g = b[j]@;
        assert(monos_len(g, n));
        let q = spec_quotient(t, x);
        let prev_l = combination(b, shifted_steps(s0, c, t), x);
        let prev_r = combination(b, s0, q);
        if mul_fits(s, t) && s.len() == t.len() {
            let st = spec_mul(s, t);
            assert(sh.last() == (c * d, st, j));
            lemma_shift_split(g, st, x, n);
            lemma_shift_split(g, s, q, n);
            assert(st.len() == n);
            if spec_divides(t, x) {
                assert(spec_divides(st, x) <==> spec_divides(s, q)) by {
                    if spec_divides(st, x) {
                        assert forall|i: int| 0 <= i < s.len() implies s[i] <= q[i] by {
                            assert(st[i] == s[i] + t[i]);
                            assert(st[i] <= x[i]);
                        }
                    }
                    if spec_divides(s, q) {
                        assert forall|i: int| 0 <= i < st.len() implies st[i] <= x[i] by {
                            assert(st[i] == s[i] + t[i]);
                            assert(s[i] <= q[i]);
                        }
                    }
                }
                if spec_divides(st, x) {
                    assert(spec_quotient(st, x) =~= spec_quotient(s, q)) by {
                        assert forall|i: int| 0 <= i < x.len() implies spec_quotient(st, x)[i] == spec_quotient(s, q)[i] by {
                            assert(st[i] == s[i] + t[i]);
                        }
                    }
                }
                let a = coeff_sum_shifted(g, s, q);
                assert(coeff_sum_shifted(g, st, x) == a);
                assert(prev_l == c * prev_r);
                assert(c * (prev_r + d * a) == c * prev_r + (c * d) * a) by (nonlinear_arith);
            } else {
                assert(!spec_divides(st, x)) by {
                    if spec_divides(st, x) {
                        assert forall|i: int| 0 <= i < t.len() implies t[i] <= x[i] by {
                            assert(st[i] == s[i] + t[i]);
                            assert(st[i] <= x[i]);
                        }
                    }
                }
                assert(coeff_sum_shifted(g, st, x) == 0);
                assert((c * d) * 0 == 0) by (nonlinear_arith);
            }
        } else {
            assert(sh.last() == (0int, s, j));
            assert(0 * coeff_sum_shifted(g, s, x) == 0) by (nonlinear_arith);
            if spec_divides(t, x) {
                lemma_shift_split(g, s, q, n);
                assert(coeff_sum_shifted(g, s, q) == 0) by {
                    if spec_divides(s, q) && s.len() == n {
                        assert(mul_fits(s, t)) by {
                            assert forall|i: int| 0 <= i < s.len() implies s[i] + t[i] <= u32::MAX by {
                                assert(s[i] <= q[i]);
                                assert(q[i] == x[i] - t[i]);
                            }
                        }
                    }
                }
                assert(prev_l == c * prev_r);
                assert(c * (prev_r + d * 0) == c * prev_r) by (nonlinear_arith);
            }
        }
    }
}

/// A multiple of a multiple of `p` is a multiple of `p`.
pub proof fn lemma_mod_mul_zero(p: int, c: int, u: int)
    requires
        p > 0,
        u % p == 0,
    ensures
        (c * u) % p == 0,
{
    let k = u / p;
    vstd::arithmetic::div_mod::lemma_fundamental_div_mod(u, p);
    assert(c * u == (c * k) * p) by (nonlinear_arith)
        requires
            u == p * k,
    ;
    vstd::arithmetic::div_mod::lemma_mod_multiples_basic(c * k, p);
}

/// A sum of multiples of `p` is a multiple of `p`.
pub proof fn lemma_mod_add_zero(p: int, u: int, v: int)
    requires
        p > 0,
        u % p == 0,
        v % p == 0,
    ensures
        (u + v) % p == 0,
        (u - v) % p == 0,
{
    let a = u / p;
    let b = v / p;
    vstd::arithmetic::div_mod::lemma_fundamental_div_mod(u, p);
    vstd::arithmetic::div_mod::lemma_fundamental_div_mod(v, p);
    assert(u + v == (a + b) * p) by (nonlinear_arith)
        requires
            u == p * a,
            v == p * b,
    ;
    assert(u - v == (a - b) * p) by (nonlinear_arith)
        requires
            u == p * a,
            v == p * b,
    ;
    vstd::arithmetic::div_mod::lemma_mod_multiples_basic(a + b, p);
    vstd::arithmetic::div_mod::lemma_mod_multiples_basic(a - b, p);
}

/// `v % p` differs from `v` by a multiple of `p`.
pub proof fn lemma_mod_self_diff(p: int, v: int)
    requires
        p > 0,
    ensures
        (v % p - v) % p == 0,
{
    let a = v / p;
    vstd::arithmetic::div_mod::lemma_fundamental_div_mod(v, p);
    assert(v % p - v == (0 - a) * p) by (nonlinear_arith)
        requires
            v == p * a + v % p,
    ;
    vstd::arithmetic::div_mod::lemma_mod_multiples_basic(0 - a, p);
}

/// Steps witnessing that `f` lies in the ideal generated by `b`.
pub open spec fn witness_of(ctx: RingCtx, b: Seq<Polynomial>, f: Seq<Term>) -> Seq<(int, Seq<u32>, int)> {
    choose|w: Seq<(int, Seq<u32>, int)>| reduction_witness(ctx, b, f, Seq::<Term>::empty(), w)
}

/// The steps over `a` rewritten over `b`, each generator of `a` replaced by its witness.
pub open spec fn composed_steps(ctx: RingCtx, a: Seq<Polynomial>, b: Seq<Polynomial>, steps: Seq<(int, Seq<u32>, int)>) -> Seq<(int, Seq<u32>, int)>
    decreases steps.len(),
{
    if steps.len() == 0 {
        Seq::empty()
    } else {
        let (c, t, i) = steps.last();
        composed_steps(ctx, a, b, steps.drop_last()) + if t.len() == ctx.nvars {
            shifted_steps(witness_of(ctx, b, a[i]@), c, t)
        } else {
            Seq::empty()
        }
    }
}

/// Canonical polynomials have monomials of the ring's variable count.
pub proof fn lemma_all_wf_len(ctx: RingCtx, b: Seq<Polynomial>)
    requires
        all_wf(ctx, b),
    ensures
        gens_len(b, ctx.nvars as nat),
{
    assert forall|j: int| 0 <= j < b.len() implies monos_len((#[trigger] b[j])@, ctx.nvars as nat) by {
        assert(poly_wf(ctx, b[j]@));
    }
}

/// Every generator of `a` that the steps use lies in the ideal of `b`.
pub open spec fn used_within(ctx: RingCtx, a: Seq<Polynomial>, b: Seq<Polynomial>, steps: Seq<(int, Seq<u32>, int)>) -> bool {
    forall|k: int| 0 <= k < steps.len() ==> in_ideal(ctx, b, a[(#[trigger] steps[k]).2]@)
}

proof fn lemma_composed(ctx: RingCtx, a: Seq<Polynomial>, b: Seq<Polynomial>, steps: Seq<(int, Seq<u32>, int)>, x: Seq<u32>)
    requires
        ctx.wf(),
        all_wf(ctx, a),
        all_wf(ctx, b),
        steps_valid(a, steps),
        used_within(ctx, a, b, steps),
    ensures
        steps_valid(b, composed_steps(ctx, a, b, steps)),
        (combination(a, steps, x) - combination(b, composed_steps(ctx, a, b, steps), x)) % ctx.field.modulus() == 0,
    decreases steps.len(),
{
    let p = ctx.field.modulus();
    let n = ctx.nvars as nat;
    lemma_all_wf_len(ctx, a);
    lemma_all_wf_len(ctx, b);
    if steps.len() == 0 {
        assert(0int % p == 0);
    } else {
        let s0 = steps.drop_last();
        assert forall|k: int| 0 <= k < s0.len() implies 0 <= (#[trigger] s0[k]).2 < a.len() && in_ideal(ctx, b, a[s0[k].2]@) by {
            assert(s0[k] == steps[k]);
        }
        lemma_composed(ctx, a, b, s0, x);
        let c0 = composed_steps(ctx, a, b, s0);
        let (c, t, i) = steps.last();
        assert(steps.last() == steps[steps.len() - 1]);
        assert(0 <= i < a.len());
        let ai = a[i]@;
        assert(monos_len(ai, n));
        lemma_shift_split(ai, t, x, n);
        let d0 = combination(a, s0, x) - combination(b, c0, x);
        if t.len() == n {
            assert(in_ideal(ctx, b, a[steps[steps.len() - 1].2]@));
            assert(in_ideal(ctx, b, ai));
            let w = witness_of(ctx, b, ai);
            assert(reduction_witness(ctx, b, ai, Seq::<Term>::empty(), w));
            assert(steps_valid(b, w));
            let sh = shifted_steps(w, c, t);
            lemma_shifted_steps(b, w, c, t, x, n);
            assert(composed_steps(ctx, a, b, steps) == c0 + sh);
            lemma_combination_concat(b, c0, sh, x);
            assert forall|k: int| 0 <= k < (c0 + sh).len() implies 0 <= (#[trigger] (c0 + sh)[k]).2 < b.len() by {
                if k < c0.len() {
                    assert((c0 + sh)[k] == c0[k]);
                } else {
                    assert((c0 + sh)[k] == sh[k - c0.len()]);
                }
            }
            if spec_divides(t, x) {
                let q = spec_quotient(t, x);
                let e = coeff_sum(ai, q) - combination(b, w, q);
                assert(coeff_sum(Seq::<Term>::empty(), q) == 0);
                assert((coeff_sum(ai, q) - coeff_sum(Seq::<Term>::empty(), q) - combination(b, w, q)) % p == 0);
                lemma_mod_mul_zero(p, c, e);
                let ca = coeff_sum(ai, q);
                let cb = combination(b, w, q);
                assert(c * ca - c * cb == c * (ca - cb)) by (nonlinear_arith);
                lemma_mod_add_zero(p, d0, c * e);
            } else {
                assert(c * 0 == 0) by (nonlinear_arith);
            }
        } else {
            assert(composed_steps(ctx, a, b, steps) =~= c0);
            assert(c * 0 == 0) by (nonlinear_arith);
        }
    }
}

/// Ideal membership is transitive: what lies in the ideal of `a`, whose generators all lie
/// in the ideal of `b`, lies in the ideal of `b`.
pub proof fn lemma_ideal_compose(ctx: RingCtx, a: Seq<Polynomial>, b: Seq<Polynomial>, f: Seq<Term>)
    requires
        ctx.wf(),
        all_wf(ctx, a),
        all_wf(ctx, b),
        in_ideal(ctx, a, f),
        ideal_within(ctx, a, b),
    ensures
        in_ideal(ctx, b, f),
{
    let p = ctx.field.modulus();
    let w = witness_of(ctx, a, f);
    assert(reduction_witness(ctx, a, f, Seq::<Term>::empty(), w));
    let cw = composed_steps(ctx, a, b, w);
    assert forall|k: int| 0 <= k < w.len() implies in_ideal(ctx, b, a[(#[trigger] w[k]).2]@) by {
        assert(0 <= w[k].2 < a.len());
    }
    lemma_composed(ctx, a, b, w, Seq::empty());
    assert forall|x: Seq<u32>| (coeff_sum(f, x) - coeff_sum(Seq::<Term>::empty(), x) - #[trigger] combination(b, cw, x)) % p == 0 by {
        lemma_composed(ctx, a, b, w, x);
        assert(coeff_sum(Seq::<Term>::empty(), x) == 0);
        lemma_mod_add_zero(p, coeff_sum(f, x) - 0 - combination(a, w, x), combination(a, w, x) - combination(b, cw, x));
    }
    assert(reduction_witness(ctx, b, f, Seq::<Term>::empty(), cw));
}

/// The ideal of `b` within that of `c`, and that of `a` within that of `b`, give that of `a`
/// within that of `c`.
pub proof fn lemma_ideal_within_trans(ctx: RingCtx, a: Seq<Polynomial>, b: Seq<Polynomial>, c: Seq<Polynomial>)
    requires
        ctx.wf(),
        all_wf(ctx, a),
        all_wf(ctx, b),
        all_wf(ctx, c),
        ideal_within(ctx, a, b),
        ideal_within(ctx, b, c),
    ensures
        ideal_within(ctx, a, c),
{
    assert forall|i: int| 0 <= i < a.len() implies in_ideal(ctx, c, (#[trigger] a[i])@) by {
        lemma_ideal_compose(ctx, b, c, a[i]@);
    }
}

/// Every generator lies in the ideal it generates.
pub proof fn lemma_ideal_member(ctx: RingCtx, b: Seq<Polynomial>, j: int)
    requires
        ctx.wf(),
        all_wf(ctx, b),
        0 <= j < b.len(),
    ensures
        in_ideal(ctx, b, b[j]@),
{
    let p = ctx.field.modulus();
    let n = ctx.nvars as nat;
    let one = spec_one(n);
    let w = seq![(1int, one, j)];
    let g = b[j]@;
    assert(poly_wf(ctx, g));
    assert(monos_len(g, n));
    assert forall|x: Seq<u32>| (coeff_sum(g, x) - coeff_sum(Seq::<Term>::empty(), x) - #[trigger] combination(b, w, x)) % p == 0 by {
        assert(w.drop_last() =~= Seq::<(int, Seq<u32>, int)>::empty());
        assert(w.last() == (1int, one, j));
        assert(combination(b, Seq::<(int, Seq<u32>, int)>::empty(), x) == 0);
        assert(combination(b, w, x) == 1 * coeff_sum_shifted(g, one, x));
        lemma_shift_split(g, one, x, n);
        assert(coeff_sum(Seq::<Term>::empty(), x) == 0);
        if x.len() == n {
            assert(spec_divides(one, x));
            assert(spec_quotient(one, x) =~= x);
        } else {
            lemma_coeff_sum_wf(ctx, g, x);
        }
        assert(0int % p == 0);
    }
    assert(reduction_witness(ctx, b, g, Seq::<Term>::empty(), w));
}

/// Every polynomial of `b` lies in the ideal of `b`.
pub proof fn lemma_ideal_within_self(ctx: RingCtx, b: Seq<Polynomial>)
    requires
        ctx.wf(),
        all_wf(ctx, b),
    ensures
        ideal_within(ctx, b, b),
{
    assert forall|i: int| 0 <= i < b.len() implies in_ideal(ctx, b, (#[trigger] b[i])@) by {
        lemma_ideal_member(ctx, b, i);
    }
}

/// The steps with every coefficient multiplied by `c`.
pub open spec fn scaled_steps(steps: Seq<(int, Seq<u32>, int)>, c: int) -> Seq<(int, Seq<u32>, int)> {
    Seq::new(steps.len(), |k: int| (c * steps[k].0, steps[k].1, steps[k].2))
}

/// Scaling the coefficients scales the combination.
pub proof fn lemma_scaled_steps(b: Seq<Polynomial>, steps: Seq<(int, Seq<u32>, int)>, c: int, x: Seq<u32>)
    ensures
        steps_valid(b, steps) ==> steps_valid(b, scaled_steps(steps, c)),
        combination(b, scaled_steps(steps, c), x) == c * combination(b, steps, x),
    decreases steps.len(),
{
    let sc = scaled_steps(steps, c);
    if steps_valid(b, steps) {
        assert forall|k: int| 0 <= k < sc.len() implies 0 <= (#[trigger] sc[k]).2 < b.len() by {
            assert(sc[k].2 == steps[k].2);
        }
    }
    if steps.len() == 0 {
        assert(c * 0 == 0) by (nonlinear_arith);
    } else {
        let s0 = steps.drop_last();
        lemma_scaled_steps(b, s0, c, x);
        assert(sc.drop_last() =~= scaled_steps(s0, c));
        let (d, t, i) = steps.last();
        assert(steps.last() == steps[steps.len() - 1]);
        assert(sc.last() == sc[sc.len() - 1]);
        assert(sc.last() == (c * d, t, i));
        let prev = combination(b, s0, x);
        let a = coeff_sum_shifted(b[i]@, t, x);
        assert(c * prev + (c * d) * a == c * (prev + d * a)) by (nonlinear_arith);
    }
}

/// Polynomials congruent modulo the ideal of `b` lie in it together or not at all.
pub proof fn lemma_ideal_congruent(ctx: RingCtx, b: Seq<Polynomial>, f: Seq<Term>, q: Seq<Term>)
    requires
        ctx.wf(),
        congruent_mod(ctx, b, f, q),
    ensures
        in_ideal(ctx, b, f) <==> in_ideal(ctx, b, q),
{
    let p = ctx.field.modulus();
    let e = Seq::<Term>::empty();
    let w = choose|w: Seq<(int, Seq<u32>, int)>| reduction_witness(ctx, b, f, q, w);
    assert(reduction_witness(ctx, b, f, q, w));
    if in_ideal(ctx, b, f) {
        let wf = witness_of(ctx, b, f);
        assert(reduction_witness(ctx, b, f, e, wf));
        let nw = scaled_steps(w, -1);
        let v = wf + nw;
        lemma_scaled_steps(b, w, -1, Seq::empty());
        assert forall|k: int| 0 <= k < v.len() implies 0 <= (#[trigger] v[k]).2 < b.len() by {
            if k < wf.len() {
                assert(v[k] == wf[k]);
            } else {
                assert(v[k] == nw[k - wf.len()]);
            }
        }
        assert forall|x: Seq<u32>| (coeff_sum(q, x) - coeff_sum(e, x) - #[trigger] combination(b, v, x)) % p == 0 by {
            lemma_scaled_steps(b, w, -1, x);
            lemma_combination_concat(b, wf, nw, x);
            assert(coeff_sum(e, x) == 0);
            let u1 = coeff_sum(f, x) - 0 - combination(b, wf, x);
            let u2 = coeff_sum(f, x) - coeff_sum(q, x) - combination(b, w, x);
            assert((coeff_sum(f, x) - coeff_sum(e, x) - combination(b, wf, x)) % p == 0);
            lemma_mod_add_zero(p, u1, u2);
        }
        assert(reduction_witness(ctx, b, q, e, v));
    }
    if in_ideal(ctx, b, q) {
        let wq = witness_of(ctx, b, q);
        assert(reduction_witness(ctx, b, q, e, wq));
        let v = wq + w;
        assert forall|k: int| 0 <= k < v.len() implies 0 <= (#[trigger] v[k]).2 < b.len() by {
            if k < wq.len() {
                assert(v[k] == wq[k]);
            } else {
                assert(v[k] == w[k - wq.len()]);
            }
        }
        assert forall|x: Seq<u32>| (coeff_sum(f, x) - coeff_sum(e, x) - #[trigger] combination(b, v, x)) % p == 0 by {
            lemma_combination_concat(b, wq, w, x);
            assert(coeff_sum(e, x) == 0);
            let u1 = coeff_sum(q, x) - 0 - combination(b, wq, x);
            let u2 = coeff_sum(f, x) - coeff_sum(q, x) - combination(b, w, x);
            assert((coeff_sum(q, x) - coeff_sum(e, x) - combination(b, wq, x)) % p == 0);
            lemma_mod_add_zero(p, u1, u2);
        }
        assert(reduction_witness(ctx, b, f, e, v));
    }
}

/// A scalar multiple, coefficientwise modulo the characteristic, of a member of the ideal
/// is a member.
pub proof fn lemma_ideal_scale(ctx: RingCtx, b: Seq<Polynomial>, f: Seq<Term>, g: Seq<Term>, c: int)
    requires
        ctx.wf(),
        in_ideal(ctx, b, f),
        forall|x: Seq<u32>| #![trigger coeff_sum(g, x)] coeff_sum(g, x) == (c * coeff_sum(f, x)) % ctx.field.modulus(),
    ensures
        in_ideal(ctx, b, g),
{
    let p = ctx.field.modulus();
    let e = Seq::<Term>::empty();
    let wf = witness_of(ctx, b, f);
    assert(reduction_witness(ctx, b, f, e, wf));
    let v = scaled_steps(wf, c);
    lemma_scaled_steps(b, wf, c, Seq::empty());
    assert forall|x: Seq<u32>| (coeff_sum(g, x) - coeff_sum(e, x) - #[trigger] combination(b, v, x)) % p == 0 by {
        lemma_scaled_steps(b, wf, c, x);
        assert(coeff_sum(e, x) == 0);
        let cf = coeff_sum(f, x);
        let cw = combination(b, wf, x);
        assert((cf - coeff_sum(e, x) - cw) % p == 0);
        lemma_mod_mul_zero(p, c, cf - cw);
        lemma_mod_self_diff(p, c * cf);
        assert(c * (cf - cw) == c * cf - c * cw) by (nonlinear_arith);
        lemma_mod_add_zero(p, (c * cf) % p - c * cf, c * (cf - cw));
    }
    assert(reduction_witness(ctx, b, g, e, v));
}

/// A congruence modulo generators of `a` that all lie in the ideal of `b` is a congruence
/// modulo the ideal of `b`.
pub proof fn lemma_congruent_transfer(ctx: RingCtx, a: Seq<Polynomial>, b: Seq<Polynomial>, allowed: Set<int>, f: Seq<Term>, q: Seq<Term>)
    requires
        ctx.wf(),
        all_wf(ctx, a),
        all_wf(ctx, b),
        crate::reduce::congruent_mod_by(ctx, a, allowed, f, q),
        forall|j: int| 0 <= j < a.len() && allowed.contains(j) ==> in_ideal(ctx, b, (#[trigger] a[j])@),
    ensures
        congruent_mod(ctx, b, f, q),
{
    let p = ctx.field.modulus();
    let w = choose|w: Seq<(int, Seq<u32>, int)>|
        #[trigger] reduction_witness(ctx, a, f, q, w) && forall|k: int| 0 <= k < w.len() ==> allowed.contains(#[trigger] w[k].2);
    assert forall|k: int| 0 <= k < w.len() implies in_ideal(ctx, b, a[(#[trigger] w[k]).2]@) by {
        assert(allowed.contains(w[k].2));
    }
    let cw = composed_steps(ctx, a, b, w);
    lemma_composed(ctx, a, b, w, Seq::empty());
    assert forall|x: Seq<u32>| (coeff_sum(f, x) - coeff_sum(q, x) - #[trigger] combination(b, cw, x)) % p == 0 by {
        lemma_composed(ctx, a, b, w, x);
        lemma_mod_add_zero(p, coeff_sum(f, x) - coeff_sum(q, x) - combination(a, w, x), combination(a, w, x) - combination(b, cw, x));
    }
    assert(reduction_witness(ctx, b, f, q, cw));
}

/// `g` is an element of `b`.
pub open spec fn element_of(b: Seq<Polynomial>, g: Polynomial) -> bool {
    exists|j: int| 0 <= j < b.len() && #[trigger] b[j] == g
}

/// Every element of `a` is an element of `b`.
pub open spec fn drawn_from(a: Seq<Polynomial>, b: Seq<Polynomial>) -> bool {
    forall|k: int| 0 <= k < a.len() ==> element_of(b, #[trigger] a[k])
}

/// Elements of `b` lie in the ideal of `b`.
pub proof fn lemma_ideal_drawn(ctx: RingCtx, a: Seq<Polynomial>, b: Seq<Polynomial>)
    requires
        ctx.wf(),
        all_wf(ctx, b),
        drawn_from(a, b),
    ensures
        ideal_within(ctx, a, b),
{
    assert forall|k: int| 0 <= k < a.len() implies in_ideal(ctx, b, (#[trigger] a[k])@) by {
        assert(element_of(b, a[k]));
        let j = choose|j: int| 0 <= j < b.len() && #[trigger] b[j] == a[k];
        lemma_ideal_member(ctx, b, j);
    }
}

/// The polynomial with no term lies in every ideal.
pub proof fn lemma_ideal_zero(ctx: RingCtx, b: Seq<Polynomial>, f: Seq<Term>)
    requires
        ctx.wf(),
        f.len() == 0,
    ensures
        in_ideal(ctx, b, f),
{
    let e = Seq::<Term>::empty();
    let w = Seq::<(int, Seq<u32>, int)>::empty();
    assert forall|x: Seq<u32>| (coeff_sum(f, x) - coeff_sum(e, x) - #[trigger] combination(b, w, x)) % ctx.field.modulus() == 0 by {
        assert(f =~= e);
        assert(coeff_sum(e, x) == 0);
        assert(0int % ctx.field.modulus() == 0);
    }
    assert(reduction_witness(ctx, b, f, e, w));
}

/// A congruence by some of the generators is a congruence by all of them.
pub proof fn lemma_congruent_by_plain(ctx: RingCtx, b: Seq<Polynomial>, allowed: Set<int>, f: Seq<Term>, q: Seq<Term>)
    requires
        crate::reduce::congruent_mod_by(ctx, b, allowed, f, q),
    ensures
        congruent_mod(ctx, b, f, q),
{
    let w = choose|w: Seq<(int, Seq<u32>, int)>|
        #[trigger] reduction_witness(ctx, b, f, q, w) && forall|k: int| 0 <= k < w.len() ==> allowed.contains(#[trigger] w[k].2);
    assert(reduction_witness(ctx, b, f, q, w));
}

/// Each `f[k]` is congruent to `n[k]` modulo the elements of `f` after it.
pub open spec fn triangular(ctx: RingCtx, f: Seq<Polynomial>, n: Seq<Polynomial>) -> bool {
    &&& f.len() == n.len()
    &&& forall|k: int|
        0 <= k < f.len() ==> crate::reduce::congruent_mod_by(ctx, f, Set::new(|j: int| k < j < f.len()), n[k]@, (#[trigger] f[k])@)
}

proof fn lemma_triangular_down(ctx: RingCtx, f: Seq<Polynomial>, n: Seq<Polynomial>, k: int)
    requires
        ctx.wf(),
        all_wf(ctx, f),
        all_wf(ctx, n),
        triangular(ctx, f, n),
        0 <= k <= f.len(),
    ensures
        forall|j: int| k <= j < f.len() ==> in_ideal(ctx, n, (#[trigger] f[j])@),
    decreases f.len() - k,
{
    if k < f.len() {
        lemma_triangular_down(ctx, f, n, k + 1);
        let allowed = Set::new(|j: int| k < j < f.len());
        assert(crate::reduce::congruent_mod_by(ctx, f, allowed, n[k]@, f[k]@));
        assert forall|j: int| 0 <= j < f.len() && allowed.contains(j) implies in_ideal(ctx, n, (#[trigger] f[j])@) by {
            assert(k + 1 <= j);
        }
        lemma_congruent_transfer(ctx, f, n, allowed, n[k]@, f[k]@);
        lemma_ideal_member(ctx, n, k);
        lemma_ideal_congruent(ctx, n, n[k]@, f[k]@);
    }
}

/// Elements congruent, each to its counterpart, modulo the later elements generate the same
/// ideal as their counterparts.
pub proof fn lemma_triangular_ideal(ctx: RingCtx, f: Seq<Polynomial>, n: Seq<Polynomial>)
    requires
        ctx.wf(),
        all_wf(ctx, f),
        all_wf(ctx, n),
        triangular(ctx, f, n),
    ensures
        ideal_within(ctx, f, n),
        ideal_within(ctx, n, f),
{
    lemma_triangular_down(ctx, f, n, 0);
    assert forall|k: int| 0 <= k < n.len() implies in_ideal(ctx, f, (#[trigger] n[k])@) by {
        let allowed = Set::new(|j: int| k < j < f.len());
        assert(crate::reduce::congruent_mod_by(ctx, f, allowed, n[k]@, f[k]@));
        lemma_congruent_by_plain(ctx, f, allowed, n[k]@, f[k]@);
        lemma_ideal_member(ctx, f, k);
        lemma_ideal_congruent(ctx, f, n[k]@, f[k]@);
    }
}

/// Membership depends only on the coefficients.
pub proof fn lemma_ideal_same_coeffs(ctx: RingCtx, b: Seq<Polynomial>, f: Seq<Term>, g: Seq<Term>)
    requires
        in_ideal(ctx, b, f),
        forall|x: Seq<u32>| #[trigger] coeff_sum(f, x) == coeff_sum(g, x),
    ensures
        in_ideal(ctx, b, g),
{
    let e = Seq::<Term>::empty();
    let w = witness_of(ctx, b, f);
    assert(reduction_witness(ctx, b, f, e, w));
    assert forall|x: Seq<u32>| (coeff_sum(g, x) - coeff_sum(e, x) - #[trigger] combination(b, w, x)) % ctx.field.modulus() == 0 by {
        assert(coeff_sum(f, x) == coeff_sum(g, x));
    }
    assert(reduction_witness(ctx, b, g, e, w));
}

/// A monomial multiple of a member of the ideal is a member.
pub proof fn lemma_ideal_shift(ctx: RingCtx, b: Seq<Polynomial>, f: Seq<Term>, g: Seq<Term>, t: Seq<u32>)
    requires
        ctx.wf(),
        all_wf(ctx, b),
        poly_wf(ctx, f),
        t.len() == ctx.nvars,
        in_ideal(ctx, b, f),
        forall|x: Seq<u32>| #![trigger coeff_sum(g, x)] coeff_sum(g, x) == coeff_sum_shifted(f, t, x),
    ensures
        in_ideal(ctx, b, g),
{
    let p = ctx.field.modulus();
    let n = ctx.nvars as nat;
    let e = Seq::<Term>::empty();
    let wf = witness_of(ctx, b, f);
    assert(reduction_witness(ctx, b, f, e, wf));
    lemma_all_wf_len(ctx, b);
    assert(monos_len(f, n));
    let v = shifted_steps(wf, 1, t);
    lemma_shifted_steps(b, wf, 1, t, Seq::empty(), n);
    assert forall|x: Seq<u32>| (coeff_sum(g, x) - coeff_sum(e, x) - #[trigger] combination(b, v, x)) % p == 0 by {
        lemma_shifted_steps(b, wf, 1, t, x, n);
        lemma_shift_split(f, t, x, n);
        assert(coeff_sum(e, x) == 0);
        if spec_divides(t, x) {
            let q = spec_quotient(t, x);
            assert(coeff_sum(e, q) == 0);
            assert((coeff_sum(f, q) - coeff_sum(e, q) - combination(b, wf, q)) % p == 0);
        } else {
            assert(0int % p == 0);
        }
    }
    assert(reduction_witness(ctx, b, g, e, v));
}

/// `a` and `b` generate the same ideal.
pub open spec fn same_ideal(ctx: RingCtx, a: Seq<Polynomial>, b: Seq<Polynomial>) -> bool {
    ideal_within(ctx, a, b) && ideal_within(ctx, b, a)
}

/// Generating the same ideal is transitive.
pub proof fn lemma_same_ideal_trans(ctx: RingCtx, a: Seq<Polynomial>, b: Seq<Polynomial>, c: Seq<Polynomial>)
    requires
        ctx.wf(),
        all_wf(ctx, a),
        all_wf(ctx, b),
        all_wf(ctx, c),
        same_ideal(ctx, a, b),
        same_ideal(ctx, b, c),
    ensures
        same_ideal(ctx, a, c),
{
    lemma_ideal_within_trans(ctx, a, b, c);
    lemma_ideal_within_trans(ctx, c, b, a);
}

/// Indices of the nonzero elements of `n` whose leading monomial is below that of `n[k]`.
pub open spec fn lower(ctx: RingCtx, n: Seq<Polynomial>, k: int) -> Set<int> {
    Set::new(|j: int| 0 <= j < n.len() && is_nonzero(n[k]) && is_nonzero(n[j]) && spec_gt(ctx.order, lm(n[k]), lm(n[j])))
}

/// Each `f[k]` is a copy of `n[k]`, or congruent to it modulo the elements of `n` with a
/// smaller leading monomial.
pub open spec fn lowered(ctx: RingCtx, f: Seq<Polynomial>, n: Seq<Polynomial>) -> bool {
    &&& f.len() == n.len()
    &&& forall|k: int|
        0 <= k < n.len() ==> crate::polynomial::term_pairs((#[trigger] f[k])@) == crate::polynomial::term_pairs(n[k]@)
            || crate::reduce::congruent_mod_by(ctx, n, lower(ctx, n, k), n[k]@, f[k]@)
}

proof fn lemma_lowered_rank(ctx: RingCtx, f: Seq<Polynomial>, n: Seq<Polynomial>, r: nat)
    requires
        ctx.wf(),
        all_wf(ctx, f),
        all_wf(ctx, n),
        lowered(ctx, f, n),
    ensures
        forall|k: int| 0 <= k < n.len() && (!is_nonzero(n[k]) || rank(ctx.order, ctx.nvars as nat, lm(n[k])) < r) ==> in_ideal(ctx, f, (#[trigger] n[k])@),
    decreases r,
{
    if r > 0 {
        lemma_lowered_rank(ctx, f, n, (r - 1) as nat);
    }
    assert forall|k: int| 0 <= k < n.len() && (!is_nonzero(n[k]) || rank(ctx.order, ctx.nvars as nat, lm(n[k])) < r) implies in_ideal(ctx, f, (#[trigger] n[k])@) by {
        lemma_ideal_member(ctx, f, k);
        if crate::polynomial::term_pairs(f[k]@) == crate::polynomial::term_pairs(n[k]@) {
            crate::polynomial::lemma_term_pairs_eq(ctx, f[k]@, n[k]@);
            lemma_ideal_same_coeffs(ctx, f, f[k]@, n[k]@);
        } else {
            let allowed = lower(ctx, n, k);
            assert forall|j: int| 0 <= j < n.len() && allowed.contains(j) implies in_ideal(ctx, f, (#[trigger] n[j])@) by {
                assert(poly_wf(ctx, n[k]@) && poly_wf(ctx, n[j]@));
                lemma_rank_decreases(ctx.order, ctx.nvars as nat, lm(n[k]), lm(n[j]));
            }
            lemma_congruent_transfer(ctx, n, f, allowed, n[k]@, f[k]@);
            lemma_ideal_congruent(ctx, f, n[k]@, f[k]@);
        }
    }
}

/// When each element is a copy, or congruent to its counterpart modulo counterparts with a
/// smaller leading monomial, the counterparts lie in the ideal of the elements.
pub proof fn lemma_lowered_within(ctx: RingCtx, f: Seq<Polynomial>, n: Seq<Polynomial>)
    requires
        ctx.wf(),
        all_wf(ctx, f),
        all_wf(ctx, n),
        lowered(ctx, f, n),
    ensures
        ideal_within(ctx, n, f),
{
    assert forall|k: int| 0 <= k < n.len() implies in_ideal(ctx, f, (#[trigger] n[k])@) by {
        let r = if is_nonzero(n[k]) { rank(ctx.order, ctx.nvars as nat, lm(n[k])) + 1 } else { 0 };
        lemma_lowered_rank(ctx, f, n, r as nat);
    }
}

/// Polynomials with the terms of the generators, position by position, lie in their ideal.
pub proof fn lemma_copies_within(ctx: RingCtx, a: Seq<Polynomial>, b: Seq<Polynomial>)
    requires
        ctx.wf(),
        all_wf(ctx, b),
        a.len() == b.len(),
        forall|k: int| 0 <= k < a.len() ==> crate::polynomial::term_pairs((#[trigger] a[k])@) == crate::polynomial::term_pairs(b[k]@),
    ensures
        ideal_within(ctx, a, b),
{
    assert forall|k: int| 0 <= k < a.len() implies in_ideal(ctx, b, (#[trigger] a[k])@) by {
        lemma_ideal_member(ctx, b, k);
        crate::polynomial::lemma_term_pairs_eq(ctx, b[k]@, a[k]@);
        lemma_ideal_same_coeffs(ctx, b, b[k]@, a[k]@);
    }
}

/// A congruence by the generators with index in `small` is one by those in `big` when every
/// valid index of `small` is in `big`.
pub proof fn lemma_congruent_widen_valid(ctx: RingCtx, b: Seq<Polynomial>, small: Set<int>, big: Set<int>, f: Seq<Term>, q: Seq<Term>)
    requires
        crate::reduce::congruent_mod_by(ctx, b, small, f, q),
        forall|j: int| 0 <= j < b.len() && #[trigger] small.contains(j) ==> big.contains(j),
    ensures
        crate::reduce::congruent_mod_by(ctx, b, big, f, q),
{
    let w = choose|w: Seq<(int, Seq<u32>, int)>|
        #[trigger] reduction_witness(ctx, b, f, q, w) && forall|k: int| 0 <= k < w.len() ==> small.contains(#[trigger] w[k].2);
    assert forall|k: int| 0 <= k < w.len() implies big.contains(#[trigger] w[k].2) by {
        assert(small.contains(w[k].2));
        assert(0 <= w[k].2 < b.len());
    }
    assert(reduction_witness(ctx, b, f, q, w));
}

} // verus!
