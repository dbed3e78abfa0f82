//! Minimal bases and monic normalization.

use vstd::prelude::*;

use crate::f4::symbolic::materialize::all_wf;
use crate::f4::types::{is_nonzero, lm};
use crate::monomial::{divides, exp_sum, spec_divides, Monomial};
use crate::ideal::{drawn_from, element_of, ideal_within, in_ideal, lemma_ideal_drawn, lemma_ideal_member, lemma_ideal_scale, lemma_ideal_zero, same_ideal};
use crate::polynomial::{coeff_sum, lemma_coeff_sum_wf, poly_wf, Polynomial, Term};
use crate::post::error::PostError;
use crate::post::validate::is_minimal;
use crate::ring::RingCtx;

verus! {

/// `q` is `p` with every coefficient multiplied by the inverse of the leading coefficient.
pub open spec fn monic_of(ctx: RingCtx, q: Seq<Term>, p: Seq<Term>) -> bool {
    &&& q.len() == p.len()
    &&& p.len() > 0 ==> exists|c: u32|
        #![trigger (c * p[0].coeff)]
        ctx.field.is_elem(c) && (c * p[0].coeff) % ctx.field.modulus() == 1 && forall|i: int|
            0 <= i < p.len() ==> (#[trigger] q[i]).mono@ == p[i].mono@ && q[i].coeff == (c * p[i].coeff) % ctx.field.modulus()
}

/// The nonzero polynomials of `s`, in order.
pub open spec fn nonzero_polys(s: Seq<Polynomial>) -> Seq<Polynomial>
    decreases s.len(),
{
    if s.len() == 0 {
        Seq::empty()
    } else if is_nonzero(s.last()) {
        nonzero_polys(s.drop_last()).push(s.last())
    } else {
        nonzero_polys(s.drop_last())
    }
}

/// Some other element's leading monomial divides the leading monomial of `s[i]`.
pub open spec fn redundant(s: Seq<Polynomial>, i: int) -> bool {
    exists|j: int| 0 <= j < s.len() && j != i && spec_divides(lm(#[trigger] s[j]), lm(s[i]))
}

/// The elements among the first `k` of `s` that are not redundant, in order.
pub open spec fn survivors(s: Seq<Polynomial>, k: nat) -> Seq<Polynomial>
    decreases k,
{
    if k == 0 {
        Seq::empty()
    } else if !redundant(s, k - 1) {
        survivors(s, (k - 1) as nat).push(s[k - 1])
    } else {
        survivors(s, (k - 1) as nat)
    }
}

/// Makes one polynomial monic in place; zero and monic polynomials are left unchanged.
pub fn make_monic_in_place(ctx: &RingCtx, p: &mut Polynomial) -> (r: Result<(), PostError>)
    requires
        ctx.wf(),
        poly_wf(*ctx, old(p)@),
    ensures
        r is Ok,
        poly_wf(*ctx, final(p)@),
        monic_of(*ctx, final(p)@, old(p)@),
        final(p)@.len() > 0 ==> final(p)@[0].coeff == 1,
        old(p)@.len() > 0 && old(p)@[0].coeff == 1 ==> *final(p) == *old(p),
{
    if p.is_zero() {
        return Ok(());
    }
    let lc = match p.leading_coeff() {
        Some(c) => c,
        None => return Err(PostError::InvariantViolation),
    };
    let one = ctx.field.one();
    if lc == one {
        proof {
            let s = p@;
            vstd::arithmetic::div_mod::lemma_small_mod(1, ctx.field.modulus() as nat);
            assert forall|i: int| 0 <= i < s.len() implies (#[trigger] s[i]).mono@ == s[i].mono@ && s[i].coeff == (1u32 * s[i].coeff) % ctx.field.modulus() by {
                vstd::arithmetic::div_mod::lemma_small_mod(s[i].coeff as nat, ctx.field.modulus() as nat);
            }
            assert(ctx.field.is_elem(1u32) && (1u32 * s[0].coeff) % ctx.field.modulus() == 1);
        }
        return Ok(());
    }
    let inv = match ctx.field.checked_div(one, lc) {
        Some(x) => x,
        None => return Err(PostError::DivByZero),
    };
    let scaled = p.scale_unit(ctx, inv);
    proof {
        let s = p@;
        assert(ctx.field.is_elem(lc) && (inv * lc) % ctx.field.modulus() == 1);
        assert(ctx.field.is_elem(inv) && (inv * s[0].coeff) % ctx.field.modulus() == 1);
    }
    *p = scaled;
    Ok(())
}

/// Keeps the nonzero polynomials whose leading monomial no other element's leading
/// monomial divides, and makes each of them monic.
///
/// Two elements with the same leading monomial divide each other, so both are removed.
pub fn minimize_in_place(ctx: &RingCtx, gb: &mut Vec<Polynomial>) -> (r: Result<(), PostError>)
    requires
        ctx.wf(),
        all_wf(*ctx, old(gb)@),
    ensures
        r is Ok,
        all_wf(*ctx, final(gb)@),
        final(gb)@.len() == survivors(nonzero_polys(old(gb)@), nonzero_polys(old(gb)@).len()).len(),
        forall|i: int| 0 <= i < final(gb)@.len() ==> monic_of(*ctx, (#[trigger] final(gb)@[i])@, survivors(nonzero_polys(old(gb)@), nonzero_polys(old(gb)@).len())[i]@),
        forall|i: int| 0 <= i < final(gb)@.len() ==> (#[trigger] final(gb)@[i])@.len() > 0 && final(gb)@[i]@[0].coeff == 1,
        ideal_within(*ctx, final(gb)@, old(gb)@),
        same_ideal(*ctx, final(gb)@, survivors(nonzero_polys(old(gb)@), nonzero_polys(old(gb)@).len())),
        is_minimal(final(gb)@),
        ({
            let nz = nonzero_polys(old(gb)@);
            let out = final(gb)@;
            &&& forall|i: int|
                #![trigger nz[i]]
                0 <= i < nz.len() && (forall|j: int| 0 <= j < nz.len() && j != i ==> !spec_divides(lm(#[trigger] nz[j]), lm(nz[i])))
                    ==> exists|k: int| 0 <= k < out.len() && lm(#[trigger] out[k]) == lm(nz[i])
            &&& forall|k: int|
                #![trigger out[k]]
                0 <= k < out.len() ==> exists|i: int|
                    0 <= i < nz.len() && lm(out[k]) == lm(#[trigger] nz[i]) && forall|j: int| 0 <= j < nz.len() && j != i ==> !spec_divides(lm(#[trigger] nz[j]), lm(nz[i]))
            &&& (forall|a: int, b: int| 0 <= a < nz.len() && 0 <= b < nz.len() && a != b ==> lm(#[trigger] nz[a]) != lm(#[trigger] nz[b]))
                ==> forall|i: int| #![trigger nz[i]] 0 <= i < nz.len() ==> exists|k: int| 0 <= k < out.len() && spec_divides(lm(#[trigger] out[k]), lm(nz[i]))
        }),
{
    let ghost input = gb@;
    let mut polys: Vec<Polynomial> = Vec::new();
    std::mem::swap(&mut polys, gb);
    let mut nz: Vec<Polynomial> = Vec::new();
    let mut k: usize = 0;
    let n = polys.len();
    while polys.len() > 0
        invariant
            polys@ == input.subrange(k as int, n as int),
            n == input.len(),
            k + polys@.len() == n,
            nz@ == nonzero_polys(input.subrange(0, k as int)),
            all_wf(*ctx, input),
        decreases polys@.len(),
    {
        let p = polys.remove(0);
        proof {
            assert(p == input[k as int]);
            assert(input.subrange(0, k + 1).drop_last() =~= input.subrange(0, k as int));
            assert(input.subrange(0, k + 1).last() == p);
        }
        if !p.is_zero() {
            nz.push(p);
        }
        k += 1;
        proof {
            assert(polys@ =~= input.subrange(k as int, n as int));
        }
    }
    proof {
        assert(input.subrange(0, n as int) =~= input);
    }
    let ghost nzs = nz@;
    proof {
        lemma_nonzero_polys(*ctx, input);
    }
    let mut lms: Vec<Monomial> = Vec::new();
    let mut a: usize = 0;
    while a < nz.len()
        invariant
            nz@ == nzs,
            forall|x: int| 0 <= x < nzs.len() ==> is_nonzero(#[trigger] nzs[x]),
            a <= nzs.len(),
            lms@.len() == a,
            forall|x: int| 0 <= x < a ==> (#[trigger] lms@[x])@ == lm(nzs[x]),
        decreases nzs.len() - a,
    {
        let m = nz[a].leading_mono().unwrap();
        lms.push(m.duplicate());
        a += 1;
    }
    let mut out: Vec<Polynomial> = Vec::new();
    let mut i: usize = 0;
    let total = nz.len();
    while nz.len() > 0
        invariant
            ctx.wf(),
            total == nzs.len(),
            i + nz@.len() == total,
            nz@ == nzs.subrange(i as int, total as int),
            forall|x: int| 0 <= x < nzs.len() ==> is_nonzero(#[trigger] nzs[x]),
            all_wf(*ctx, nzs),
            lms@.len() == total,
            forall|x: int| 0 <= x < total ==> (#[trigger] lms@[x])@ == lm(nzs[x]),
            out@.len() == survivors(nzs, i as nat).len(),
            all_wf(*ctx, out@),
            forall|x: int| 0 <= x < out@.len() ==> monic_of(*ctx, (#[trigger] out@[x])@, survivors(nzs, i as nat)[x]@),
            forall|x: int| 0 <= x < out@.len() ==> (#[trigger] out@[x])@.len() > 0 && out@[x]@[0].coeff == 1,
        decreases nz@.len(),
    {
        let mut p = nz.remove(0);
        proof {
            assert(p == nzs[i as int]);
        }
        let mut is_redundant = false;
        let mut j: usize = 0;
        while j < total
            invariant
                i < total,
                lms@.len() == total,
                j <= total,
                is_redundant <==> exists|y: int| 0 <= y < j && y != i && spec_divides(lms@[y]@, lms@[i as int]@),
            decreases total - j,
        {
            if j != i && divides(&lms[j], &lms[i]) {
                is_redundant = true;
            }
            j += 1;
        }
        proof {
            assert(is_redundant <==> redundant(nzs, i as int)) by {
                if is_redundant {
                    let y = choose|y: int| 0 <= y < j && y != i && spec_divides(lms@[y]@, lms@[i as int]@);
                    assert(spec_divides(lm(nzs[y]), lm(nzs[i as int])));
                }
                if redundant(nzs, i as int) {
                    let y = choose|y: int| 0 <= y < nzs.len() && y != i && spec_divides(lm(#[trigger] nzs[y]), lm(nzs[i as int]));
                    assert(spec_divides(lms@[y]@, lms@[i as int]@));
                }
            }
        }
        let ghost out0 = out@;
        if !is_redundant {
            let ghost p0 = p@;
            match make_monic_in_place(ctx, &mut p) {
                Ok(()) => {},
                Err(e) => return Err(e),
            }
            proof {
                assert(poly_wf(*ctx, nzs[i as int]@));
                assert(p0.len() > 0);
            }
            out.push(p);
        }
        proof {
            let sv = survivors(nzs, (i + 1) as nat);
            assert forall|x: int| 0 <= x < out@.len() implies monic_of(*ctx, (#[trigger] out@[x])@, sv[x]@) by {
                if x < out0.len() {
                    assert(out@[x] == out0[x]);
                }
            }
        }
        i += 1;
        proof {
            assert(nz@ =~= nzs.subrange(i as int, total as int));
        }
    }
    proof {
        let sv = survivors(nzs, total as nat);
        lemma_nonzero_drawn(input);
        lemma_survivors_drawn(nzs, total as nat);
        assert(drawn_from(sv, input)) by {
            assert forall|x: int| 0 <= x < sv.len() implies element_of(input, #[trigger] sv[x]) by {
                assert(element_of(nzs, sv[x]));
                let j = choose|j: int| 0 <= j < nzs.len() && #[trigger] nzs[j] == sv[x];
                assert(element_of(input, nzs[j]));
            }
        }
        lemma_ideal_drawn(*ctx, sv, input);
        assert forall|x: int| 0 <= x < out@.len() implies in_ideal(*ctx, input, (#[trigger] out@[x])@) by {
            assert(element_of(input, sv[x]));
            let j = choose|j: int| 0 <= j < input.len() && #[trigger] input[j] == sv[x];
            assert(poly_wf(*ctx, input[j]@));
            lemma_monic_in_ideal(*ctx, input, out@[x]@, sv[x]@);
        }
        assert(all_wf(*ctx, sv)) by {
            assert forall|x: int| 0 <= x < sv.len() implies poly_wf(*ctx, (#[trigger] sv[x])@) by {
                assert(element_of(input, sv[x]));
                let j = choose|j: int| 0 <= j < input.len() && #[trigger] input[j] == sv[x];
            }
        }
        assert forall|x: int| 0 <= x < out@.len() implies in_ideal(*ctx, sv, (#[trigger] out@[x])@) by {
            lemma_ideal_member(*ctx, sv, x);
            lemma_monic_in_ideal(*ctx, sv, out@[x]@, sv[x]@);
        }
        assert forall|x: int| 0 <= x < sv.len() implies in_ideal(*ctx, out@, (#[trigger] sv[x])@) by {
            lemma_ideal_member(*ctx, out@, x);
            lemma_monic_back(*ctx, out@, out@[x]@, sv[x]@);
        }
        lemma_survivors_minimal(nzs);
        assert forall|a: int, b: int|
            0 <= a < out@.len() && 0 <= b < out@.len() && a != b && is_nonzero(out@[a]) && is_nonzero(out@[b]) implies !spec_divides(lm(#[trigger] out@[b]), lm(#[trigger] out@[a])) by {
            assert(monic_of(*ctx, out@[a]@, sv[a]@));
            assert(monic_of(*ctx, out@[b]@, sv[b]@));
            assert(lm(out@[a]) == lm(sv[a]));
            assert(lm(out@[b]) == lm(sv[b]));
        }
        assert(nzs == nonzero_polys(input));
        assert forall|x: int| 0 <= x < out@.len() implies lm(#[trigger] out@[x]) == lm(sv[x]) by {
            assert(monic_of(*ctx, out@[x]@, sv[x]@));
        }
        assert forall|i: int|
            #![trigger nzs[i]]
            0 <= i < nzs.len() && (forall|j: int| 0 <= j < nzs.len() && j != i ==> !spec_divides(lm(#[trigger] nzs[j]), lm(nzs[i])))
                implies exists|k: int| 0 <= k < out@.len() && lm(#[trigger] out@[k]) == lm(nzs[i]) by {
            lemma_survivors_keep(nzs, total as nat, i);
            let x = choose|x: int| 0 <= x < sv.len() && sv[x] == nzs[i];
            assert(lm(out@[x]) == lm(sv[x]));
        }
        lemma_survivors_unreduced(nzs, total as nat);
        assert forall|k: int|
            #![trigger out@[k]]
            0 <= k < out@.len() implies exists|i: int|
                0 <= i < nzs.len() && lm(out@[k]) == lm(#[trigger] nzs[i]) && forall|j: int| 0 <= j < nzs.len() && j != i ==> !spec_divides(lm(#[trigger] nzs[j]), lm(nzs[i])) by {
            assert(lm(out@[k]) == lm(sv[k]));
            let i = choose|i: int| 0 <= i < total && #[trigger] nzs[i] == sv[k] && forall|j: int| 0 <= j < nzs.len() && j != i ==> !spec_divides(lm(#[trigger] nzs[j]), lm(nzs[i]));
            assert(lm(out@[k]) == lm(nzs[i]));
        }
        if forall|a: int, b: int| 0 <= a < nzs.len() && 0 <= b < nzs.len() && a != b ==> lm(#[trigger] nzs[a]) != lm(#[trigger] nzs[b]) {
            assert forall|i: int| #![trigger nzs[i]] 0 <= i < nzs.len() implies exists|k: int| 0 <= k < out@.len() && spec_divides(lm(#[trigger] out@[k]), lm(nzs[i])) by {
                lemma_survivors_cover(nzs, i);
                let k = choose|k: int| 0 <= k < nzs.len() && sv.contains(#[trigger] nzs[k]) && spec_divides(lm(nzs[k]), lm(nzs[i]));
                let x = choose|x: int| 0 <= x < sv.len() && sv[x] == nzs[k];
                assert(lm(out@[x]) == lm(sv[x]));
            }
        }
    }
    *gb = out;
    Ok(())
}

/// Every element of `nonzero_polys(s)` is an element of `s`.
pub proof fn lemma_nonzero_drawn(s: Seq<Polynomial>)
    ensures
        drawn_from(nonzero_polys(s), s),
    decreases s.len(),
{
    if s.len() > 0 {
        let s0 = s.drop_last();
        lemma_nonzero_drawn(s0);
        let t = nonzero_polys(s0);
        let nz = nonzero_polys(s);
        assert forall|x: int| 0 <= x < nz.len() implies element_of(s, #[trigger] nz[x]) by {
            if x < t.len() {
                assert(nz[x] == t[x]);
                assert(element_of(s0, t[x]));
                let j = choose|j: int| 0 <= j < s0.len() && #[trigger] s0[j] == t[x];
                assert(s[j] == s0[j]);
            } else {
                assert(nz[x] == s.last());
                assert(s[s.len() - 1] == s.last());
            }
        }
    }
}

/// Every survivor is an element of `s`.
pub proof fn lemma_survivors_drawn(s: Seq<Polynomial>, k: nat)
    requires
        k <= s.len(),
    ensures
        drawn_from(survivors(s, k), s),
    decreases k,
{
    if k > 0 {
        lemma_survivors_drawn(s, (k - 1) as nat);
        let t = survivors(s, (k - 1) as nat);
        let sv = survivors(s, k);
        assert forall|x: int| 0 <= x < sv.len() implies element_of(s, #[trigger] sv[x]) by {
            if x < t.len() {
                assert(sv[x] == t[x]);
                assert(element_of(s, t[x]));
            } else {
                assert(sv[x] == s[k - 1]);
            }
        }
    }
}

/// The monic form of a member of an ideal is a member.
pub proof fn lemma_monic_in_ideal(ctx: RingCtx, b: Seq<Polynomial>, q: Seq<Term>, p: Seq<Term>)
    requires
        ctx.wf(),
        poly_wf(ctx, q),
        poly_wf(ctx, p),
        monic_of(ctx, q, p),
        in_ideal(ctx, b, p),
    ensures
        in_ideal(ctx, b, q),
{
    if p.len() == 0 {
        lemma_ideal_zero(ctx, b, q);
    } else {
        let m = ctx.field.modulus();
        let c = choose|c: u32|
            #![trigger (c * p[0].coeff)]
            ctx.field.is_elem(c) && (c * p[0].coeff) % m == 1 && forall|i: int|
                0 <= i < p.len() ==> (#[trigger] q[i]).mono@ == p[i].mono@ && q[i].coeff == (c * p[i].coeff) % m;
        assert forall|x: Seq<u32>| #![trigger coeff_sum(q, x)] coeff_sum(q, x) == (c * coeff_sum(p, x)) % m by {
            lemma_coeff_sum_wf(ctx, q, x);
            lemma_coeff_sum_wf(ctx, p, x);
            if exists|i: int| 0 <= i < p.len() && (#[trigger] p[i]).mono@ == x {
                let i = choose|i: int| 0 <= i < p.len() && (#[trigger] p[i]).mono@ == x;
                assert(q[i].mono@ == x);
            } else {
                assert forall|i: int| 0 <= i < q.len() implies (#[trigger] q[i]).mono@ != x by {
                    assert(q[i].mono@ == p[i].mono@);
                }
                assert(c * 0 == 0) by (nonlinear_arith);
                assert(0int % m == 0);
            }
        }
        lemma_ideal_scale(ctx, b, p, q, c as int);
    }
}

/// Every element of `nonzero_polys(s)` is a nonzero element of `s`, canonical when `s` is.
pub proof fn lemma_nonzero_polys(ctx: RingCtx, s: Seq<Polynomial>)
    ensures
        forall|x: int| 0 <= x < nonzero_polys(s).len() ==> is_nonzero(#[trigger] nonzero_polys(s)[x]),
        all_wf(ctx, s) ==> all_wf(ctx, nonzero_polys(s)),
        nonzero_polys(s).len() <= s.len(),
    decreases s.len(),
{
    if s.len() > 0 {
        lemma_nonzero_polys(ctx, s.drop_last());
        let t = nonzero_polys(s.drop_last());
        if is_nonzero(s.last()) {
            assert forall|x: int| 0 <= x < nonzero_polys(s).len() implies is_nonzero(#[trigger] nonzero_polys(s)[x]) by {
                if x < t.len() {
                    assert(nonzero_polys(s)[x] == t[x]);
                }
            }
            if all_wf(ctx, s) {
                assert(all_wf(ctx, s.drop_last())) by {
                    assert forall|x: int| 0 <= x < s.drop_last().len() implies poly_wf(ctx, (#[trigger] s.drop_last()[x])@) by {
                        assert(s.drop_last()[x] == s[x]);
                    }
                }
                assert forall|x: int| 0 <= x < nonzero_polys(s).len() implies poly_wf(ctx, (#[trigger] nonzero_polys(s)[x])@) by {
                    if x < t.len() {
                        assert(nonzero_polys(s)[x] == t[x]);
                    } else {
                        assert(s.last() == s[s.len() - 1]);
                    }
                }
            }
        } else {
            if all_wf(ctx, s) {
                assert(all_wf(ctx, s.drop_last())) by {
                    assert forall|x: int| 0 <= x < s.drop_last().len() implies poly_wf(ctx, (#[trigger] s.drop_last()[x])@) by {
                        assert(s.drop_last()[x] == s[x]);
                    }
                }
            }
        }
    }
}

/// A polynomial lies in every ideal that holds its monic form.
pub proof fn lemma_monic_back(ctx: RingCtx, b: Seq<Polynomial>, q: Seq<Term>, p: Seq<Term>)
    requires
        ctx.wf(),
        poly_wf(ctx, q),
        poly_wf(ctx, p),
        monic_of(ctx, q, p),
        in_ideal(ctx, b, q),
    ensures
        in_ideal(ctx, b, p),
{
    if p.len() == 0 {
        lemma_ideal_zero(ctx, b, p);
    } else {
        let m = ctx.field.modulus();
        let c = choose|c: u32|
            #![trigger (c * p[0].coeff)]
            ctx.field.is_elem(c) && (c * p[0].coeff) % m == 1 && forall|i: int|
                0 <= i < p.len() ==> (#[trigger] q[i]).mono@ == p[i].mono@ && q[i].coeff == (c * p[i].coeff) % m;
        let lc = p[0].coeff;
        assert forall|x: Seq<u32>| #![trigger coeff_sum(p, x)] coeff_sum(p, x) == (lc * coeff_sum(q, x)) % m by {
            lemma_coeff_sum_wf(ctx, q, x);
            lemma_coeff_sum_wf(ctx, p, x);
            if exists|i: int| 0 <= i < p.len() && (#[trigger] p[i]).mono@ == x {
                let i = choose|i: int| 0 <= i < p.len() && (#[trigger] p[i]).mono@ == x;
                assert(q[i].mono@ == x);
                let pi = p[i].coeff as int;
                vstd::arithmetic::div_mod::lemma_mul_mod_noop_right(lc as int, c * pi, m as int);
                assert(lc * (c * pi) == (lc * c) * pi) by (nonlinear_arith);
                vstd::arithmetic::div_mod::lemma_mul_mod_noop_left(lc * c, pi, m as int);
                assert(lc * c == c * lc) by (nonlinear_arith);
                assert(((lc * c) % (m as int)) == 1);
                assert(1 * pi == pi) by (nonlinear_arith);
                vstd::arithmetic::div_mod::lemma_small_mod(pi as nat, m as nat);
            } else {
                assert forall|i: int| 0 <= i < q.len() implies (#[trigger] q[i]).mono@ != x by {
                    assert(q[i].mono@ == p[i].mono@);
                }
                assert(lc * 0 == 0) by (nonlinear_arith);
                assert(0int % m == 0);
            }
        }
        lemma_ideal_scale(ctx, b, q, p, lc as int);
    }
}

/// Positions in `s` of the survivors among its first `k` elements.
pub open spec fn survivor_positions(s: Seq<Polynomial>, k: nat) -> Seq<int>
    decreases k,
{
    if k == 0 {
        Seq::empty()
    } else if !redundant(s, k - 1) {
        survivor_positions(s, (k - 1) as nat).push(k - 1)
    } else {
        survivor_positions(s, (k - 1) as nat)
    }
}

proof fn lemma_survivor_positions(s: Seq<Polynomial>, k: nat)
    requires
        k <= s.len(),
    ensures
        survivor_positions(s, k).len() == survivors(s, k).len(),
        forall|x: int| 0 <= x < survivors(s, k).len() ==> {
            let p = #[trigger] survivor_positions(s, k)[x];
            &&& 0 <= p < k
            &&& survivors(s, k)[x] == s[p]
            &&& !redundant(s, p)
        },
        forall|x: int, y: int| 0 <= x < y < survivors(s, k).len() ==> #[trigger] survivor_positions(s, k)[x] < #[trigger] survivor_positions(s, k)[y],
    decreases k,
{
    if k > 0 {
        lemma_survivor_positions(s, (k - 1) as nat);
    }
}

/// No survivor's leading monomial divides another's: the survivors form a minimal set.
pub proof fn lemma_survivors_minimal(s: Seq<Polynomial>)
    ensures
        is_minimal(survivors(s, s.len())),
{
    let sv = survivors(s, s.len());
    let pos = survivor_positions(s, s.len());
    lemma_survivor_positions(s, s.len());
    assert forall|i: int, j: int|
        0 <= i < sv.len() && 0 <= j < sv.len() && i != j && is_nonzero(sv[i]) && is_nonzero(sv[j]) implies !spec_divides(lm(#[trigger] sv[j]), lm(#[trigger] sv[i])) by {
        let pi = pos[i];
        let pj = pos[j];
        if i < j {
            assert(pos[i] < pos[j]);
        } else {
            assert(pos[j] < pos[i]);
        }
        assert(!redundant(s, pi));
        assert(sv[j] == s[pj]);
        assert(sv[i] == s[pi]);
    }
}

/// An element whose leading monomial no other element's leading monomial divides survives
/// minimization.
pub proof fn lemma_survivors_keep(s: Seq<Polynomial>, k: nat, i: int)
    requires
        k <= s.len(),
        0 <= i < k,
        forall|j: int| 0 <= j < s.len() && j != i ==> !spec_divides(lm(#[trigger] s[j]), lm(s[i])),
    ensures
        survivors(s, k).contains(s[i]),
    decreases k,
{
    let prev = survivors(s, (k - 1) as nat);
    if i == k - 1 {
        assert(!redundant(s, i));
        assert(survivors(s, k) == prev.push(s[i]));
        assert(survivors(s, k)[prev.len() as int] == s[i]);
    } else {
        lemma_survivors_keep(s, (k - 1) as nat, i);
        let w = choose|w: int| 0 <= w < prev.len() && prev[w] == s[i];
        if !redundant(s, k - 1) {
            assert(survivors(s, k)[w] == s[i]);
        }
    }
}

/// Every survivor of minimization is an element whose leading monomial no other element's
/// leading monomial divides.
pub proof fn lemma_survivors_unreduced(s: Seq<Polynomial>, k: nat)
    requires
        k <= s.len(),
    ensures
        forall|x: int| #![trigger survivors(s, k)[x]] 0 <= x < survivors(s, k).len() ==> exists|i: int|
            0 <= i < k && #[trigger] s[i] == survivors(s, k)[x] && forall|j: int| 0 <= j < s.len() && j != i ==> !spec_divides(lm(#[trigger] s[j]), lm(s[i])),
    decreases k,
{
    if k > 0 {
        lemma_survivors_unreduced(s, (k - 1) as nat);
        let prev = survivors(s, (k - 1) as nat);
        let sv = survivors(s, k);
        assert forall|x: int| #![trigger sv[x]] 0 <= x < sv.len() implies exists|i: int|
            0 <= i < k && #[trigger] s[i] == sv[x] && forall|j: int| 0 <= j < s.len() && j != i ==> !spec_divides(lm(#[trigger] s[j]), lm(s[i])) by {
            if x < prev.len() {
                assert(sv[x] == prev[x]);
                let i = choose|i: int| 0 <= i < k - 1 && #[trigger] s[i] == prev[x] && forall|j: int| 0 <= j < s.len() && j != i ==> !spec_divides(lm(#[trigger] s[j]), lm(s[i]));
                assert(s[i] == sv[x]);
            } else {
                assert(!redundant(s, k - 1));
                assert(sv[x] == s[k - 1]);
                assert forall|j: int| 0 <= j < s.len() && j != k - 1 implies !spec_divides(lm(#[trigger] s[j]), lm(s[k - 1])) by {
                    if spec_divides(lm(s[j]), lm(s[k - 1])) {
                        assert(redundant(s, k - 1));
                    }
                }
            }
        }
    }
}

/// A total degree is never negative.
proof fn lemma_exp_sum_nonneg(a: Seq<u32>)
    ensures
        exp_sum(a) >= 0,
    decreases a.len(),
{
    if a.len() > 0 {
        lemma_exp_sum_nonneg(a.drop_last());
    }
}

/// Divisibility of monomials is transitive.
proof fn lemma_divides_trans(a: Seq<u32>, b: Seq<u32>, c: Seq<u32>)
    requires
        spec_divides(a, b),
        spec_divides(b, c),
    ensures
        spec_divides(a, c),
{
    assert forall|i: int| 0 <= i < a.len() implies a[i] <= c[i] by {
        assert(a[i] <= b[i] && b[i] <= c[i]);
    }
}

/// When the leading monomials are distinct, every leading monomial is divisible by the
/// leading monomial of a survivor: minimization loses no leading monomial of the ideal.
pub proof fn lemma_survivors_cover(s: Seq<Polynomial>, i: int)
    requires
        0 <= i < s.len(),
        forall|a: int, b: int| 0 <= a < s.len() && 0 <= b < s.len() && a != b ==> lm(#[trigger] s[a]) != lm(#[trigger] s[b]),
    ensures
        exists|k: int| 0 <= k < s.len() && survivors(s, s.len()).contains(#[trigger] s[k]) && spec_divides(lm(s[k]), lm(s[i])),
    decreases exp_sum(lm(s[i])),
{
    if forall|j: int| 0 <= j < s.len() && j != i ==> !spec_divides(lm(#[trigger] s[j]), lm(s[i])) {
        lemma_survivors_keep(s, s.len(), i);
        assert(spec_divides(lm(s[i]), lm(s[i])));
    } else {
        let j = choose|j: int| 0 <= j < s.len() && j != i && spec_divides(lm(#[trigger] s[j]), lm(s[i]));
        crate::order::lemma_exp_sum_le(lm(s[j]), lm(s[i]));
        assert(lm(s[j]) != lm(s[i]));
        crate::order::lemma_exp_sum_le(lm(s[j]), lm(s[j]));
        lemma_exp_sum_nonneg(lm(s[j]));
        assert(exp_sum(lm(s[j])) < exp_sum(lm(s[i])));
        lemma_survivors_cover(s, j);
        let k = choose|k: int| 0 <= k < s.len() && survivors(s, s.len()).contains(#[trigger] s[k]) && spec_divides(lm(s[k]), lm(s[j]));
        lemma_divides_trans(lm(s[k]), lm(s[j]), lm(s[i]));
    }
}

} // verus!
