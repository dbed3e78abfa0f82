//! The division algorithm as a sequence of steps: which remainders it reaches and when its
//! multiplications fit.

use vstd::prelude::*;

use crate::f4::symbolic::reducers::top_reducer;
use crate::f4::symbolic::types::ProductSource;
use crate::monomial::mul_fits;
use crate::polynomial::{added, coeff_sum, coeff_sum_shifted, lemma_canonical_unique, lemma_term_pairs_eq, poly_wf, term_pairs, Polynomial, Term};
use crate::ring::RingCtx;
use crate::spoly::lemma_inverse_unique;

verus! {

/// Every term of `g` times `q` has no exponent overflow.
pub open spec fn multiple_fits_by(g: Seq<Term>, q: Seq<u32>) -> bool {
    forall|k: int| 0 <= k < g.len() ==> mul_fits((#[trigger] g[k]).mono@, q)
}

/// The leading term of `rest` has a reducer among `reducers`, and its multiple fits.
pub open spec fn lead_step_fits(reducers: Seq<Polynomial>, rest: Seq<Term>) -> bool {
    match top_reducer(reducers, rest[0].mono@) {
        Some((ProductSource::Basis(i), q)) => multiple_fits_by(reducers[i as int]@, q),
        _ => true,
    }
}

/// Cancelling the leading term `c * m` of `rest` by `g` times `q`, with `inv` an inverse of
/// the leading coefficient of `g`, leaves `rest1`.
pub open spec fn cancelled(ctx: RingCtx, rest: Seq<Term>, g: Seq<Term>, q: Seq<u32>, inv: u32, rest1: Seq<Term>) -> bool {
    let p = ctx.field.modulus();
    let c = rest[0].coeff;
    forall|x: Seq<u32>|
        #![trigger coeff_sum(rest1, x)]
        coeff_sum(rest1, x) == (coeff_sum(rest, x) - (((c * inv) % p) * coeff_sum_shifted(g, q, x)) % p) % p
}

/// One step of the division of a nonzero `rest` by `reducers`, with `out` the part already
/// moved to the remainder: the leading term is cancelled by the first reducer whose leading
/// monomial divides it, when that multiple fits; when no reducer divides it, it moves to
/// the remainder.
pub open spec fn div_step(
    ctx: RingCtx,
    reducers: Seq<Polynomial>,
    rest: Seq<Term>,
    out: Seq<Term>,
    rest1: Seq<Term>,
    out1: Seq<Term>,
) -> bool {
    let p = ctx.field.modulus();
    &&& rest.len() > 0
    &&& poly_wf(ctx, rest1)
    &&& poly_wf(ctx, out1)
    &&& match top_reducer(reducers, rest[0].mono@) {
        None => term_pairs(rest1) == term_pairs(rest.subrange(1, rest.len() as int)) && added(ctx, out, out1, rest[0].coeff, rest[0].mono@),
        Some((ProductSource::Basis(i), q)) => {
            let g = reducers[i as int]@;
            &&& multiple_fits_by(g, q)
            &&& term_pairs(out1) == term_pairs(out)
            &&& exists|inv: u32|
                #![trigger (g[0].coeff * inv)]
                ctx.field.is_elem(inv) && (g[0].coeff * inv) % p == 1 && cancelled(ctx, rest, g, q, inv, rest1)
        },
        Some(_) => false,
    }
}

/// Step `j` of a run: from `(rests[j], outs[j])` to `(rests[j + 1], outs[j + 1])`.
pub open spec fn step_at(ctx: RingCtx, reducers: Seq<Polynomial>, rests: Seq<Seq<Term>>, outs: Seq<Seq<Term>>, j: int) -> bool {
    div_step(ctx, reducers, rests[j], outs[j], rests[j + 1], outs[j + 1])
}

/// The first steps of the division of `f`: it starts from `f` with nothing moved out, and
/// each state follows from the previous one by a step.
pub open spec fn div_run(ctx: RingCtx, reducers: Seq<Polynomial>, f: Seq<Term>, rests: Seq<Seq<Term>>, outs: Seq<Seq<Term>>) -> bool {
    &&& rests.len() >= 1
    &&& outs.len() == rests.len()
    &&& term_pairs(rests[0]) == term_pairs(f)
    &&& outs[0].len() == 0
    &&& forall|j: int| 0 <= j < rests.len() - 1 ==> #[trigger] step_at(ctx, reducers, rests, outs, j)
}

/// `q` is the remainder of a complete division of `f` by `reducers`, every multiple of which
/// fits.
pub open spec fn is_remainder(ctx: RingCtx, reducers: Seq<Polynomial>, f: Seq<Term>, q: Seq<Term>) -> bool {
    exists|rests: Seq<Seq<Term>>, outs: Seq<Seq<Term>>|
        #[trigger] div_run(ctx, reducers, f, rests, outs) && rests.last().len() == 0 && term_pairs(outs.last()) == term_pairs(q)
}

/// The division of `f` by `reducers` runs to the end with every multiple fitting.
pub open spec fn division_fits(ctx: RingCtx, reducers: Seq<Polynomial>, f: Seq<Term>) -> bool {
    exists|rests: Seq<Seq<Term>>, outs: Seq<Seq<Term>>| #[trigger] div_run(ctx, reducers, f, rests, outs) && rests.last().len() == 0
}

/// A step is determined by its start: equal starts give equal results.
pub proof fn lemma_step_unique(
    ctx: RingCtx,
    reducers: Seq<Polynomial>,
    r: Seq<Term>,
    o: Seq<Term>,
    r1: Seq<Term>,
    o1: Seq<Term>,
    s: Seq<Term>,
    u: Seq<Term>,
    s1: Seq<Term>,
    u1: Seq<Term>,
)
    requires
        ctx.wf(),
        term_pairs(r) == term_pairs(s),
        term_pairs(o) == term_pairs(u),
        div_step(ctx, reducers, r, o, r1, o1),
        div_step(ctx, reducers, s, u, s1, u1),
    ensures
        term_pairs(r1) == term_pairs(s1),
        term_pairs(o1) == term_pairs(u1),
{
    let p = ctx.field.modulus();
    lemma_term_pairs_eq(ctx, r, s);
    lemma_term_pairs_eq(ctx, o, u);
    assert(r[0].mono@ == s[0].mono@ && r[0].coeff == s[0].coeff);
    match top_reducer(reducers, r[0].mono@) {
        None => {
            assert(term_pairs(r.subrange(1, r.len() as int)) =~= term_pairs(s.subrange(1, s.len() as int))) by {
                assert forall|k: int| 0 <= k < r.len() - 1 implies term_pairs(r.subrange(1, r.len() as int))[k] == term_pairs(s.subrange(1, s.len() as int))[k] by {
                    assert(r.subrange(1, r.len() as int)[k] == r[k + 1]);
                    assert(s.subrange(1, s.len() as int)[k] == s[k + 1]);
                }
            }
            assert forall|x: Seq<u32>| #[trigger] coeff_sum(o1, x) == coeff_sum(u1, x) by {
                assert(coeff_sum(o, x) == coeff_sum(u, x));
            }
            lemma_canonical_unique(ctx, o1, u1);
        },
        Some((ProductSource::Basis(i), q)) => {
            let g = reducers[i as int]@;
            let lc = g[0].coeff;
            let c = r[0].coeff;
            let inv1 = choose|inv: u32| #![trigger (lc * inv)] ctx.field.is_elem(inv) && (lc * inv) % p == 1 && cancelled(ctx, r, g, q, inv, r1);
            let inv2 = choose|inv: u32| #![trigger (lc * inv)] ctx.field.is_elem(inv) && (lc * inv) % p == 1 && cancelled(ctx, s, g, q, inv, s1);
            assert(inv1 * lc == lc * inv1) by (nonlinear_arith);
            assert(inv2 * lc == lc * inv2) by (nonlinear_arith);
            lemma_inverse_unique(p, inv1 as int, inv2 as int, lc as int, c as int);
            assert(c * inv1 == inv1 * c) by (nonlinear_arith);
            assert(c * inv2 == inv2 * c) by (nonlinear_arith);
            assert forall|x: Seq<u32>| #[trigger] coeff_sum(r1, x) == coeff_sum(s1, x) by {
                assert(coeff_sum(r, x) == coeff_sum(s, x));
            }
            lemma_canonical_unique(ctx, r1, s1);
        },
        Some(_) => {},
    }
}

/// Two runs of the division of `f` agree on every state both reach.
pub proof fn lemma_runs_agree(
    ctx: RingCtx,
    reducers: Seq<Polynomial>,
    f: Seq<Term>,
    rs1: Seq<Seq<Term>>,
    os1: Seq<Seq<Term>>,
    rs2: Seq<Seq<Term>>,
    os2: Seq<Seq<Term>>,
    j: int,
)
    requires
        ctx.wf(),
        div_run(ctx, reducers, f, rs1, os1),
        div_run(ctx, reducers, f, rs2, os2),
        0 <= j < rs1.len(),
        j < rs2.len(),
    ensures
        term_pairs(rs1[j]) == term_pairs(rs2[j]),
        term_pairs(os1[j]) == term_pairs(os2[j]),
    decreases j,
{
    if j == 0 {
        assert(term_pairs(os1[0]) =~= term_pairs(os2[0]));
    } else {
        lemma_runs_agree(ctx, reducers, f, rs1, os1, rs2, os2, j - 1);
        assert(step_at(ctx, reducers, rs1, os1, j - 1));
        assert(step_at(ctx, reducers, rs2, os2, j - 1));
        lemma_step_unique(ctx, reducers, rs1[j - 1], os1[j - 1], rs1[j], os1[j], rs2[j - 1], os2[j - 1], rs2[j], os2[j]);
    }
}

/// A run that has not finished is a prefix of every complete run: the complete run goes on
/// from the same state.
pub proof fn lemma_run_prefix(
    ctx: RingCtx,
    reducers: Seq<Polynomial>,
    f: Seq<Term>,
    rs1: Seq<Seq<Term>>,
    os1: Seq<Seq<Term>>,
    rs2: Seq<Seq<Term>>,
    os2: Seq<Seq<Term>>,
)
    requires
        ctx.wf(),
        div_run(ctx, reducers, f, rs1, os1),
        div_run(ctx, reducers, f, rs2, os2),
        rs1.last().len() > 0,
        rs2.last().len() == 0,
    ensures
        rs1.len() < rs2.len(),
        term_pairs(rs1.last()) == term_pairs(rs2[rs1.len() - 1]),
{
    if rs1.len() >= rs2.len() {
        let j = rs2.len() - 1;
        lemma_runs_agree(ctx, reducers, f, rs1, os1, rs2, os2, j);
        if j < rs1.len() - 1 {
            assert(step_at(ctx, reducers, rs1, os1, j));
        }
        assert(term_pairs(rs1[j]).len() == rs1[j].len());
        assert(term_pairs(rs2[j]).len() == rs2[j].len());
    }
    lemma_runs_agree(ctx, reducers, f, rs1, os1, rs2, os2, rs1.len() - 1);
}

/// The remainder is unique.
pub proof fn lemma_remainder_unique(ctx: RingCtx, reducers: Seq<Polynomial>, f: Seq<Term>, q1: Seq<Term>, q2: Seq<Term>)
    requires
        ctx.wf(),
        is_remainder(ctx, reducers, f, q1),
        is_remainder(ctx, reducers, f, q2),
    ensures
        term_pairs(q1) == term_pairs(q2),
{
    let (rs1, os1) = choose|rests: Seq<Seq<Term>>, outs: Seq<Seq<Term>>|
        #[trigger] div_run(ctx, reducers, f, rests, outs) && rests.last().len() == 0 && term_pairs(outs.last()) == term_pairs(q1);
    let (rs2, os2) = choose|rests: Seq<Seq<Term>>, outs: Seq<Seq<Term>>|
        #[trigger] div_run(ctx, reducers, f, rests, outs) && rests.last().len() == 0 && term_pairs(outs.last()) == term_pairs(q2);
    if rs1.len() != rs2.len() {
        let k = if rs1.len() < rs2.len() { rs1.len() - 1 } else { rs2.len() - 1 };
        lemma_runs_agree(ctx, reducers, f, rs1, os1, rs2, os2, k);
        if rs1.len() < rs2.len() {
            assert(step_at(ctx, reducers, rs2, os2, k));
        } else {
            assert(step_at(ctx, reducers, rs1, os1, k));
        }
        assert(term_pairs(rs1[k]).len() == rs1[k].len());
        assert(term_pairs(rs2[k]).len() == rs2[k].len());
    }
    lemma_runs_agree(ctx, reducers, f, rs1, os1, rs2, os2, rs1.len() - 1);
}

/// A run stopped at a leading term whose multiple does not fit cannot be completed.
pub proof fn lemma_run_stuck(ctx: RingCtx, reducers: Seq<Polynomial>, f: Seq<Term>, rs: Seq<Seq<Term>>, os: Seq<Seq<Term>>)
    requires
        ctx.wf(),
        div_run(ctx, reducers, f, rs, os),
        rs.last().len() > 0,
        !lead_step_fits(reducers, rs.last()),
    ensures
        !division_fits(ctx, reducers, f),
{
    if division_fits(ctx, reducers, f) {
        let (rs2, os2) = choose|rests: Seq<Seq<Term>>, outs: Seq<Seq<Term>>| #[trigger] div_run(ctx, reducers, f, rests, outs) && rests.last().len() == 0;
        lemma_run_prefix(ctx, reducers, f, rs, os, rs2, os2);
        let j = rs.len() - 1;
        assert(step_at(ctx, reducers, rs2, os2, j));
        let a = rs.last();
        let b = rs2[j];
        lemma_term_pairs_eq(ctx, a, b);
        assert(a[0].mono@ == b[0].mono@);
    }
}


/// A run followed by one more step is a run.
pub proof fn lemma_run_extend(
    ctx: RingCtx,
    reducers: Seq<Polynomial>,
    f: Seq<Term>,
    rests: Seq<Seq<Term>>,
    outs: Seq<Seq<Term>>,
    r1: Seq<Term>,
    o1: Seq<Term>,
)
    requires
        div_run(ctx, reducers, f, rests, outs),
        div_step(ctx, reducers, rests.last(), outs.last(), r1, o1),
    ensures
        div_run(ctx, reducers, f, rests.push(r1), outs.push(o1)),
{
    let rs = rests.push(r1);
    let os = outs.push(o1);
    assert forall|j: int| 0 <= j < rs.len() - 1 implies #[trigger] step_at(ctx, reducers, rs, os, j) by {
        if j < rests.len() - 1 {
            assert(step_at(ctx, reducers, rests, outs, j));
            assert(rs[j] == rests[j] && rs[j + 1] == rests[j + 1] && os[j] == outs[j] && os[j + 1] == outs[j + 1]);
        } else {
            assert(rs[j] == rests.last() && os[j] == outs.last() && rs[j + 1] == r1 && os[j + 1] == o1);
        }
    }
    assert(rs[0] == rests[0] && os[0] == outs[0]);
}

/// `c / lc`, computed as `c` times an inverse of `lc`, gives back `c` when multiplied by `lc`.
pub proof fn lemma_factor_cancels(p: int, c: int, inv: int, lc: int)
    requires
        p > 0,
        0 <= c < p,
        (lc * inv) % p == 1,
    ensures
        (((c * inv) % p) * lc) % p == c,
{
    vstd::arithmetic::div_mod::lemma_mul_mod_noop_left(c * inv, lc, p);
    assert((c * inv) * lc == c * (lc * inv)) by (nonlinear_arith);
    vstd::arithmetic::div_mod::lemma_mul_mod_noop_right(c, lc * inv, p);
    vstd::arithmetic::div_mod::lemma_small_mod(c as nat, p as nat);
}


/// Two lists of reducers hold the same polynomials, position by position.
pub open spec fn same_reducers(r1: Seq<Polynomial>, r2: Seq<Polynomial>) -> bool {
    &&& r1.len() == r2.len()
    &&& forall|k: int| 0 <= k < r1.len() ==> term_pairs((#[trigger] r1[k])@) == term_pairs(r2[k]@)
}

proof fn lemma_first_reducer_same(r1: Seq<Polynomial>, r2: Seq<Polynomial>, m: Seq<u32>, k: int)
    requires
        same_reducers(r1, r2),
    ensures
        crate::f4::symbolic::reducers::first_reducer(r1, m, k) == crate::f4::symbolic::reducers::first_reducer(r2, m, k),
    decreases r1.len() - k,
{
    if 0 <= k < r1.len() {
        assert(term_pairs(r1[k]@) == term_pairs(r2[k]@));
        assert(term_pairs(r1[k]@).len() == r1[k]@.len());
        assert(term_pairs(r2[k]@).len() == r2[k]@.len());
        if r1[k]@.len() > 0 {
            assert(term_pairs(r1[k]@)[0] == term_pairs(r2[k]@)[0]);
        }
        lemma_first_reducer_same(r1, r2, m, k + 1);
    }
}

/// Shifted coefficient sums depend only on the terms.
pub proof fn lemma_shifted_same(a: Seq<Term>, b: Seq<Term>, t: Seq<u32>, x: Seq<u32>)
    requires
        term_pairs(a) == term_pairs(b),
    ensures
        coeff_sum_shifted(a, t, x) == coeff_sum_shifted(b, t, x),
    decreases a.len(),
{
    assert(term_pairs(a).len() == a.len() && term_pairs(b).len() == b.len());
    if a.len() > 0 {
        assert(term_pairs(a.drop_last()) =~= term_pairs(b.drop_last())) by {
            assert forall|k: int| 0 <= k < a.len() - 1 implies term_pairs(a.drop_last())[k] == term_pairs(b.drop_last())[k] by {
                assert(term_pairs(a)[k] == term_pairs(b)[k]);
            }
        }
        lemma_shifted_same(a.drop_last(), b.drop_last(), t, x);
        assert(term_pairs(a)[a.len() - 1] == term_pairs(b)[b.len() - 1]);
    }
}

/// A step by some reducers is a step by copies of them.
pub proof fn lemma_step_same(
    ctx: RingCtx,
    r1: Seq<Polynomial>,
    r2: Seq<Polynomial>,
    rest: Seq<Term>,
    out: Seq<Term>,
    rest1: Seq<Term>,
    out1: Seq<Term>,
)
    requires
        same_reducers(r1, r2),
        r1.len() <= usize::MAX,
        div_step(ctx, r1, rest, out, rest1, out1),
    ensures
        div_step(ctx, r2, rest, out, rest1, out1),
{
    let m = rest[0].mono@;
    let p = ctx.field.modulus();
    lemma_first_reducer_same(r1, r2, m, 0);
    let fi = crate::f4::symbolic::reducers::first_reducer(r1, m, 0);
    if fi >= 0 {
        crate::f4::symbolic::reducers::lemma_first_reducer(r1, m, 0);
        assert(term_pairs(r1[fi]@) == term_pairs(r2[fi]@));
        assert(term_pairs(r1[fi]@).len() == r1[fi]@.len());
        assert(term_pairs(r1[fi]@)[0] == term_pairs(r2[fi]@)[0]);
        assert(top_reducer(r1, m) == top_reducer(r2, m));
        match top_reducer(r1, m) {
            Some((ProductSource::Basis(i), q)) => {
                let g1 = r1[i as int]@;
                let g2 = r2[i as int]@;
                assert(i as int == fi);
                lemma_term_pairs_eq(ctx, g1, g2);
                assert(multiple_fits_by(g2, q)) by {
                    assert forall|k: int| 0 <= k < g2.len() implies mul_fits((#[trigger] g2[k]).mono@, q) by {
                        assert(mul_fits(g1[k].mono@, q));
                    }
                }
                let inv = choose|inv: u32| #![trigger (g1[0].coeff * inv)] ctx.field.is_elem(inv) && (g1[0].coeff * inv) % p == 1 && cancelled(ctx, rest, g1, q, inv, rest1);
                assert forall|x: Seq<u32>| #[trigger] coeff_sum(rest1, x) == (coeff_sum(rest, x) - (((rest[0].coeff * inv) % p) * coeff_sum_shifted(g2, q, x)) % p) % p by {
                    lemma_shifted_same(g1, g2, q, x);
                }
                assert(ctx.field.is_elem(inv) && (g2[0].coeff * inv) % p == 1 && cancelled(ctx, rest, g2, q, inv, rest1));
            },
            _ => {},
        }
    } else {
        assert(top_reducer(r1, m) == top_reducer(r2, m));
    }
}

/// Dividing by copies of the reducers reaches the same remainders.
pub proof fn lemma_division_same(ctx: RingCtx, r1: Seq<Polynomial>, r2: Seq<Polynomial>, f: Seq<Term>)
    requires
        same_reducers(r1, r2),
        r1.len() <= usize::MAX,
    ensures
        division_fits(ctx, r1, f) ==> division_fits(ctx, r2, f),
        forall|q: Seq<Term>| is_remainder(ctx, r1, f, q) ==> is_remainder(ctx, r2, f, q),
{
    assert forall|rs: Seq<Seq<Term>>, os: Seq<Seq<Term>>| div_run(ctx, r1, f, rs, os) implies #[trigger] div_run(ctx, r2, f, rs, os) by {
        assert forall|j: int| 0 <= j < rs.len() - 1 implies #[trigger] step_at(ctx, r2, rs, os, j) by {
            assert(step_at(ctx, r1, rs, os, j));
            lemma_step_same(ctx, r1, r2, rs[j], os[j], rs[j + 1], os[j + 1]);
        }
    }
    if division_fits(ctx, r1, f) {
        let (rs, os) = choose|rests: Seq<Seq<Term>>, outs: Seq<Seq<Term>>| #[trigger] div_run(ctx, r1, f, rests, outs) && rests.last().len() == 0;
        assert(div_run(ctx, r2, f, rs, os));
    }
    assert forall|q: Seq<Term>| is_remainder(ctx, r1, f, q) implies is_remainder(ctx, r2, f, q) by {
        let (rs, os) = choose|rests: Seq<Seq<Term>>, outs: Seq<Seq<Term>>|
            #[trigger] div_run(ctx, r1, f, rests, outs) && rests.last().len() == 0 && term_pairs(outs.last()) == term_pairs(q);
        assert(div_run(ctx, r2, f, rs, os));
    }
}

/// A polynomial with no terms divides to itself at once.
pub proof fn lemma_division_empty(ctx: RingCtx, reducers: Seq<Polynomial>, f: Seq<Term>, zero: Seq<Term>)
    requires
        f.len() == 0,
        zero.len() == 0,
    ensures
        division_fits(ctx, reducers, f),
        is_remainder(ctx, reducers, f, zero),
{
    let rs = seq![f];
    let os = seq![zero];
    assert(term_pairs(rs[0]) =~= term_pairs(f));
    assert(div_run(ctx, reducers, f, rs, os));
    assert(term_pairs(os.last()) =~= term_pairs(zero));
}


/// Dividing polynomials with the same terms reaches the same remainders.
pub proof fn lemma_division_start(ctx: RingCtx, reducers: Seq<Polynomial>, f1: Seq<Term>, f2: Seq<Term>)
    requires
        term_pairs(f1) == term_pairs(f2),
    ensures
        division_fits(ctx, reducers, f1) == division_fits(ctx, reducers, f2),
        forall|q: Seq<Term>| is_remainder(ctx, reducers, f1, q) == is_remainder(ctx, reducers, f2, q),
{
    assert forall|rs: Seq<Seq<Term>>, os: Seq<Seq<Term>>| #[trigger] div_run(ctx, reducers, f1, rs, os) == div_run(ctx, reducers, f2, rs, os) by {}
    if division_fits(ctx, reducers, f1) {
        let (rs, os) = choose|rests: Seq<Seq<Term>>, outs: Seq<Seq<Term>>| #[trigger] div_run(ctx, reducers, f1, rests, outs) && rests.last().len() == 0;
        assert(div_run(ctx, reducers, f2, rs, os));
    }
    if division_fits(ctx, reducers, f2) {
        let (rs, os) = choose|rests: Seq<Seq<Term>>, outs: Seq<Seq<Term>>| #[trigger] div_run(ctx, reducers, f2, rests, outs) && rests.last().len() == 0;
        assert(div_run(ctx, reducers, f1, rs, os));
    }
    assert forall|q: Seq<Term>| is_remainder(ctx, reducers, f1, q) == is_remainder(ctx, reducers, f2, q) by {
        if is_remainder(ctx, reducers, f1, q) {
            let (rs, os) = choose|rests: Seq<Seq<Term>>, outs: Seq<Seq<Term>>|
                #[trigger] div_run(ctx, reducers, f1, rests, outs) && rests.last().len() == 0 && term_pairs(outs.last()) == term_pairs(q);
            assert(div_run(ctx, reducers, f2, rs, os));
        }
        if is_remainder(ctx, reducers, f2, q) {
            let (rs, os) = choose|rests: Seq<Seq<Term>>, outs: Seq<Seq<Term>>|
                #[trigger] div_run(ctx, reducers, f2, rests, outs) && rests.last().len() == 0 && term_pairs(outs.last()) == term_pairs(q);
            assert(div_run(ctx, reducers, f1, rs, os));
        }
    }
}

} // verus!
