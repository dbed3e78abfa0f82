//! The three outcomes of the full interreduction, and why no input has two of them.

use vstd::prelude::*;

use crate::division::same_reducers;
use crate::f4::types::is_nonzero;
use crate::polynomial::{term_pairs, Polynomial, Term};
use crate::post::cleanup::{
    cleanup_gives_up, lemma_cleanup_outcome_copy, cleanup_overflows, cleanup_reaches, cleanup_run,
    lemma_cleanup_outcome_unique, lemma_same_trans, lemma_tail_start, run_step,
};
use crate::post::minimize::{lemma_nonzero_polys, monic_of, nonzero_polys, survivors};
use crate::post::reduction::{interreduced_of, later_reversed, lemma_rev_agree, lemma_survivors_len, minimized_of, reverse_results};
use crate::post::validate::tails_reduced;
use crate::ring::RingCtx;

verus! {

/// The interreduction of `input` succeeds: after minimizing and the reverse pass, the basis
/// has no violation or the cleanup reaches one without.
pub open spec fn reduce_succeeds(ctx: RingCtx, input: Seq<Polynomial>) -> bool {
    exists|m: Seq<Polynomial>, out: Seq<Polynomial>|
        #[trigger] interreduced_of(ctx, input, m, out) && (tails_reduced(nonzero_polys(out))
            || exists|h: Seq<Seq<Polynomial>>| #[trigger] cleanup_reaches(ctx, nonzero_polys(out), h))
}

/// The interreduction of `input` gives up: the cleanup after the reverse pass uses every
/// allowed pass and violations remain.
pub open spec fn reduce_gives_up(ctx: RingCtx, input: Seq<Polynomial>) -> bool {
    exists|m: Seq<Polynomial>, out: Seq<Polynomial>|
        #[trigger] interreduced_of(ctx, input, m, out) && exists|h: Seq<Seq<Polynomial>>| #[trigger] cleanup_gives_up(ctx, nonzero_polys(out), h)
}

/// The interreduction of `input` overflows: the reverse pass has no result, or the cleanup
/// after it reaches a pass that does not fit.
pub open spec fn reduce_overflows(ctx: RingCtx, input: Seq<Polynomial>) -> bool {
    exists|m: Seq<Polynomial>|
        #[trigger] minimized_of(ctx, input, m) && ((forall|out: Seq<Polynomial>| !#[trigger] reverse_results(ctx, nonzero_polys(m), out))
            || exists|out: Seq<Polynomial>, h: Seq<Seq<Polynomial>>|
            #[trigger] reverse_results(ctx, nonzero_polys(m), out) && #[trigger] cleanup_overflows(ctx, nonzero_polys(out), h))
}

/// Copies are copies both ways.
proof fn lemma_same_sym(a: Seq<Polynomial>, b: Seq<Polynomial>)
    requires
        same_reducers(a, b),
    ensures
        same_reducers(b, a),
{
    assert forall|k: int| 0 <= k < b.len() implies term_pairs((#[trigger] b[k])@) == term_pairs(a[k]@) by {
        assert(term_pairs(a[k]@) == term_pairs(b[k]@));
    }
}

/// Making a polynomial monic has one result.
proof fn lemma_monic_unique(ctx: RingCtx, q1: Seq<Term>, q2: Seq<Term>, p: Seq<Term>)
    requires
        ctx.wf(),
        monic_of(ctx, q1, p),
        monic_of(ctx, q2, p),
    ensures
        term_pairs(q1) == term_pairs(q2),
{
    if p.len() > 0 {
        let md = ctx.field.modulus();
        let c1 = choose|c: u32| #![trigger (c * p[0].coeff)] ctx.field.is_elem(c) && (c * p[0].coeff) % md == 1 && forall|i: int|
            0 <= i < p.len() ==> (#[trigger] q1[i]).mono@ == p[i].mono@ && q1[i].coeff == (c * p[i].coeff) % md;
        let c2 = choose|c: u32| #![trigger (c * p[0].coeff)] ctx.field.is_elem(c) && (c * p[0].coeff) % md == 1 && forall|i: int|
            0 <= i < p.len() ==> (#[trigger] q2[i]).mono@ == p[i].mono@ && q2[i].coeff == (c * p[i].coeff) % md;
        assert forall|i: int| 0 <= i < q1.len() implies #[trigger] term_pairs(q1)[i] == term_pairs(q2)[i] by {
            crate::spoly::lemma_inverse_unique(md as int, c1 as int, c2 as int, p[0].coeff as int, p[i].coeff as int);
            assert(q1[i].coeff == q2[i].coeff);
            assert(q1[i].mono@ == q2[i].mono@);
        }
    }
    assert(term_pairs(q1) =~= term_pairs(q2));
}

/// The minimized form of an input has one result, up to copies.
proof fn lemma_minimized_unique(ctx: RingCtx, input: Seq<Polynomial>, m1: Seq<Polynomial>, m2: Seq<Polynomial>)
    requires
        ctx.wf(),
        minimized_of(ctx, input, m1),
        minimized_of(ctx, input, m2),
    ensures
        same_reducers(m1, m2),
{
    let s = survivors(nonzero_polys(input), nonzero_polys(input).len());
    assert forall|k: int| 0 <= k < m1.len() implies term_pairs((#[trigger] m1[k])@) == term_pairs(m2[k]@) by {
        lemma_monic_unique(ctx, m1[k]@, m2[k]@, s[k]@);
    }
}

/// The nonzero polynomials of copies are copies.
proof fn lemma_nonzero_copies(ctx: RingCtx, a: Seq<Polynomial>, b: Seq<Polynomial>)
    requires
        same_reducers(a, b),
    ensures
        same_reducers(nonzero_polys(a), nonzero_polys(b)),
    decreases a.len(),
{
    if a.len() > 0 {
        let a0 = a.drop_last();
        let b0 = b.drop_last();
        assert(same_reducers(a0, b0)) by {
            assert forall|k: int| 0 <= k < a0.len() implies term_pairs((#[trigger] a0[k])@) == term_pairs(b0[k]@) by {
                assert(a0[k] == a[k] && b0[k] == b[k]);
            }
        }
        lemma_nonzero_copies(ctx, a0, b0);
        assert(term_pairs(a.last()@) == term_pairs(b.last()@)) by {
            assert(a.last() == a[a.len() - 1] && b.last() == b[b.len() - 1]);
        }
        assert(term_pairs(a.last()@).len() == a.last()@.len() && term_pairs(b.last()@).len() == b.last()@.len());
        let na = nonzero_polys(a0);
        let nb = nonzero_polys(b0);
        if is_nonzero(a.last()) {
            assert forall|k: int| 0 <= k < na.len() + 1 implies term_pairs((#[trigger] na.push(a.last())[k])@) == term_pairs(nb.push(b.last())[k]@) by {
                if k < na.len() {
                    assert(na.push(a.last())[k] == na[k] && nb.push(b.last())[k] == nb[k]);
                }
            }
        }
    }
}

/// The reverse interreduction of copies has the same results.
proof fn lemma_reverse_copy(ctx: RingCtx, nz1: Seq<Polynomial>, nz2: Seq<Polynomial>, out: Seq<Polynomial>)
    requires
        same_reducers(nz1, nz2),
        reverse_results(ctx, nz1, out),
    ensures
        reverse_results(ctx, nz2, out),
{
    assert forall|k: int| 0 <= k < out.len() implies crate::polynomial::poly_wf(ctx, (#[trigger] out[k])@) && crate::post::tail::tail_result(
        ctx,
        crate::post::tail::sorted_reducers(later_reversed(out, k)),
        nz2[k]@,
        out[k]@,
    ) by {
        assert(term_pairs(nz1[k]@) == term_pairs(nz2[k]@));
        lemma_tail_start(ctx, crate::post::tail::sorted_reducers(later_reversed(out, k)), nz1[k]@, nz2[k]@, out[k]@);
    }
}

/// The reverse interreduction has one result, up to copies.
proof fn lemma_reverse_unique(ctx: RingCtx, nz: Seq<Polynomial>, o1: Seq<Polynomial>, o2: Seq<Polynomial>)
    requires
        ctx.wf(),
        nz.len() <= usize::MAX,
        reverse_results(ctx, nz, o1),
        reverse_results(ctx, nz, o2),
    ensures
        same_reducers(o1, o2),
{
    let n = nz.len();
    let rr = Seq::new(n, |b: int| o2[n - 1 - b]);
    assert forall|b: int| 0 <= b < rr.len() implies crate::polynomial::poly_wf(ctx, (#[trigger] rr[b])@) && crate::post::tail::tail_result(
        ctx,
        crate::post::tail::sorted_reducers(rr.subrange(0, b)),
        nz[nz.len() - 1 - b]@,
        rr[b]@,
    ) by {
        let k = n - 1 - b;
        assert(rr.subrange(0, b) =~= later_reversed(o2, k));
        assert(rr[b] == o2[k]);
    }
    assert forall|k: int| 0 <= k < o1.len() implies term_pairs((#[trigger] o1[k])@) == term_pairs(o2[k]@) by {
        let b = n - 1 - k;
        lemma_rev_agree(ctx, nz, o1, rr, b);
        assert(rr[b] == o2[k]);
    }
}

/// The minimized forms of an input fit in memory indices.
proof fn lemma_minimized_len(ctx: RingCtx, input: Seq<Polynomial>, m: Seq<Polynomial>)
    requires
        minimized_of(ctx, input, m),
        input.len() <= usize::MAX,
    ensures
        m.len() <= usize::MAX,
        nonzero_polys(m).len() <= usize::MAX,
{
    lemma_nonzero_polys(ctx, input);
    lemma_survivors_len(nonzero_polys(input), nonzero_polys(input).len());
    lemma_nonzero_polys(ctx, m);
}

/// The results after the reverse pass, from any two minimized forms, are copies, and so
/// are their nonzero polynomials.
proof fn lemma_chain_agree(ctx: RingCtx, input: Seq<Polynomial>, m1: Seq<Polynomial>, o1: Seq<Polynomial>, m2: Seq<Polynomial>, o2: Seq<Polynomial>)
    requires
        ctx.wf(),
        input.len() <= usize::MAX,
        minimized_of(ctx, input, m1),
        minimized_of(ctx, input, m2),
        reverse_results(ctx, nonzero_polys(m1), o1),
        reverse_results(ctx, nonzero_polys(m2), o2),
    ensures
        same_reducers(nonzero_polys(o1), nonzero_polys(o2)),
        nonzero_polys(o1).len() <= usize::MAX,
{
    lemma_minimized_unique(ctx, input, m1, m2);
    lemma_nonzero_copies(ctx, m1, m2);
    lemma_reverse_copy(ctx, nonzero_polys(m1), nonzero_polys(m2), o1);
    lemma_minimized_len(ctx, input, m2);
    lemma_reverse_unique(ctx, nonzero_polys(m2), o1, o2);
    lemma_nonzero_copies(ctx, o1, o2);
    lemma_nonzero_polys(ctx, o1);
}

/// A basis without violations starts no run that gives up or overflows.
proof fn lemma_reduced_start(ctx: RingCtx, s: Seq<Polynomial>, h: Seq<Seq<Polynomial>>)
    requires
        tails_reduced(s),
        cleanup_run(ctx, s, h),
    ensures
        !cleanup_gives_up(ctx, s, h),
        !cleanup_overflows(ctx, s, h),
{
    if h.len() > 1 {
        assert(run_step(ctx, h, 0));
    }
}

/// The outcome of the interreduction is determined by its input: no input both succeeds
/// and gives up or overflows, and none both gives up and overflows.
pub proof fn lemma_reduce_outcome_unique(ctx: RingCtx, input: Seq<Polynomial>)
    requires
        ctx.wf(),
        input.len() <= usize::MAX,
    ensures
        !(reduce_succeeds(ctx, input) && reduce_gives_up(ctx, input)),
        !(reduce_succeeds(ctx, input) && reduce_overflows(ctx, input)),
        !(reduce_gives_up(ctx, input) && reduce_overflows(ctx, input)),
{
    if reduce_succeeds(ctx, input) && (reduce_gives_up(ctx, input) || reduce_overflows(ctx, input)) {
        let (m1, o1) = choose|m: Seq<Polynomial>, out: Seq<Polynomial>|
            #[trigger] interreduced_of(ctx, input, m, out) && (tails_reduced(nonzero_polys(out))
                || exists|h: Seq<Seq<Polynomial>>| #[trigger] cleanup_reaches(ctx, nonzero_polys(out), h));
        let n1 = nonzero_polys(o1);
        if reduce_gives_up(ctx, input) {
            let (m2, o2) = choose|m: Seq<Polynomial>, out: Seq<Polynomial>|
                #[trigger] interreduced_of(ctx, input, m, out) && exists|h: Seq<Seq<Polynomial>>| #[trigger] cleanup_gives_up(ctx, nonzero_polys(out), h);
            lemma_chain_agree(ctx, input, m2, o2, m1, o1);
            lemma_nonzero_polys(ctx, o2);
            lemma_cleanup_outcome_copy(ctx, nonzero_polys(o2), n1);
            let h = choose|h: Seq<Seq<Polynomial>>| #[trigger] cleanup_gives_up(ctx, n1, h);
            if tails_reduced(n1) {
                lemma_reduced_start(ctx, n1, h);
            } else {
                let h1 = choose|h: Seq<Seq<Polynomial>>| #[trigger] cleanup_reaches(ctx, n1, h);
                lemma_chain_agree(ctx, input, m1, o1, m1, o1);
                lemma_cleanup_outcome_unique(ctx, n1, h1, h);
            }
        } else {
            let m2 = choose|m: Seq<Polynomial>|
                #[trigger] minimized_of(ctx, input, m) && ((forall|out: Seq<Polynomial>| !#[trigger] reverse_results(ctx, nonzero_polys(m), out))
                    || exists|out: Seq<Polynomial>, h: Seq<Seq<Polynomial>>|
                    #[trigger] reverse_results(ctx, nonzero_polys(m), out) && #[trigger] cleanup_overflows(ctx, nonzero_polys(out), h));
            lemma_minimized_unique(ctx, input, m1, m2);
            lemma_nonzero_copies(ctx, m1, m2);
            lemma_reverse_copy(ctx, nonzero_polys(m1), nonzero_polys(m2), o1);
            assert(reverse_results(ctx, nonzero_polys(m2), o1));
            let (o2, h2) = choose|out: Seq<Polynomial>, h: Seq<Seq<Polynomial>>|
                #[trigger] reverse_results(ctx, nonzero_polys(m2), out) && #[trigger] cleanup_overflows(ctx, nonzero_polys(out), h);
            lemma_chain_agree(ctx, input, m2, o2, m1, o1);
            lemma_nonzero_polys(ctx, o2);
            lemma_cleanup_outcome_copy(ctx, nonzero_polys(o2), n1);
            let h = choose|h: Seq<Seq<Polynomial>>| #[trigger] cleanup_overflows(ctx, n1, h);
            if tails_reduced(n1) {
                lemma_reduced_start(ctx, n1, h);
            } else {
                let h1 = choose|h: Seq<Seq<Polynomial>>| #[trigger] cleanup_reaches(ctx, n1, h);
                lemma_chain_agree(ctx, input, m1, o1, m1, o1);
                lemma_cleanup_outcome_unique(ctx, n1, h1, h);
            }
        }
    }
    if reduce_gives_up(ctx, input) && reduce_overflows(ctx, input) {
        let (m1, o1) = choose|m: Seq<Polynomial>, out: Seq<Polynomial>|
            #[trigger] interreduced_of(ctx, input, m, out) && exists|h: Seq<Seq<Polynomial>>| #[trigger] cleanup_gives_up(ctx, nonzero_polys(out), h);
        let n1 = nonzero_polys(o1);
        let h1 = choose|h: Seq<Seq<Polynomial>>| #[trigger] cleanup_gives_up(ctx, n1, h);
        let m2 = choose|m: Seq<Polynomial>|
            #[trigger] minimized_of(ctx, input, m) && ((forall|out: Seq<Polynomial>| !#[trigger] reverse_results(ctx, nonzero_polys(m), out))
                || exists|out: Seq<Polynomial>, h: Seq<Seq<Polynomial>>|
                #[trigger] reverse_results(ctx, nonzero_polys(m), out) && #[trigger] cleanup_overflows(ctx, nonzero_polys(out), h));
        lemma_minimized_unique(ctx, input, m1, m2);
        lemma_nonzero_copies(ctx, m1, m2);
        lemma_reverse_copy(ctx, nonzero_polys(m1), nonzero_polys(m2), o1);
        assert(reverse_results(ctx, nonzero_polys(m2), o1));
        let (o2, h2) = choose|out: Seq<Polynomial>, h: Seq<Seq<Polynomial>>|
            #[trigger] reverse_results(ctx, nonzero_polys(m2), out) && #[trigger] cleanup_overflows(ctx, nonzero_polys(out), h);
        lemma_chain_agree(ctx, input, m2, o2, m1, o1);
        lemma_nonzero_polys(ctx, o2);
        lemma_cleanup_outcome_copy(ctx, nonzero_polys(o2), n1);
        let h = choose|h: Seq<Seq<Polynomial>>| #[trigger] cleanup_overflows(ctx, n1, h);
        lemma_chain_agree(ctx, input, m1, o1, m1, o1);
        lemma_cleanup_outcome_unique(ctx, n1, h1, h);
    }
}

} // verus!
