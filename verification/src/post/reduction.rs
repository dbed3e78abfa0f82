//! Interreduction of computed Gröbner bases.

use vstd::prelude::*;

use crate::f4::symbolic::materialize::all_wf;
use crate::f4::symbolic::reducers::reduces;
use crate::f4::types::{is_nonzero, lm};
use crate::ideal::{element_of, lemma_same_ideal_trans, ideal_within, in_ideal, lemma_congruent_widen_valid, lemma_copies_within, lemma_lowered_within, lower, lowered, lemma_congruent_transfer, lemma_ideal_drawn, lemma_ideal_member, lemma_ideal_zero, lemma_ideal_within_trans, lemma_ideal_congruent, lemma_ideal_same_coeffs, lemma_ideal_within_self, lemma_triangular_ideal, same_ideal, triangular};
use crate::polynomial::{lemma_term_pairs_eq, poly_wf, term_pairs, Polynomial};
use crate::post::error::PostError;
use crate::post::minimize::{redundant, lemma_nonzero_drawn, lemma_nonzero_polys, lemma_survivors_drawn, minimize_in_place, monic_of, nonzero_polys, survivors};
use crate::division::same_reducers;
use crate::post::outcome::{lemma_reduce_outcome_unique, reduce_gives_up, reduce_overflows, reduce_succeeds};
use crate::post::cleanup::{cleanup_gives_up, cleanup_overflows, cleanup_reaches, cleanup_run, lemma_gives_up_only, lemma_overflows_only, lemma_pass_transfer, lemma_reaches_only, lemma_same_self, lemma_same_tails_reduced, lemma_same_trans, lemma_violation_rewrites, pass_elem, pass_fits, pass_result, pass_rewrites, run_step};
use crate::post::tail::{all_indices, lemma_sorted_same, lemma_tail_result_same, lemma_tail_result_unique, sorted_reducers, tail_fits, tail_result, lemma_tail_result_fits, reduce_basis_element_tail_only_with_reducers, reduce_basis_element_tail_only_with_selected_indices, selected_tail_reducer_indices, useful_reducer};
use crate::post::validate::{is_violation, assert_fully_reduced_basis, assert_minimal_leading_monomials, find_reduction_violations, is_minimal, tails_reduced};
use crate::monomial::{exp_sum, MonomialError};
use crate::order::MonomialOrder;
use crate::polynomial::PolynomialError;
use crate::reduce::{ReduceError, congruent_mod, congruent_mod_by, copy_in, lemma_witness_transfer, reducible_by, reduction_witness};
use crate::ring::RingCtx;

verus! {

/// Largest number of passes of the selective cleanup.
pub const MAX_CLEANUP_PASSES: usize = 8;

/// Every element is nonzero.
pub open spec fn all_nonzero(s: Seq<Polynomial>) -> bool {
    forall|k: int| 0 <= k < s.len() ==> is_nonzero(#[trigger] s[k])
}

/// `a` and `b` have the same length and the same leading monomials, position by position.
pub open spec fn same_heads(a: Seq<Polynomial>, b: Seq<Polynomial>) -> bool {
    &&& a.len() == b.len()
    &&& forall|k: int| 0 <= k < a.len() ==> (is_nonzero(#[trigger] a[k]) <==> is_nonzero(b[k])) && (is_nonzero(a[k]) ==> lm(a[k]) == lm(b[k]))
}

/// Each element's tail is reduced by every later element.
pub open spec fn reduced_by_later(s: Seq<Polynomial>) -> bool {
    forall|k: int, j: int, t: int| 0 <= k < j < s.len() && 1 <= t < s[k]@.len() ==> !reduces(#[trigger] s[j], (#[trigger] s[k]@[t]).mono@)
}

/// Every nonzero element has a leading monomial of degree at most `u32::MAX`.
pub open spec fn degrees_fit(s: Seq<Polynomial>) -> bool {
    forall|k: int| 0 <= k < s.len() && is_nonzero(#[trigger] s[k]) ==> exp_sum(lm(s[k])) <= u32::MAX
}

/// Prepending one polynomial to a sequence.
pub proof fn lemma_nonzero_polys_prepend(x: Polynomial, s: Seq<Polynomial>)
    ensures
        nonzero_polys(seq![x] + s) == (if is_nonzero(x) { seq![x] + nonzero_polys(s) } else { nonzero_polys(s) }),
    decreases s.len(),
{
    let xs = seq![x] + s;
    if s.len() == 0 {
        assert(xs =~= seq![x]);
        assert(xs.drop_last() =~= Seq::<Polynomial>::empty());
        assert(nonzero_polys(xs.drop_last()) == Seq::<Polynomial>::empty());
        assert(xs.last() == x);
        assert(nonzero_polys(s) == Seq::<Polynomial>::empty());
        if is_nonzero(x) {
            assert(nonzero_polys(xs) == Seq::<Polynomial>::empty().push(x));
            assert(seq![x] + nonzero_polys(s) =~= Seq::<Polynomial>::empty().push(x));
        } else {
            assert(nonzero_polys(xs) == Seq::<Polynomial>::empty());
        }
    } else {
        lemma_nonzero_polys_prepend(x, s.drop_last());
        assert(xs.drop_last() =~= seq![x] + s.drop_last());
        assert(xs.last() == s.last());
        let prev = nonzero_polys(s.drop_last());
        if is_nonzero(s.last()) {
            assert(nonzero_polys(s) == prev.push(s.last()));
            assert(nonzero_polys(xs) == nonzero_polys(seq![x] + s.drop_last()).push(s.last()));
            if is_nonzero(x) {
                assert((seq![x] + prev).push(s.last()) =~= seq![x] + prev.push(s.last()));
            }
        } else {
            assert(nonzero_polys(s) == prev);
            assert(nonzero_polys(xs) == nonzero_polys(seq![x] + s.drop_last()));
        }
    }
}

/// A sequence of nonzero polynomials keeps all of them.
pub proof fn lemma_nonzero_polys_all(s: Seq<Polynomial>)
    requires
        all_nonzero(s),
    ensures
        nonzero_polys(s) == s,
    decreases s.len(),
{
    if s.len() > 0 {
        assert(all_nonzero(s.drop_last())) by {
            assert forall|k: int| 0 <= k < s.drop_last().len() implies is_nonzero(#[trigger] s.drop_last()[k]) by {
                assert(s.drop_last()[k] == s[k]);
            }
        }
        lemma_nonzero_polys_all(s.drop_last());
        assert(is_nonzero(s[s.len() - 1]));
        assert(s.drop_last().push(s.last()) =~= s);
    }
}

/// Removes the zero polynomials, keeping the order of the others.
pub fn remove_zero_polys(gb: &mut Vec<Polynomial>)
    ensures
        final(gb)@ == nonzero_polys(old(gb)@),
{
    let ghost input = gb@;
    let mut polys: Vec<Polynomial> = Vec::new();
    std::mem::swap(&mut polys, gb);
    let n = polys.len();
    let mut k: usize = 0;
    while polys.len() > 0
        invariant
            polys@ == input.subrange(k as int, n as int),
            n == input.len(),
            k + polys@.len() == n,
            gb@ == nonzero_polys(input.subrange(0, k as int)),
        decreases polys@.len(),
    {
        let p = polys.remove(0);
        proof {
            assert(p == input[k as int]);
            assert(input.subrange(0, k + 1).drop_last() =~= input.subrange(0, k as int));
            assert(input.subrange(0, k + 1).last() == p);
        }
        if !p.is_zero() {
            gb.push(p);
        }
        k += 1;
        proof {
            assert(polys@ =~= input.subrange(k as int, n as int));
        }
    }
    proof {
        assert(input.subrange(0, n as int) =~= input);
    }
}

/// The elements after position `k` of `out`, last first: the reducers of `out[k]` in the
/// reverse interreduction.
pub open spec fn later_reversed(out: Seq<Polynomial>, k: int) -> Seq<Polynomial> {
    Seq::new((out.len() - 1 - k) as nat, |a: int| out[out.len() - 1 - a])
}

/// `out` is the reverse interreduction of the nonzero polynomials `nz`: each element is the
/// corresponding one with its tail reduced by the later results, ordered by term count.
pub open spec fn reverse_results(ctx: RingCtx, nz: Seq<Polynomial>, out: Seq<Polynomial>) -> bool {
    &&& out.len() == nz.len()
    &&& forall|k: int|
        0 <= k < out.len() ==> poly_wf(ctx, (#[trigger] out[k])@) && tail_result(ctx, sorted_reducers(later_reversed(out, k)), nz[k]@, out[k]@)
}

/// Splitting a sequence splits its nonzero polynomials.
pub proof fn lemma_nonzero_polys_split(s: Seq<Polynomial>, i: int)
    requires
        0 <= i <= s.len(),
    ensures
        nonzero_polys(s) == nonzero_polys(s.subrange(0, i)) + nonzero_polys(s.subrange(i, s.len() as int)),
    decreases i,
{
    if i == 0 {
        assert(s.subrange(0, 0) =~= Seq::<Polynomial>::empty());
        assert(s.subrange(0, s.len() as int) =~= s);
        assert(Seq::<Polynomial>::empty() + nonzero_polys(s) =~= nonzero_polys(s));
    } else {
        lemma_nonzero_polys_split(s, i - 1);
        let rest = s.subrange(i, s.len() as int);
        assert(s.subrange(i - 1, s.len() as int) =~= seq![s[i - 1]] + rest);
        lemma_nonzero_polys_prepend(s[i - 1], rest);
        assert(s.subrange(0, i).drop_last() =~= s.subrange(0, i - 1));
        assert(s.subrange(0, i).last() == s[i - 1]);
        let a = nonzero_polys(s.subrange(0, i - 1));
        if is_nonzero(s[i - 1]) {
            assert(a + (seq![s[i - 1]] + nonzero_polys(rest)) =~= a.push(s[i - 1]) + nonzero_polys(rest));
        }
    }
}

/// Results that follow the reverse interreduction agree with any complete one.
pub proof fn lemma_rev_agree(ctx: RingCtx, nz: Seq<Polynomial>, out: Seq<Polynomial>, rr: Seq<Polynomial>, a: int)
    requires
        ctx.wf(),
        nz.len() <= usize::MAX,
        reverse_results(ctx, nz, out),
        rr.len() <= nz.len(),
        forall|b: int| 0 <= b < rr.len() ==> poly_wf(ctx, (#[trigger] rr[b])@)
            && tail_result(ctx, sorted_reducers(rr.subrange(0, b)), nz[nz.len() - 1 - b]@, rr[b]@),
        0 <= a < rr.len(),
    ensures
        term_pairs(rr[a]@) == term_pairs(out[nz.len() - 1 - a]@),
    decreases a,
{
    let n = nz.len();
    let k = n - 1 - a;
    let later = later_reversed(out, k);
    let pre = rr.subrange(0, a);
    assert(same_reducers(pre, later)) by {
        assert forall|b: int| 0 <= b < pre.len() implies term_pairs((#[trigger] pre[b])@) == term_pairs(later[b]@) by {
            lemma_rev_agree(ctx, nz, out, rr, b);
            assert(pre[b] == rr[b]);
            assert(later[b] == out[n - 1 - b]);
        }
    }
    lemma_sorted_same(pre, later);
    crate::post::tail::lemma_by_length_len(pre, all_indices(pre.len()), pre.len());
    assert(poly_wf(ctx, out[k]@) && tail_result(ctx, sorted_reducers(later), nz[k]@, out[k]@));
    assert(poly_wf(ctx, rr[a]@) && tail_result(ctx, sorted_reducers(pre), nz[k]@, rr[a]@));
    lemma_tail_result_same(ctx, sorted_reducers(pre), sorted_reducers(later), nz[k]@, rr[a]@);
    lemma_tail_result_unique(ctx, sorted_reducers(later), nz[k]@, rr[a]@, out[k]@);
}

/// Dropping a prefix keeps at most as many nonzero polynomials.
pub proof fn lemma_nonzero_suffix_len(s: Seq<Polynomial>, i: int)
    requires
        0 <= i <= s.len(),
    ensures
        nonzero_polys(s.subrange(i, s.len() as int)).len() <= nonzero_polys(s).len(),
    decreases i,
{
    if i == 0 {
        assert(s.subrange(0, s.len() as int) =~= s);
    } else {
        lemma_nonzero_suffix_len(s, i - 1);
        let rest = s.subrange(i, s.len() as int);
        assert(s.subrange(i - 1, s.len() as int) =~= seq![s[i - 1]] + rest);
        lemma_nonzero_polys_prepend(s[i - 1], rest);
    }
}

/// When no tail term of the input is divisible by another element's leading monomial,
/// the element at `i` has no tail term that the reduced later elements can reduce.
proof fn lemma_later_cannot_reduce(ctx: RingCtx, input: Seq<Polynomial>, i: int, rr: Seq<Polynomial>)
    requires
        tails_reduced(input),
        0 <= i < input.len(),
        rr.len() == nonzero_polys(input.subrange(i + 1, input.len() as int)).len(),
        forall|a: int| 0 <= a < rr.len() ==> lm(#[trigger] rr[a]) == lm(nonzero_polys(input.subrange(i + 1, input.len() as int))[rr.len() - 1 - a]),
    ensures
        crate::post::tail::tail_reduced_by(rr, input[i]),
{
    let sub = input.subrange(i + 1, input.len() as int);
    let nzs = nonzero_polys(sub);
    lemma_nonzero_drawn(sub);
    lemma_nonzero_polys(ctx, sub);
    assert forall|t: int| 1 <= t < input[i]@.len() implies !reducible_by(rr, (#[trigger] input[i]@[t]).mono@) by {
        if reducible_by(rr, input[i]@[t].mono@) {
            let a = choose|a: int| 0 <= a < rr.len() && reduces(#[trigger] rr[a], input[i]@[t].mono@);
            let x = rr.len() - 1 - a;
            assert(element_of(sub, nzs[x]));
            let jj = choose|jj: int| 0 <= jj < sub.len() && #[trigger] sub[jj] == nzs[x];
            let j = i + 1 + jj;
            assert(input[j] == sub[jj]);
            assert(is_nonzero(nzs[x]));
            assert(is_violation(input, i, t, j));
        }
    }
}

/// Pushing the reduction of the next element keeps the results of the reverse run.
#[verifier::spinoff_prover]
#[verifier::rlimit(40)]
proof fn lemma_rev_results_push(ctx: RingCtx, nz0: Seq<Polynomial>, rr0: Seq<Polynomial>, g: Polynomial, x: Polynomial, nz: Seq<Polynomial>)
    requires
        nz == seq![g] + nz0,
        rr0.len() == nz0.len(),
        forall|a: int| 0 <= a < rr0.len() ==> tail_result(ctx, sorted_reducers(rr0.subrange(0, a)), nz0[rr0.len() - 1 - a]@, (#[trigger] rr0[a])@),
        tail_result(ctx, sorted_reducers(rr0), g@, x@),
    ensures
        forall|a: int| 0 <= a < rr0.len() + 1 ==> tail_result(
            ctx,
            sorted_reducers(rr0.push(x).subrange(0, a)),
            nz[rr0.len() - a]@,
            (#[trigger] rr0.push(x)[a])@,
        ),
{
    let rr = rr0.push(x);
    assert forall|a: int| 0 <= a < rr0.len() + 1 implies tail_result(ctx, sorted_reducers(rr.subrange(0, a)), nz[rr0.len() - a]@, (#[trigger] rr[a])@) by {
        if a < rr0.len() {
            assert(rr[a] == rr0[a]);
            assert(rr.subrange(0, a) =~= rr0.subrange(0, a));
            assert(nz[rr0.len() - a] == nz0[rr0.len() - 1 - a]);
        } else {
            assert(rr.subrange(0, a) =~= rr0);
            assert(nz[0] == g);
        }
    }
}

/// A reverse interreduction whose step at `i` does not fit has no complete result.
proof fn lemma_reverse_blocked(ctx: RingCtx, input: Seq<Polynomial>, i: int, rr: Seq<Polynomial>, out: Seq<Polynomial>)
    requires
        ctx.wf(),
        input.len() <= usize::MAX,
        0 <= i < input.len(),
        is_nonzero(input[i]),
        rr.len() == nonzero_polys(input.subrange(i + 1, input.len() as int)).len(),
        forall|a: int| 0 <= a < rr.len() ==> poly_wf(ctx, (#[trigger] rr[a])@),
        forall|a: int| 0 <= a < rr.len() ==> tail_result(
            ctx,
            sorted_reducers(rr.subrange(0, a)),
            nonzero_polys(input.subrange(i + 1, input.len() as int))[rr.len() - 1 - a]@,
            (#[trigger] rr[a])@,
        ),
        reverse_results(ctx, nonzero_polys(input), out),
    ensures
        tail_fits(ctx, sorted_reducers(rr), input[i]@),
{
    let n = input.len() as int;
    let nz = nonzero_polys(input);
    let rest = input.subrange(i + 1, n);
    let nzr = nonzero_polys(rest);
    lemma_nonzero_polys_split(input, i + 1);
    lemma_nonzero_polys(ctx, input);
    let pre = nonzero_polys(input.subrange(0, i + 1));
    assert(input.subrange(0, i + 1).drop_last() =~= input.subrange(0, i));
    assert(input.subrange(0, i + 1).last() == input[i]);
    assert(pre.last() == input[i]);
    let d = pre.len() - 1;
    assert(nz[d] == input[i]);
    assert(nz.len() == pre.len() + nzr.len());
    assert forall|b: int| 0 <= b < rr.len() implies poly_wf(ctx, (#[trigger] rr[b])@)
        && tail_result(ctx, sorted_reducers(rr.subrange(0, b)), nz[nz.len() - 1 - b]@, rr[b]@) by {
        assert(nz[nz.len() - 1 - b] == nzr[rr.len() - 1 - b]);
    }
    let later = later_reversed(out, d);
    assert(same_reducers(rr, later)) by {
        assert forall|b: int| 0 <= b < rr.len() implies term_pairs((#[trigger] rr[b])@) == term_pairs(later[b]@) by {
            lemma_rev_agree(ctx, nz, out, rr, b);
            assert(later[b] == out[nz.len() - 1 - b]);
        }
    }
    assert(poly_wf(ctx, out[d]@) && tail_result(ctx, sorted_reducers(later), nz[d]@, out[d]@));
    lemma_tail_result_fits(ctx, sorted_reducers(later), nz[d]@, out[d]@);
    assert forall|b: int| 0 <= b < later.len() implies term_pairs((#[trigger] later[b])@) == term_pairs(rr[b]@) by {
        assert(term_pairs(rr[b]@) == term_pairs(later[b]@));
    }
    lemma_sorted_same(later, rr);
    crate::post::tail::lemma_by_length_len(later, all_indices(later.len()), later.len());
    lemma_tail_result_same(ctx, sorted_reducers(later), sorted_reducers(rr), nz[d]@, out[d]@);
}

/// Reduces the basis elements from last to first, each by the already reduced later ones,
/// keeping leading monomials; zero elements are dropped. The basis is changed only on
/// success.
#[verifier::rlimit(100)]
#[verifier::spinoff_prover]
pub fn reverse_tail_interreduce(ctx: &RingCtx, gb: &mut Vec<Polynomial>) -> (r: Result<(), PostError>)
    requires
        ctx.wf(),
        all_wf(*ctx, old(gb)@),
    ensures
        r matches Err(e) ==> e == PostError::Reduce(ReduceError::Polynomial(PolynomialError::Monomial(MonomialError::ExponentOverflow))),
        r is Err ==> final(gb)@ == old(gb)@,
        nonzero_polys(old(gb)@).len() <= 1 ==> r is Ok,
        ctx.order == MonomialOrder::Grevlex && degrees_fit(old(gb)@) ==> r is Ok,
        tails_reduced(old(gb)@) ==> (r is Ok && forall|k: int| 0 <= k < final(gb)@.len()
            ==> term_pairs((#[trigger] final(gb)@[k])@) == term_pairs(nonzero_polys(old(gb)@)[k]@)),
        r is Ok ==> reverse_results(*ctx, nonzero_polys(old(gb)@), final(gb)@),
        (exists|out: Seq<Polynomial>| #[trigger] reverse_results(*ctx, nonzero_polys(old(gb)@), out)) ==> r is Ok,
        r is Ok ==> {
            &&& all_wf(*ctx, final(gb)@)
            &&& all_nonzero(final(gb)@)
            &&& same_heads(final(gb)@, nonzero_polys(old(gb)@))
            &&& reduced_by_later(final(gb)@)
            &&& forall|k: int| 0 <= k < final(gb)@.len() ==> (#[trigger] final(gb)@[k])@[0].coeff == nonzero_polys(old(gb)@)[k]@[0].coeff
            &&& forall|k: int| 0 <= k < final(gb)@.len() ==> congruent_mod_by(
                *ctx,
                final(gb)@,
                Set::new(|j: int| k < j < final(gb)@.len()),
                nonzero_polys(old(gb)@)[k]@,
                (#[trigger] final(gb)@[k])@,
            )
            &&& same_ideal(*ctx, final(gb)@, nonzero_polys(old(gb)@))
        },
{
    let ghost input = gb@;
    let mut snapshot: Vec<Polynomial> = Vec::new();
    std::mem::swap(&mut snapshot, gb);
    let n = snapshot.len();
    let mut reduced_rev: Vec<Polynomial> = Vec::new();
    let mut i: usize = n;
    proof {
        assert(input.subrange(n as int, n as int) =~= Seq::<Polynomial>::empty());
    }
    while i > 0
        invariant
            ctx.wf(),
            snapshot@ == input,
            input == old(gb)@,
            n == input.len(),
            i <= n,
            all_wf(*ctx, input),
            all_wf(*ctx, reduced_rev@),
            all_nonzero(reduced_rev@),
            reduced_rev@.len() == nonzero_polys(input.subrange(i as int, n as int)).len(),
            forall|a: int| 0 <= a < reduced_rev@.len() ==> lm(#[trigger] reduced_rev@[a]) == lm(nonzero_polys(input.subrange(i as int, n as int))[reduced_rev@.len() - 1 - a]),
            forall|a: int, b: int, t: int| 0 <= a < b < reduced_rev@.len() && 1 <= t < reduced_rev@[b]@.len() ==> !reduces(#[trigger] reduced_rev@[a], (#[trigger] reduced_rev@[b]@[t]).mono@),
            forall|a: int| 0 <= a < reduced_rev@.len() ==> (#[trigger] reduced_rev@[a])@[0].coeff == nonzero_polys(input.subrange(i as int, n as int))[reduced_rev@.len() - 1 - a]@[0].coeff,
            tails_reduced(input) ==> forall|a: int| 0 <= a < reduced_rev@.len() ==> term_pairs((#[trigger] reduced_rev@[a])@) == term_pairs(nonzero_polys(input.subrange(i as int, n as int))[reduced_rev@.len() - 1 - a]@),
            forall|a: int| 0 <= a < reduced_rev@.len() ==> tail_result(
                *ctx,
                sorted_reducers(reduced_rev@.subrange(0, a)),
                nonzero_polys(input.subrange(i as int, n as int))[reduced_rev@.len() - 1 - a]@,
                (#[trigger] reduced_rev@[a])@,
            ),
            forall|a: int| 0 <= a < reduced_rev@.len() ==> congruent_mod(
                *ctx,
                reduced_rev@.subrange(0, a),
                nonzero_polys(input.subrange(i as int, n as int))[reduced_rev@.len() - 1 - a]@,
                (#[trigger] reduced_rev@[a])@,
            ),
        decreases i,
    {
        i -= 1;
        let gi = &snapshot[i];
        proof {
            let rest = input.subrange(i + 1, n as int);
            assert(input.subrange(i as int, n as int) =~= seq![input[i as int]] + rest);
            lemma_nonzero_polys_prepend(input[i as int], rest);
        }
        if gi.is_zero() {
            continue;
        }
        proof {
            if tails_reduced(input) {
                lemma_later_cannot_reduce(*ctx, input, i as int, reduced_rev@);
            }
        }
        let reduced = match reduce_basis_element_tail_only_with_reducers(ctx, gi, reduced_rev.as_slice(), i) {
            Ok(x) => x,
            Err(e) => {
                proof {
                    if ctx.order == MonomialOrder::Grevlex && degrees_fit(input) {
                        assert(exp_sum(lm(input[i as int])) <= u32::MAX);
                    }
                    assert(!exists|out: Seq<Polynomial>| #[trigger] reverse_results(*ctx, nonzero_polys(input), out)) by {
                        if exists|out: Seq<Polynomial>| #[trigger] reverse_results(*ctx, nonzero_polys(input), out) {
                            let out = choose|out: Seq<Polynomial>| #[trigger] reverse_results(*ctx, nonzero_polys(input), out);
                            lemma_reverse_blocked(*ctx, input, i as int, reduced_rev@, out);
                        }
                    }
                    if nonzero_polys(input).len() <= 1 {
                        lemma_nonzero_suffix_len(input, i as int);
                        assert(reduced_rev@.len() == 0);
                        assert(crate::post::tail::tail_reduced_by(reduced_rev@, *gi));
                    }
                }
                *gb = snapshot;
                return Err(e);
            },
        };
        let ghost rr0 = reduced_rev@;
        reduced_rev.push(reduced);
        proof {
            let rest = input.subrange(i + 1, n as int);
            let nz = nonzero_polys(input.subrange(i as int, n as int));
            assert(nz == seq![input[i as int]] + nonzero_polys(rest));
            assert forall|a: int| 0 <= a < reduced_rev@.len() implies lm(#[trigger] reduced_rev@[a]) == lm(nz[reduced_rev@.len() - 1 - a]) by {
                if a < rr0.len() {
                    assert(reduced_rev@[a] == rr0[a]);
                    assert(nz[reduced_rev@.len() - 1 - a] == nonzero_polys(rest)[rr0.len() - 1 - a]);
                } else {
                    assert(nz[0] == input[i as int]);
                }
            }
            assert forall|a: int, b: int, t: int| 0 <= a < b < reduced_rev@.len() && 1 <= t < reduced_rev@[b]@.len() implies !reduces(#[trigger] reduced_rev@[a], (#[trigger] reduced_rev@[b]@[t]).mono@) by {
                if b < rr0.len() {
                    assert(reduced_rev@[a] == rr0[a] && reduced_rev@[b] == rr0[b]);
                } else {
                    assert(reduced_rev@[a] == rr0[a]);
                    assert(!reducible_by(rr0, reduced_rev@[b]@[t].mono@));
                }
            }
            assert forall|a: int| 0 <= a < reduced_rev@.len() implies poly_wf(*ctx, (#[trigger] reduced_rev@[a])@) && is_nonzero(reduced_rev@[a]) by {
                if a < rr0.len() {
                    assert(reduced_rev@[a] == rr0[a]);
                }
            }
            assert forall|a: int| 0 <= a < reduced_rev@.len() implies (#[trigger] reduced_rev@[a])@[0].coeff == nz[reduced_rev@.len() - 1 - a]@[0].coeff by {
                if a < rr0.len() {
                    assert(reduced_rev@[a] == rr0[a]);
                    assert(nz[reduced_rev@.len() - 1 - a] == nonzero_polys(rest)[rr0.len() - 1 - a]);
                } else {
                    assert(nz[0] == input[i as int]);
                }
            }
            lemma_rev_results_push(*ctx, nonzero_polys(rest), rr0, input[i as int], reduced, nz);
            if tails_reduced(input) {
                assert forall|a: int| 0 <= a < reduced_rev@.len() implies term_pairs((#[trigger] reduced_rev@[a])@) == term_pairs(nz[reduced_rev@.len() - 1 - a]@) by {
                    if a < rr0.len() {
                        assert(reduced_rev@[a] == rr0[a]);
                        assert(nz[reduced_rev@.len() - 1 - a] == nonzero_polys(rest)[rr0.len() - 1 - a]);
                    } else {
                        assert(nz[0] == input[i as int]);
                    }
                }
            }
            assert forall|a: int| 0 <= a < reduced_rev@.len() implies congruent_mod(
                *ctx,
                reduced_rev@.subrange(0, a),
                nz[reduced_rev@.len() - 1 - a]@,
                (#[trigger] reduced_rev@[a])@,
            ) by {
                if a < rr0.len() {
                    assert(reduced_rev@[a] == rr0[a]);
                    assert(reduced_rev@.subrange(0, a) =~= rr0.subrange(0, a));
                    assert(nz[reduced_rev@.len() - 1 - a] == nonzero_polys(rest)[rr0.len() - 1 - a]);
                } else {
                    assert(reduced_rev@.subrange(0, a) =~= rr0);
                    assert(nz[0] == input[i as int]);
                }
            }
        }
    }
    proof {
        assert(input.subrange(0, n as int) =~= input);
    }
    let ghost rr = reduced_rev@;
    let len = reduced_rev.len();
    let mut out: Vec<Polynomial> = Vec::new();
    while reduced_rev.len() > 0
        invariant
            len == rr.len(),
            reduced_rev@ == rr.subrange(0, len - out@.len()),
            out@.len() <= len,
            forall|k: int| 0 <= k < out@.len() ==> #[trigger] out@[k] == rr[len - 1 - k],
        decreases reduced_rev@.len(),
    {
        let p = reduced_rev.pop().unwrap();
        out.push(p);
        proof {
            assert(reduced_rev@ =~= rr.subrange(0, len - out@.len()));
        }
    }
    proof {
        let nz = nonzero_polys(input);
        assert forall|k: int| 0 <= k < out@.len() implies poly_wf(*ctx, (#[trigger] out@[k])@) && is_nonzero(out@[k]) by {
            assert(out@[k] == rr[len - 1 - k]);
        }
        lemma_nonzero_polys(*ctx, input);
        assert forall|k: int| 0 <= k < out@.len() implies (is_nonzero(#[trigger] out@[k]) <==> is_nonzero(nz[k])) && (is_nonzero(out@[k]) ==> lm(out@[k]) == lm(nz[k])) by {
            assert(out@[k] == rr[len - 1 - k]);
        }
        assert forall|k: int, j: int, t: int| 0 <= k < j < out@.len() && 1 <= t < out@[k]@.len() implies !reduces(#[trigger] out@[j], (#[trigger] out@[k]@[t]).mono@) by {
            assert(out@[k] == rr[len - 1 - k]);
            assert(out@[j] == rr[len - 1 - j]);
        }
        assert forall|k: int| 0 <= k < out@.len() implies (#[trigger] out@[k])@[0].coeff == nz[k]@[0].coeff by {
            assert(out@[k] == rr[len - 1 - k]);
        }
        if tails_reduced(input) {
            assert forall|k: int| 0 <= k < out@.len() implies term_pairs((#[trigger] out@[k])@) == term_pairs(nz[k]@) by {
                assert(out@[k] == rr[len - 1 - k]);
            }
        }
        assert forall|k: int| 0 <= k < out@.len() implies congruent_mod_by(
            *ctx,
            out@,
            Set::new(|j: int| k < j < out@.len()),
            nz[k]@,
            (#[trigger] out@[k])@,
        ) by {
            let a = len - 1 - k;
            assert(out@[k] == rr[a]);
            let r = rr.subrange(0, a);
            let allowed = Set::new(|j: int| k < j < out@.len());
            assert(congruent_mod(*ctx, r, nz[k]@, rr[a]@));
            let steps = choose|steps: Seq<(int, Seq<u32>, int)>| reduction_witness(*ctx, r, nz[k]@, rr[a]@, steps);
            assert forall|x: int| 0 <= x < r.len() implies copy_in(out@, allowed, #[trigger] r[x]) by {
                let j = len - 1 - x;
                assert(out@[j] == rr[x]);
                assert(r[x] == rr[x]);
                assert(allowed.contains(j));
                assert(term_pairs(r[x]@) == term_pairs(out@[j]@));
            }
            lemma_witness_transfer(*ctx, r, out@, allowed, nz[k]@, out@[k]@, steps);
        }
        assert(triangular(*ctx, out@, nz));
        lemma_triangular_ideal(*ctx, out@, nz);
        assert forall|k: int| 0 <= k < out@.len() implies poly_wf(*ctx, (#[trigger] out@[k])@)
            && tail_result(*ctx, sorted_reducers(later_reversed(out@, k)), nz[k]@, out@[k]@) by {
            assert(out@[k] == rr[len - 1 - k]);
            assert(later_reversed(out@, k) =~= rr.subrange(0, len - 1 - k)) by {
                assert forall|b: int| 0 <= b < len - 1 - k implies later_reversed(out@, k)[b] == rr[b] by {
                    assert(out@[len - 1 - b] == rr[b]);
                }
            }
        }
        assert(reverse_results(*ctx, nz, out@));
    }
    *gb = out;
    Ok(())
}

/// Leading monomials and minimality carry over between sequences with the same heads.
pub proof fn lemma_minimal_same_heads(a: Seq<Polynomial>, b: Seq<Polynomial>)
    requires
        same_heads(a, b),
        is_minimal(b),
    ensures
        is_minimal(a),
{
    assert forall|i: int, j: int| 0 <= i < a.len() && 0 <= j < a.len() && i != j && is_nonzero(a[i]) && is_nonzero(a[j]) implies !crate::monomial::spec_divides(lm(#[trigger] a[j]), lm(#[trigger] a[i])) by {
        assert(is_nonzero(b[i]) && is_nonzero(b[j]));
        assert(lm(a[i]) == lm(b[i]) && lm(a[j]) == lm(b[j]));
    }
}

/// Copies of every polynomial.
fn copy_all(ctx: &RingCtx, s: &Vec<Polynomial>) -> (r: Vec<Polynomial>)
    requires
        all_wf(*ctx, s@),
    ensures
        all_wf(*ctx, r@),
        r@.len() == s@.len(),
        forall|k: int| 0 <= k < s@.len() ==> term_pairs((#[trigger] r@[k])@) == term_pairs(s@[k]@),
        same_heads(r@, s@),
        forall|k: int| 0 <= k < s@.len() && is_nonzero(#[trigger] r@[k]) ==> r@[k]@[0].coeff == s@[k]@[0].coeff,
{
    let mut out: Vec<Polynomial> = Vec::new();
    let mut k: usize = 0;
    while k < s.len()
        invariant
            all_wf(*ctx, s@),
            k <= s@.len(),
            out@.len() == k,
            forall|x: int| 0 <= x < k ==> term_pairs((#[trigger] out@[x])@) == term_pairs(s@[x]@),
        decreases s@.len() - k,
    {
        let c = s[k].duplicate();
        proof {
            assert(term_pairs(c@) =~= term_pairs(s@[k as int]@));
        }
        out.push(c);
        k += 1;
    }
    proof {
        assert forall|x: int| 0 <= x < out@.len() implies poly_wf(*ctx, (#[trigger] out@[x])@) by {
            lemma_term_pairs_eq(*ctx, out@[x]@, s@[x]@);
        }
        assert forall|x: int| 0 <= x < out@.len() implies (is_nonzero(#[trigger] out@[x]) <==> is_nonzero(s@[x])) && (is_nonzero(out@[x]) ==> lm(out@[x]) == lm(s@[x])) by {
            lemma_term_pairs_eq(*ctx, out@[x]@, s@[x]@);
        }
        assert forall|x: int| 0 <= x < s@.len() && is_nonzero(#[trigger] out@[x]) implies out@[x]@[0].coeff == s@[x]@[0].coeff by {
            lemma_term_pairs_eq(*ctx, out@[x]@, s@[x]@);
        }
    }
    out
}

/// A longer prefix has at least as many nonzero polynomials, and one more when the next
/// element is nonzero.
proof fn lemma_nonzero_prefix(s: Seq<Polynomial>, k1: int, k2: int)
    requires
        0 <= k1 <= k2 <= s.len(),
    ensures
        nonzero_polys(s.take(k1)).len() <= nonzero_polys(s.take(k2)).len(),
        k1 < k2 && is_nonzero(s[k1]) ==> nonzero_polys(s.take(k1)).len() < nonzero_polys(s.take(k2)).len(),
    decreases k2 - k1,
{
    if k1 < k2 {
        lemma_nonzero_prefix(s, k1 + 1, k2);
        assert(s.take(k1 + 1).drop_last() =~= s.take(k1));
        assert(s.take(k1 + 1).last() == s[k1]);
    }
}

/// Three nonzero elements at distinct positions make at least three nonzero polynomials.
proof fn lemma_three_nonzero(s: Seq<Polynomial>, a: int, b: int, c: int)
    requires
        0 <= a < s.len(),
        0 <= b < s.len(),
        0 <= c < s.len(),
        a != b,
        b != c,
        a != c,
        is_nonzero(s[a]),
        is_nonzero(s[b]),
        is_nonzero(s[c]),
    ensures
        nonzero_polys(s).len() >= 3,
{
    let lo = if a < b && a < c { a } else if b < c { b } else { c };
    let hi = if a > b && a > c { a } else if b > c { b } else { c };
    let mid = if a != lo && a != hi { a } else if b != lo && b != hi { b } else { c };
    assert(lo < mid < hi);
    assert(is_nonzero(s[lo]) && is_nonzero(s[mid]) && is_nonzero(s[hi]));
    lemma_nonzero_prefix(s, 0, lo);
    lemma_nonzero_prefix(s, lo, mid);
    lemma_nonzero_prefix(s, mid, hi);
    lemma_nonzero_prefix(s, hi, s.len() as int);
    assert(s.take(s.len() as int) =~= s);
    assert(s.take(0) =~= Seq::<Polynomial>::empty());
}

/// An element that no other element can reduce has no violation.
proof fn lemma_unselected_clean(
    ctx: RingCtx,
    input: Seq<Polynomial>,
    snap: Seq<Polynomial>,
    polys: Seq<Polynomial>,
    i: int,
    selected: Seq<usize>,
)
    requires
        0 <= i < polys.len(),
        polys.len() == snap.len(),
        same_heads(polys, input),
        same_heads(snap, input),
        term_pairs(polys[i]@) == term_pairs(snap[i]@),
        is_nonzero(snap[i]) ==> forall|j: int| useful_reducer(snap, i, j) ==> selected.contains(j as usize),
        selected.len() == 0 || !is_nonzero(snap[i]),
    ensures
        forall|t: int, j: int| !#[trigger] is_violation(polys, i, t, j),
{
    lemma_term_pairs_eq(ctx, polys[i]@, snap[i]@);
    assert forall|t: int, j: int| !#[trigger] is_violation(polys, i, t, j) by {
        if is_violation(polys, i, t, j) {
            assert(is_nonzero(snap[j]) && lm(snap[j]) == lm(polys[j]));
            assert(polys[i]@[t].mono@ == snap[i]@[t].mono@);
            assert(useful_reducer(snap, i, j));
            assert(selected.contains(j as usize));
        }
    }
}

/// With at most two nonzero elements, an element reduced by every element that could
/// reduce it has no violation.
proof fn lemma_selected_clean(
    input: Seq<Polynomial>,
    snap: Seq<Polynomial>,
    polys: Seq<Polynomial>,
    i: int,
    selected: Seq<usize>,
)
    requires
        0 <= i < polys.len(),
        polys.len() == snap.len(),
        same_heads(polys, input),
        same_heads(snap, input),
        is_nonzero(snap[i]),
        selected.len() > 0,
        forall|a: int| 0 <= a < selected.len() ==> useful_reducer(snap, i, #[trigger] selected[a] as int),
        forall|t: int, a: int| 1 <= t < polys[i]@.len() && 0 <= a < selected.len() && selected[a] != i ==> !reduces(snap[#[trigger] selected[a] as int], (#[trigger] polys[i]@[t]).mono@),
        nonzero_polys(input).len() <= 2,
    ensures
        forall|t: int, j: int| !#[trigger] is_violation(polys, i, t, j),
{
    assert forall|t: int, j: int| !#[trigger] is_violation(polys, i, t, j) by {
        if is_violation(polys, i, t, j) {
            assert(is_nonzero(snap[j]) && lm(snap[j]) == lm(polys[j]));
            assert(reduces(snap[j], polys[i]@[t].mono@));
            let j2 = selected[0] as int;
            assert(useful_reducer(snap, i, j2));
            if j == j2 {
                assert(selected[0] != i);
                assert(!reduces(snap[selected[0] as int], polys[i]@[t].mono@));
            } else {
                assert(is_nonzero(input[i]) && is_nonzero(input[j]) && is_nonzero(input[j2]));
                lemma_three_nonzero(input, i, j, j2);
            }
        }
    }
}

/// Repeatedly reduces each tail by the elements that can reduce it, against a snapshot of
/// the previous pass, until no violation is left, a pass changes nothing, or
/// [`MAX_CLEANUP_PASSES`] passes have run; fails when violations remain, leaving the basis
/// of the last pass in `gb`. A tail division that does not fit leaves `gb` unchanged.
pub fn selective_tail_cleanup(ctx: &RingCtx, gb: &mut Vec<Polynomial>) -> (r: Result<(), PostError>)
    requires
        ctx.wf(),
        all_wf(*ctx, old(gb)@),
    ensures
        r matches Err(e) ==> e == PostError::Reduce(ReduceError::Polynomial(PolynomialError::Monomial(MonomialError::ExponentOverflow))) || e == PostError::InvariantViolation,
        r is Ok ==> exists|h: Seq<Seq<Polynomial>>| #[trigger] cleanup_reaches(*ctx, old(gb)@, h) && same_reducers(final(gb)@, h.last()),
        r == Err::<(), PostError>(PostError::InvariantViolation) ==> exists|h: Seq<Seq<Polynomial>>| #[trigger] cleanup_gives_up(*ctx, old(gb)@, h) && same_reducers(final(gb)@, h.last()),
        r == Err::<(), PostError>(PostError::Reduce(ReduceError::Polynomial(PolynomialError::Monomial(MonomialError::ExponentOverflow)))) ==> final(gb)@ == old(gb)@ && exists|h: Seq<Seq<Polynomial>>| #[trigger] cleanup_overflows(*ctx, old(gb)@, h),
        (exists|h: Seq<Seq<Polynomial>>| #[trigger] cleanup_reaches(*ctx, old(gb)@, h)) ==> r is Ok,
        (exists|h: Seq<Seq<Polynomial>>| #[trigger] cleanup_gives_up(*ctx, old(gb)@, h)) ==> r == Err::<(), PostError>(PostError::InvariantViolation),
        (exists|h: Seq<Seq<Polynomial>>| #[trigger] cleanup_overflows(*ctx, old(gb)@, h)) ==> r == Err::<(), PostError>(PostError::Reduce(ReduceError::Polynomial(PolynomialError::Monomial(MonomialError::ExponentOverflow)))),
        tails_reduced(old(gb)@) ==> (r is Ok && final(gb)@ == old(gb)@),
        r is Ok ==> all_wf(*ctx, final(gb)@) && same_heads(final(gb)@, old(gb)@) && tails_reduced(final(gb)@),
        r is Ok ==> forall|k: int| 0 <= k < final(gb)@.len() && is_nonzero(#[trigger] final(gb)@[k]) ==> final(gb)@[k]@[0].coeff == old(gb)@[k]@[0].coeff,
        r is Ok ==> same_ideal(*ctx, final(gb)@, old(gb)@),
        nonzero_polys(old(gb)@).len() <= 2 ==> r != Err::<(), PostError>(PostError::InvariantViolation),
        ctx.order == MonomialOrder::Grevlex && degrees_fit(old(gb)@) ==> (r matches Err(e) ==> e == PostError::InvariantViolation),
{
    let ghost input = gb@;
    let ghost mut h: Seq<Seq<Polynomial>> = seq![input];
    let n0 = gb.len();
    proof {
        lemma_same_self(input);
        assert(input.len() == n0);
    }
    if find_reduction_violations(gb.as_slice()).len() == 0 {
        proof {
            lemma_ideal_within_self(*ctx, input);
            assert(cleanup_reaches(*ctx, input, h));
            lemma_reaches_only(*ctx, input, h);
        }
        return Ok(());
    }
    let mut polys = copy_all(ctx, gb);
    let n = polys.len();
    let mut pass: usize = 0;
    let ghost mut swept = false;
    proof {
        assert forall|k: int| 0 <= k < n implies crate::polynomial::term_pairs((#[trigger] input[k])@) == crate::polynomial::term_pairs(polys@[k]@) by {}
        lemma_copies_within(*ctx, polys@, input);
        lemma_copies_within(*ctx, input, polys@);
        assert(same_reducers(polys@, h.last()));
        assert(cleanup_run(*ctx, input, h));
    }
    while pass < MAX_CLEANUP_PASSES
        invariant
            ctx.wf(),
            input == old(gb)@,
            gb@ == input,
            !tails_reduced(input),
            cleanup_run(*ctx, input, h),
            h.len() == pass + 1,
            same_reducers(polys@, h.last()),
            pass <= MAX_CLEANUP_PASSES,
            input.len() == n,
            all_wf(*ctx, input),
            ideal_within(*ctx, polys@, input),
            ideal_within(*ctx, input, polys@),
            polys@.len() == n,
            all_wf(*ctx, polys@),
            same_heads(polys@, input),
            forall|k: int| 0 <= k < n && is_nonzero(#[trigger] polys@[k]) ==> polys@[k]@[0].coeff == input[k]@[0].coeff,
            pass > 0 ==> swept,
            swept && nonzero_polys(input).len() <= 2 ==> tails_reduced(polys@),
        ensures
            pass > 0,
            h.len() == MAX_CLEANUP_PASSES + 1,
        decreases MAX_CLEANUP_PASSES - pass,
    {
        let violations = find_reduction_violations(polys.as_slice());
        if violations.len() == 0 {
            proof {
                lemma_same_tails_reduced(*ctx, polys@, h.last());
                assert(cleanup_reaches(*ctx, input, h));
                lemma_reaches_only(*ctx, input, h);
            }
            *gb = polys;
            return Ok(());
        }
        let ghost start = polys@;
        let ghost hl = h.last();
        proof {
            lemma_same_tails_reduced(*ctx, polys@, hl);
        }
        let snapshot = copy_all(ctx, &polys);
        proof {
            assert forall|k: int| 0 <= k < polys@.len() implies crate::polynomial::term_pairs((#[trigger] polys@[k])@) == crate::polynomial::term_pairs(snapshot@[k]@) by {}
            assert forall|k: int| 0 <= k < snapshot@.len() implies in_ideal(*ctx, input, (#[trigger] snapshot@[k])@) by {
                assert(in_ideal(*ctx, input, polys@[k]@));
                lemma_term_pairs_eq(*ctx, polys@[k]@, snapshot@[k]@);
                lemma_ideal_same_coeffs(*ctx, input, polys@[k]@, snapshot@[k]@);
            }
        }
        proof {
            lemma_same_trans(snapshot@, start, hl);
        }
        let mut changed: usize = 0;
        let mut i: usize = 0;
        while i < n
            invariant
                ctx.wf(),
                input == old(gb)@,
                gb@ == input,
                !tails_reduced(input),
                cleanup_run(*ctx, input, h),
                h.len() == pass + 1,
                pass < MAX_CLEANUP_PASSES,
                hl == h.last(),
                !tails_reduced(hl),
                same_reducers(start, hl),
                same_reducers(snapshot@, hl),
                forall|k: int| 0 <= k < i ==> #[trigger] pass_elem(*ctx, hl, k, polys@[k]),
                changed == 0 ==> forall|k: int| 0 <= k < i ==> !#[trigger] pass_rewrites(hl, k),
                all_wf(*ctx, input),
                ideal_within(*ctx, polys@, input),
                ideal_within(*ctx, snapshot@, input),
                ideal_within(*ctx, input, start),
                start.len() == n,
                all_wf(*ctx, start),
                forall|k: int| 0 <= k < n ==> crate::polynomial::term_pairs((#[trigger] snapshot@[k])@) == crate::polynomial::term_pairs(start[k]@),
                lowered(*ctx, polys@, snapshot@),
                polys@.len() == n,
                snapshot@.len() == n,
                all_wf(*ctx, polys@),
                all_wf(*ctx, snapshot@),
                same_heads(polys@, input),
                same_heads(snapshot@, input),
                forall|k: int| 0 <= k < n && is_nonzero(#[trigger] polys@[k]) ==> polys@[k]@[0].coeff == input[k]@[0].coeff,
                forall|k: int| 0 <= k < n && is_nonzero(#[trigger] snapshot@[k]) ==> snapshot@[k]@[0].coeff == input[k]@[0].coeff,
                i <= n,
                changed <= i,
                forall|k: int| i <= k < n ==> polys@[k] == start[k],
                nonzero_polys(input).len() <= 2 ==> forall|k: int, t: int, j: int| 0 <= k < i ==> !#[trigger] is_violation(polys@, k, t, j),
            decreases n - i,
        {
            proof {
                lemma_pass_transfer(*ctx, snapshot@, hl, i as int);
                lemma_term_pairs_eq(*ctx, snapshot@[i as int]@, hl[i as int]@);
                lemma_term_pairs_eq(*ctx, start[i as int]@, hl[i as int]@);
            }
            if !snapshot[i].is_zero() {
                let selected = selected_tail_reducer_indices(snapshot.as_slice(), i);
                if selected.len() > 0 {
                    proof {
                        assert forall|a: int| 0 <= a < selected@.len() implies #[trigger] selected@[a] < snapshot@.len() by {
                            assert(useful_reducer(snapshot@, i as int, selected@[a] as int));
                        }
                    }
                    proof {
                        if ctx.order == MonomialOrder::Grevlex && degrees_fit(input) {
                            assert(is_nonzero(input[i as int]));
                            assert(lm(snapshot@[i as int]) == lm(input[i as int]));
                        }
                    }
                    let reduced = match reduce_basis_element_tail_only_with_selected_indices(ctx, &snapshot[i], snapshot.as_slice(), i, selected.as_slice()) {
                        Ok(x) => x,
                        Err(e) => {
                            proof {
                                assert(pass_rewrites(hl, i as int));
                                assert(!pass_fits(*ctx, hl));
                                assert(cleanup_overflows(*ctx, input, h));
                                lemma_overflows_only(*ctx, input, h);
                            }
                            return Err(e);
                        },
                    };
                    let same = match (reduced.leading_mono(), snapshot[i].leading_mono()) {
                        (Some(a), Some(b)) => a.same(b),
                        _ => false,
                    };
                    if !same {
                        return Err(PostError::LeadingMonomialChangedDuringReduction);
                    }
                    let ghost polys0 = polys@;
                    proof {
                        let allowed = Set::new(|j: int| 0 <= j && selected@.contains(j as usize) && j != i);
                        lemma_congruent_transfer(*ctx, snapshot@, input, allowed, snapshot@[i as int]@, reduced@);
                        lemma_ideal_congruent(*ctx, input, snapshot@[i as int]@, reduced@);
                        lemma_selected_lower(*ctx, snapshot@, i as int, selected@);
                        assert(allowed == others(selected@, i as int));
                        lemma_congruent_widen_valid(*ctx, snapshot@, allowed, lower(*ctx, snapshot@, i as int), snapshot@[i as int]@, reduced@);
                    }
                    proof {
                        assert(pass_elem(*ctx, hl, i as int, reduced));
                    }
                    polys.set(i, reduced);
                    proof {
                        assert forall|k: int| 0 <= k < i + 1 implies #[trigger] pass_elem(*ctx, hl, k, polys@[k]) by {
                            if k < i {
                                assert(polys@[k] == polys0[k]);
                            }
                        }
                        assert forall|k: int| 0 <= k < polys@.len() implies in_ideal(*ctx, input, (#[trigger] polys@[k])@) by {
                            if k != i {
                                assert(polys@[k] == polys0[k]);
                            }
                        }
                        assert(lowered(*ctx, polys@, snapshot@)) by {
                            assert forall|k: int| 0 <= k < snapshot@.len() implies crate::polynomial::term_pairs((#[trigger] polys@[k])@) == crate::polynomial::term_pairs(snapshot@[k]@)
                                || congruent_mod_by(*ctx, snapshot@, lower(*ctx, snapshot@, k), snapshot@[k]@, polys@[k]@) by {
                                if k != i {
                                    assert(polys@[k] == polys0[k]);
                                }
                            }
                        }
                        assert forall|k: int| 0 <= k < polys@.len() implies poly_wf(*ctx, (#[trigger] polys@[k])@) by {
                            if k != i {
                                assert(polys@[k] == polys0[k]);
                            }
                        }
                        assert forall|k: int| 0 <= k < polys@.len() implies (is_nonzero(#[trigger] polys@[k]) <==> is_nonzero(input[k])) && (is_nonzero(polys@[k]) ==> lm(polys@[k]) == lm(input[k])) by {
                            if k != i {
                                assert(polys@[k] == polys0[k]);
                            } else {
                                assert(is_nonzero(snapshot@[k]));
                            }
                        }
                        assert forall|k: int| 0 <= k < n && is_nonzero(#[trigger] polys@[k]) implies polys@[k]@[0].coeff == input[k]@[0].coeff by {
                            if k != i {
                                assert(polys@[k] == polys0[k]);
                            } else {
                                assert(is_nonzero(snapshot@[k]));
                            }
                        }
                    }
                    proof {
                        if nonzero_polys(input).len() <= 2 {
                            assert forall|k: int, t: int, j: int| 0 <= k < i implies !#[trigger] is_violation(polys@, k, t, j) by {
                                assert(polys@[k] == polys0[k]);
                                assert(!is_violation(polys0, k, t, j));
                                if 0 <= j < n {
                                    assert(is_nonzero(polys@[j]) == is_nonzero(input[j]));
                                    assert(is_nonzero(polys0[j]) == is_nonzero(input[j]));
                                    if is_nonzero(input[j]) {
                                        assert(lm(polys@[j]) == lm(input[j]));
                                        assert(lm(polys0[j]) == lm(input[j]));
                                    }
                                }
                            }
                            assert forall|a: int| 0 <= a < selected@.len() implies useful_reducer(snapshot@, i as int, #[trigger] selected@[a] as int) by {}
                            lemma_selected_clean(input, snapshot@, polys@, i as int, selected@);
                        }
                    }
                    changed += 1;
                } else {
                    proof {
                        if nonzero_polys(input).len() <= 2 {
                            lemma_unselected_clean(*ctx, input, snapshot@, polys@, i as int, selected@);
                        }
                        assert(polys@[i as int] == start[i as int]);
                        assert(pass_elem(*ctx, hl, i as int, polys@[i as int]));
                    }
                }
            } else {
                proof {
                    if nonzero_polys(input).len() <= 2 {
                        lemma_unselected_clean(*ctx, input, snapshot@, polys@, i as int, Seq::<usize>::empty());
                    }
                    assert(polys@[i as int] == start[i as int]);
                    assert(pass_elem(*ctx, hl, i as int, polys@[i as int]));
                }
            }
            i += 1;
        }
        proof {
            assert(pass_result(*ctx, hl, polys@));
            if changed == 0 {
                let (a, t, j) = choose|a: int, t: int, j: int| #[trigger] is_violation(hl, a, t, j);
                lemma_violation_rewrites(hl, a, t, j);
                assert(hl.len() == n);
                assert(!pass_rewrites(hl, a));
                assert(false);
            }
            let h0 = h;
            h = h.push(polys@);
            assert forall|k: int| 0 <= k < h.len() - 1 implies #[trigger] run_step(*ctx, h, k) by {
                if k < h0.len() - 1 {
                    assert(run_step(*ctx, h0, k));
                }
            }
            lemma_same_self(polys@);
        }
        proof {
            swept = true;
            if nonzero_polys(input).len() <= 2 {
                assert forall|k: int, t: int, j: int| !#[trigger] is_violation(polys@, k, t, j) by {
                    if 0 <= k < n {
                        assert(!is_violation(polys@, k, t, j));
                    }
                }
            }
            lemma_lowered_within(*ctx, polys@, snapshot@);
            lemma_copies_within(*ctx, start, snapshot@);
            lemma_ideal_within_trans(*ctx, input, start, snapshot@);
            lemma_ideal_within_trans(*ctx, input, snapshot@, polys@);
        }
        pass += 1;
        if changed == 0 {
            break;
        }
    }
    proof {
        lemma_same_tails_reduced(*ctx, polys@, h.last());
    }
    *gb = polys;
    let violations = find_reduction_violations(gb.as_slice());
    if violations.len() > 0 {
        proof {
            assert(cleanup_gives_up(*ctx, input, h));
            lemma_gives_up_only(*ctx, input, h);
        }
        return Err(PostError::InvariantViolation);
    }
    proof {
        assert(cleanup_reaches(*ctx, input, h));
        lemma_reaches_only(*ctx, input, h);
    }
    Ok(())
}

/// The selected indices other than `i`.
spec fn others(selected: Seq<usize>, i: int) -> Set<int> {
    Set::new(|j: int| 0 <= j && selected.contains(j as usize) && j != i)
}

/// Each selected reducer of element `i` has a smaller leading monomial than element `i`.
proof fn lemma_selected_lower(ctx: RingCtx, basis: Seq<Polynomial>, i: int, selected: Seq<usize>)
    requires
        ctx.wf(),
        all_wf(ctx, basis),
        forall|a: int| 0 <= a < selected.len() ==> useful_reducer(basis, i, #[trigger] selected[a] as int),
        basis.len() <= usize::MAX,
    ensures
        forall|j: int| 0 <= j < basis.len() && #[trigger] others(selected, i).contains(j) ==> lower(ctx, basis, i).contains(j),
{
    let sel = others(selected, i);
    let low = lower(ctx, basis, i);
    assert forall|j: int| 0 <= j < basis.len() && #[trigger] sel.contains(j) implies low.contains(j) by {
        let a = choose|a: int| 0 <= a < selected.len() && selected[a] == j as usize;
        assert(useful_reducer(basis, i, selected[a] as int));
        assert(selected[a] as int == j);
        let t = choose|t: int| 1 <= t < basis[i]@.len() && crate::monomial::spec_divides(lm(basis[j]), (#[trigger] basis[i]@[t]).mono@);
        let x = lm(basis[j]);
        let tm = basis[i]@[t].mono@;
        let l = lm(basis[i]);
        assert(poly_wf(ctx, basis[i]@) && poly_wf(ctx, basis[j]@));
        crate::order::lemma_divides_not_gt(ctx.order, x, tm);
        assert(crate::order::spec_gt(ctx.order, l, tm));
        if x != tm {
            crate::order::lemma_compare_equal(ctx.order, x, tm);
            crate::order::lemma_compare_flip(ctx.order, x, tm);
            crate::order::lemma_compare_trans(ctx.order, l, tm, x);
        }
    }
}

/// Dropping the zero polynomials keeps the ideal: each of `s` and `nonzero_polys(s)` lies in
/// the ideal of the other.
pub proof fn lemma_nonzero_same_ideal(ctx: RingCtx, s: Seq<Polynomial>)
    requires
        ctx.wf(),
        all_wf(ctx, s),
    ensures
        same_ideal(ctx, nonzero_polys(s), s),
{
    let nz = nonzero_polys(s);
    lemma_nonzero_polys(ctx, s);
    lemma_nonzero_drawn(s);
    lemma_ideal_drawn(ctx, nz, s);
    assert forall|j: int| 0 <= j < s.len() implies in_ideal(ctx, nz, (#[trigger] s[j])@) by {
        if is_nonzero(s[j]) {
            lemma_nonzero_contains(s, j);
            let k = choose|k: int| 0 <= k < nz.len() && #[trigger] nz[k] == s[j];
            lemma_ideal_member(ctx, nz, k);
        } else {
            lemma_ideal_zero(ctx, nz, s[j]@);
        }
    }
}

/// A nonzero element of `s` appears in `nonzero_polys(s)`.
pub proof fn lemma_nonzero_contains(s: Seq<Polynomial>, j: int)
    requires
        0 <= j < s.len(),
        is_nonzero(s[j]),
    ensures
        exists|k: int| 0 <= k < nonzero_polys(s).len() && #[trigger] nonzero_polys(s)[k] == s[j],
    decreases s.len(),
{
    let s0 = s.drop_last();
    if j == s.len() - 1 {
        assert(s.last() == s[j]);
        let k = nonzero_polys(s0).len() as int;
        assert(nonzero_polys(s)[k] == s[j]);
    } else {
        assert(s0[j] == s[j]);
        lemma_nonzero_contains(s0, j);
        let k = choose|k: int| 0 <= k < nonzero_polys(s0).len() && #[trigger] nonzero_polys(s0)[k] == s0[j];
        assert(nonzero_polys(s)[k] == nonzero_polys(s0)[k]);
    }
}

/// At most `k` of the first `k` polynomials survive.
pub proof fn lemma_survivors_len(s: Seq<Polynomial>, k: nat)
    ensures
        survivors(s, k).len() <= k,
    decreases k,
{
    if k > 0 {
        lemma_survivors_len(s, (k - 1) as nat);
    }
}

/// Nothing is dropped from a minimal sequence of nonzero polynomials.
pub proof fn lemma_survivors_all(s: Seq<Polynomial>, k: nat)
    requires
        k <= s.len(),
        all_nonzero(s),
        is_minimal(s),
    ensures
        survivors(s, k) == s.take(k as int),
    decreases k,
{
    if k > 0 {
        lemma_survivors_all(s, (k - 1) as nat);
        assert(!redundant(s, k - 1)) by {
            if redundant(s, k - 1) {
                let j = choose|j: int| 0 <= j < s.len() && j != k - 1 && crate::monomial::spec_divides(lm(#[trigger] s[j]), lm(s[k - 1]));
                assert(is_nonzero(s[j]) && is_nonzero(s[k - 1]));
            }
        }
        assert(s.take(k as int) =~= s.take(k - 1).push(s[k - 1]));
    }
}

/// Scaling each element to be monic keeps every monomial, so a tail-reduced sequence
/// stays tail-reduced.
proof fn lemma_monic_tails_reduced(ctx: RingCtx, m: Seq<Polynomial>, s: Seq<Polynomial>)
    requires
        m.len() == s.len(),
        all_nonzero(s),
        tails_reduced(s),
        forall|i: int| 0 <= i < m.len() ==> monic_of(ctx, (#[trigger] m[i])@, s[i]@),
    ensures
        tails_reduced(m),
{
    assert forall|i: int, t: int, j: int| !#[trigger] is_violation(m, i, t, j) by {
        if is_violation(m, i, t, j) {
            assert(monic_of(ctx, m[i]@, s[i]@));
            assert(monic_of(ctx, m[j]@, s[j]@));
            assert(is_nonzero(s[i]) && is_nonzero(s[j]));
            let ci = choose|c: u32| #![trigger (c * s[i]@[0].coeff)] ctx.field.is_elem(c) && (c * s[i]@[0].coeff) % ctx.field.modulus() == 1 && forall|x: int|
                0 <= x < s[i]@.len() ==> (#[trigger] m[i]@[x]).mono@ == s[i]@[x].mono@ && m[i]@[x].coeff == (c * s[i]@[x].coeff) % ctx.field.modulus();
            let cj = choose|c: u32| #![trigger (c * s[j]@[0].coeff)] ctx.field.is_elem(c) && (c * s[j]@[0].coeff) % ctx.field.modulus() == 1 && forall|x: int|
                0 <= x < s[j]@.len() ==> (#[trigger] m[j]@[x]).mono@ == s[j]@[x].mono@ && m[j]@[x].coeff == (c * s[j]@[x].coeff) % ctx.field.modulus();
            assert(m[i]@[t].mono@ == s[i]@[t].mono@);
            assert(m[j]@[0].mono@ == s[j]@[0].mono@);
            assert(is_violation(s, i, t, j));
        }
    }
}

/// Copies with the same terms keep the property of having reduced tails.
proof fn lemma_copies_tails_reduced(ctx: RingCtx, a: Seq<Polynomial>, b: Seq<Polynomial>)
    requires
        a.len() == b.len(),
        tails_reduced(b),
        forall|k: int| 0 <= k < a.len() ==> term_pairs((#[trigger] a[k])@) == term_pairs(b[k]@),
    ensures
        tails_reduced(a),
{
    assert forall|i: int, t: int, j: int| !#[trigger] is_violation(a, i, t, j) by {
        if is_violation(a, i, t, j) {
            lemma_term_pairs_eq(ctx, a[i]@, b[i]@);
            lemma_term_pairs_eq(ctx, a[j]@, b[j]@);
            assert(is_violation(b, i, t, j));
        }
    }
}

/// `m` is the minimized form of `input`: its surviving nonzero elements, made monic.
pub open spec fn minimized_of(ctx: RingCtx, input: Seq<Polynomial>, m: Seq<Polynomial>) -> bool {
    let s = survivors(nonzero_polys(input), nonzero_polys(input).len());
    &&& m.len() == s.len()
    &&& forall|k: int| 0 <= k < m.len() ==> poly_wf(ctx, (#[trigger] m[k])@) && monic_of(ctx, m[k]@, s[k]@)
}

/// `out` is the reverse interreduction of `m`, the minimized form of `input`.
pub open spec fn interreduced_of(ctx: RingCtx, input: Seq<Polynomial>, m: Seq<Polynomial>, out: Seq<Polynomial>) -> bool {
    minimized_of(ctx, input, m) && reverse_results(ctx, nonzero_polys(m), out)
}

/// Interreduces a Gröbner basis in place: zero elements are removed, the basis is
/// minimized and made monic, and every tail is reduced by the other leading monomials.
pub fn reduce_in_place(ctx: &RingCtx, gb: &mut Vec<Polynomial>) -> (r: Result<(), PostError>)
    requires
        ctx.wf(),
        all_wf(*ctx, old(gb)@),
    ensures
        r matches Err(e) ==> e == PostError::Reduce(ReduceError::Polynomial(PolynomialError::Monomial(MonomialError::ExponentOverflow))) || e == PostError::InvariantViolation,
        r is Ok ==> exists|m: Seq<Polynomial>, out: Seq<Polynomial>| #[trigger] interreduced_of(*ctx, old(gb)@, m, out)
            && (tails_reduced(nonzero_polys(out)) && final(gb)@ == nonzero_polys(out)
                || exists|h: Seq<Seq<Polynomial>>| #[trigger] cleanup_reaches(*ctx, nonzero_polys(out), h) && same_reducers(final(gb)@, h.last())),
        r == Err::<(), PostError>(PostError::InvariantViolation) ==> exists|m: Seq<Polynomial>, out: Seq<Polynomial>| #[trigger] interreduced_of(*ctx, old(gb)@, m, out)
            && exists|h: Seq<Seq<Polynomial>>| #[trigger] cleanup_gives_up(*ctx, nonzero_polys(out), h) && same_reducers(final(gb)@, h.last()),
        r == Err::<(), PostError>(PostError::Reduce(ReduceError::Polynomial(PolynomialError::Monomial(MonomialError::ExponentOverflow)))) ==> exists|m: Seq<Polynomial>| #[trigger] minimized_of(*ctx, old(gb)@, m)
            && ((forall|out: Seq<Polynomial>| !#[trigger] reverse_results(*ctx, nonzero_polys(m), out))
                || exists|out: Seq<Polynomial>, h: Seq<Seq<Polynomial>>| #[trigger] reverse_results(*ctx, nonzero_polys(m), out) && #[trigger] cleanup_overflows(*ctx, nonzero_polys(out), h)),
        r is Ok <==> reduce_succeeds(*ctx, old(gb)@),
        r == Err::<(), PostError>(PostError::InvariantViolation) <==> reduce_gives_up(*ctx, old(gb)@),
        r == Err::<(), PostError>(PostError::Reduce(ReduceError::Polynomial(PolynomialError::Monomial(MonomialError::ExponentOverflow)))) <==> reduce_overflows(*ctx, old(gb)@),
        nonzero_polys(old(gb)@).len() == 0 ==> (r is Ok && final(gb)@.len() == 0),
        nonzero_polys(old(gb)@).len() <= 1 ==> r is Ok,
        nonzero_polys(old(gb)@).len() <= 2 ==> r != Err::<(), PostError>(PostError::InvariantViolation),
        is_minimal(nonzero_polys(old(gb)@)) && tails_reduced(nonzero_polys(old(gb)@)) ==> r is Ok,
        ctx.order == MonomialOrder::Grevlex && degrees_fit(old(gb)@) ==> (r matches Err(e) ==> e == PostError::InvariantViolation),
        ctx.order == MonomialOrder::Grevlex && degrees_fit(old(gb)@) && nonzero_polys(old(gb)@).len() <= 2 ==> r is Ok,
        r is Ok ==> {
            let s = survivors(nonzero_polys(old(gb)@), nonzero_polys(old(gb)@).len());
            &&& all_wf(*ctx, final(gb)@)
            &&& all_nonzero(final(gb)@)
            &&& is_minimal(final(gb)@)
            &&& tails_reduced(final(gb)@)
            &&& final(gb)@.len() == s.len()
            &&& forall|k: int| 0 <= k < s.len() ==> lm(#[trigger] final(gb)@[k]) == lm(s[k])
            &&& forall|k: int| 0 <= k < final(gb)@.len() ==> (#[trigger] final(gb)@[k])@[0].coeff == 1
            &&& ideal_within(*ctx, final(gb)@, old(gb)@)
            &&& same_ideal(*ctx, final(gb)@, s)
        },
{
    let ghost input = gb@;
    let input_len = gb.len();
    proof {
        assert(input.len() == input_len);
        lemma_reduce_outcome_unique(*ctx, input);
    }
    remove_zero_polys(gb);
    let ghost nz = gb@;
    proof {
        lemma_nonzero_polys(*ctx, input);
        lemma_nonzero_drawn(input);
        lemma_ideal_drawn(*ctx, nz, input);
        assert(all_nonzero(nz));
        lemma_nonzero_polys_all(nz);
    }
    if gb.len() == 0 {
        proof {
            assert(survivors(nz, 0) =~= Seq::<Polynomial>::empty());
            let e = Seq::<Polynomial>::empty();
            assert(nonzero_polys(e) == e);
            assert(tails_reduced(e));
            assert(interreduced_of(*ctx, input, e, e));
        }
        return Ok(());
    }
    match minimize_in_place(ctx, gb) {
        Ok(()) => {},
        Err(e) => return Err(e),
    }
    let ghost minimized = gb@;
    let ghost s = survivors(nz, nz.len());
    proof {
        assert forall|k: int| 0 <= k < minimized.len() implies is_nonzero(#[trigger] minimized[k]) && lm(minimized[k]) == lm(s[k]) by {
            assert(monic_of(*ctx, minimized[k]@, s[k]@));
        }
        assert(all_nonzero(minimized));
        lemma_nonzero_polys_all(minimized);
        if is_minimal(nz) && tails_reduced(nz) {
            lemma_survivors_all(nz, nz.len());
            assert(s =~= nz);
            lemma_monic_tails_reduced(*ctx, minimized, nz);
        }
        if ctx.order == MonomialOrder::Grevlex && degrees_fit(input) {
            lemma_survivors_drawn(nz, nz.len());
            assert forall|k: int| 0 <= k < minimized.len() && is_nonzero(#[trigger] minimized[k]) implies exp_sum(lm(minimized[k])) <= u32::MAX by {
                assert(element_of(nz, s[k]));
                let j = choose|j: int| 0 <= j < nz.len() && #[trigger] nz[j] == s[k];
                assert(element_of(input, nz[j]));
                let a = choose|a: int| 0 <= a < input.len() && #[trigger] input[a] == nz[j];
                assert(is_nonzero(nz[j]));
            }
        }
    }
    match assert_minimal_leading_monomials(gb.as_slice()) {
        Ok(()) => {},
        Err(e) => return Err(e),
    }
    proof {
        if nz.len() <= 1 {
            lemma_survivors_len(nz, nz.len());
        }
    }
    proof {
        assert(nonzero_polys(input) == nz);
        assert(minimized_of(*ctx, input, minimized));
    }
    match reverse_tail_interreduce(ctx, gb) {
        Ok(()) => {},
        Err(e) => {
            proof {
                assert forall|out: Seq<Polynomial>| !#[trigger] reverse_results(*ctx, nonzero_polys(minimized), out) by {}
            }
            return Err(e);
        },
    }
    let ghost reversed = gb@;
    proof {
        lemma_nonzero_polys_all(reversed);
        assert(interreduced_of(*ctx, input, minimized, reversed));
    }
    remove_zero_polys(gb);
    let ghost cleaned = gb@;
    proof {
        if nz.len() <= 1 {
            lemma_survivors_len(nz, nz.len());
            assert(cleaned.len() <= 1);
            assert forall|i: int, t: int, j: int| !#[trigger] is_violation(cleaned, i, t, j) by {}
        }
        if is_minimal(nz) && tails_reduced(nz) {
            lemma_copies_tails_reduced(*ctx, cleaned, minimized);
        }
        if nz.len() <= 2 {
            lemma_survivors_len(nz, nz.len());
            lemma_nonzero_polys_all(cleaned);
            assert(nonzero_polys(cleaned).len() <= 2);
        }
        if ctx.order == MonomialOrder::Grevlex && degrees_fit(input) {
            assert forall|k: int| 0 <= k < cleaned.len() && is_nonzero(#[trigger] cleaned[k]) implies exp_sum(lm(cleaned[k])) <= u32::MAX by {
                assert(is_nonzero(minimized[k]) && lm(cleaned[k]) == lm(minimized[k]));
            }
        }
    }
    proof {
        lemma_ideal_within_trans(*ctx, minimized, nz, input);
        lemma_ideal_within_trans(*ctx, reversed, minimized, input);
        lemma_ideal_within_self(*ctx, cleaned);
    }
    let violations = find_reduction_violations(gb.as_slice());
    if violations.len() > 0 {
        match selective_tail_cleanup(ctx, gb) {
            Ok(()) => {},
            Err(e) => {
                proof {
                    if e == PostError::Reduce(ReduceError::Polynomial(PolynomialError::Monomial(MonomialError::ExponentOverflow))) {
                        let h = choose|h: Seq<Seq<Polynomial>>| #[trigger] cleanup_overflows(*ctx, cleaned, h);
                        assert(reverse_results(*ctx, nonzero_polys(minimized), reversed) && cleanup_overflows(*ctx, nonzero_polys(reversed), h));
                    }
                }
                return Err(e);
            },
        }
    }
    proof {
        lemma_ideal_within_trans(*ctx, gb@, cleaned, input);
        if violations.len() == 0 {
            lemma_ideal_within_self(*ctx, cleaned);
        }
        assert(same_ideal(*ctx, gb@, cleaned));
        assert(same_ideal(*ctx, cleaned, minimized));
        lemma_survivors_drawn(nz, nz.len());
        assert(all_wf(*ctx, s)) by {
            assert forall|x: int| 0 <= x < s.len() implies poly_wf(*ctx, (#[trigger] s[x])@) by {
                assert(element_of(nz, s[x]));
                let j = choose|j: int| 0 <= j < nz.len() && #[trigger] nz[j] == s[x];
            }
        }
        lemma_same_ideal_trans(*ctx, gb@, cleaned, minimized);
        lemma_same_ideal_trans(*ctx, gb@, minimized, s);
    }
    match assert_fully_reduced_basis(gb.as_slice()) {
        Ok(()) => {},
        Err(e) => return Err(e),
    }
    proof {
        let f = gb@;
        assert(same_heads(f, minimized)) by {
            assert forall|k: int| 0 <= k < f.len() implies (is_nonzero(#[trigger] f[k]) <==> is_nonzero(minimized[k])) && (is_nonzero(f[k]) ==> lm(f[k]) == lm(minimized[k])) by {
                assert(is_nonzero(reversed[k]) && lm(reversed[k]) == lm(minimized[k]));
            }
        }
        lemma_minimal_same_heads(f, minimized);
        assert forall|k: int| 0 <= k < s.len() implies lm(#[trigger] f[k]) == lm(s[k]) by {
            assert(is_nonzero(minimized[k]));
        }
    }
    Ok(())
}

} // verus!
