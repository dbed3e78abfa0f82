//! The passes of the selective tail cleanup, as relations between bases.

use vstd::prelude::*;

use crate::division::{lemma_division_start, same_reducers};
use crate::f4::types::is_nonzero;
use crate::polynomial::{poly_wf, term_pairs, Polynomial, Term};
use crate::post::reduction::MAX_CLEANUP_PASSES;
use crate::post::tail::{
    by_length, kept_indices, lemma_by_length_len, lemma_by_length_same, lemma_tail_result_fits,
    lemma_tail_result_same, lemma_tail_result_unique, tail_fits, tail_result, useful_list,
    useful_reducer,
};
use crate::post::validate::{is_violation, tails_reduced};
use crate::ring::RingCtx;

verus! {

/// The reducers of `s[i]` in a pass: the elements that can reduce one of its tail terms,
/// ordered by term count.
pub open spec fn pass_reducers(s: Seq<Polynomial>, i: int) -> Seq<Polynomial> {
    let sel = useful_list(s, i, s.len());
    let kept = kept_indices(sel, i as usize, sel.len());
    by_length(s, kept, kept.len())
}

/// A pass rewrites `s[i]`: it is nonzero and another element can reduce its tail.
pub open spec fn pass_rewrites(s: Seq<Polynomial>, i: int) -> bool {
    is_nonzero(s[i]) && useful_list(s, i, s.len()).len() > 0
}

/// `q` is what a pass over `s` makes of `s[i]`: its tail reduced by its reducers when the
/// pass rewrites it, else the same polynomial.
pub open spec fn pass_elem(ctx: RingCtx, s: Seq<Polynomial>, i: int, q: Polynomial) -> bool {
    &&& poly_wf(ctx, q@)
    &&& if pass_rewrites(s, i) {
        tail_result(ctx, pass_reducers(s, i), s[i]@, q@)
    } else {
        term_pairs(q@) == term_pairs(s[i]@)
    }
}

/// `t` is one pass over `s`: each element reduced against `s` itself, not against the
/// elements already rewritten in the pass.
pub open spec fn pass_result(ctx: RingCtx, s: Seq<Polynomial>, t: Seq<Polynomial>) -> bool {
    &&& t.len() == s.len()
    &&& forall|i: int| 0 <= i < s.len() ==> #[trigger] pass_elem(ctx, s, i, t[i])
}

/// Every tail division of a pass over `s` fits.
pub open spec fn pass_fits(ctx: RingCtx, s: Seq<Polynomial>) -> bool {
    forall|i: int| 0 <= i < s.len() && #[trigger] pass_rewrites(s, i) ==> tail_fits(ctx, pass_reducers(s, i), s[i]@)
}

/// Step `k` of a run: state `k` still has a violation and state `k + 1` is a pass over it.
pub open spec fn run_step(ctx: RingCtx, h: Seq<Seq<Polynomial>>, k: int) -> bool {
    !tails_reduced(h[k]) && pass_result(ctx, h[k], h[k + 1])
}

/// `h` is a run of cleanup passes from `input`.
pub open spec fn cleanup_run(ctx: RingCtx, input: Seq<Polynomial>, h: Seq<Seq<Polynomial>>) -> bool {
    &&& h.len() > 0
    &&& h[0] == input
    &&& forall|k: int| 0 <= k < h.len() - 1 ==> #[trigger] run_step(ctx, h, k)
}

/// The run reaches a basis without violations within the allowed passes.
pub open spec fn cleanup_reaches(ctx: RingCtx, input: Seq<Polynomial>, h: Seq<Seq<Polynomial>>) -> bool {
    &&& cleanup_run(ctx, input, h)
    &&& h.len() <= MAX_CLEANUP_PASSES + 1
    &&& tails_reduced(h.last())
}

/// The run uses every allowed pass and violations remain.
pub open spec fn cleanup_gives_up(ctx: RingCtx, input: Seq<Polynomial>, h: Seq<Seq<Polynomial>>) -> bool {
    &&& cleanup_run(ctx, input, h)
    &&& h.len() == MAX_CLEANUP_PASSES + 1
    &&& !tails_reduced(h.last())
}

/// The run stops at a basis with violations whose next pass has a tail division that does
/// not fit.
pub open spec fn cleanup_overflows(ctx: RingCtx, input: Seq<Polynomial>, h: Seq<Seq<Polynomial>>) -> bool {
    &&& cleanup_run(ctx, input, h)
    &&& h.len() <= MAX_CLEANUP_PASSES
    &&& !tails_reduced(h.last())
    &&& !pass_fits(ctx, h.last())
}

/// The useful reducers are at most `n` indices below `n`.
pub proof fn lemma_useful_list_bounds(s: Seq<Polynomial>, i: int, n: nat)
    requires
        n <= usize::MAX,
    ensures
        useful_list(s, i, n).len() <= n,
        forall|x: int| 0 <= x < useful_list(s, i, n).len() ==> (#[trigger] useful_list(s, i, n)[x]) < n && useful_reducer(s, i, useful_list(s, i, n)[x] as int),
    decreases n,
{
    if n > 0 {
        lemma_useful_list_bounds(s, i, (n - 1) as nat);
        let prev = useful_list(s, i, (n - 1) as nat);
        if useful_reducer(s, i, n - 1) {
            assert(((n - 1) as usize) as int == n - 1);
            assert forall|x: int| 0 <= x < useful_list(s, i, n).len() implies (#[trigger] useful_list(s, i, n)[x]) < n && useful_reducer(s, i, useful_list(s, i, n)[x] as int) by {
                if x < prev.len() {
                    assert(useful_list(s, i, n)[x] == prev[x]);
                }
            }
        }
    }
}

/// An index with a useful reducer below `n` has a nonempty list of useful reducers.
proof fn lemma_useful_list_nonempty(s: Seq<Polynomial>, i: int, j: int, n: nat)
    requires
        useful_reducer(s, i, j),
        0 <= j < n,
    ensures
        useful_list(s, i, n).len() > 0,
    decreases n,
{
    if j < n - 1 {
        lemma_useful_list_nonempty(s, i, j, (n - 1) as nat);
    }
}

/// An element with a violation is rewritten by the next pass.
pub proof fn lemma_violation_rewrites(s: Seq<Polynomial>, i: int, t: int, j: int)
    requires
        is_violation(s, i, t, j),
    ensures
        pass_rewrites(s, i),
{
    assert(is_nonzero(s[i]));
    assert(useful_reducer(s, i, j));
    lemma_useful_list_nonempty(s, i, j, s.len());
}

/// The kept entries are at most `a` entries of `sel`, each below any bound of `sel`.
pub proof fn lemma_kept_bounds(sel: Seq<usize>, i: usize, a: nat, bound: int)
    requires
        a <= sel.len(),
        forall|x: int| 0 <= x < sel.len() ==> (#[trigger] sel[x]) < bound,
    ensures
        kept_indices(sel, i, a).len() <= a,
        forall|x: int| 0 <= x < kept_indices(sel, i, a).len() ==> (#[trigger] kept_indices(sel, i, a)[x]) < bound,
    decreases a,
{
    if a > 0 {
        lemma_kept_bounds(sel, i, (a - 1) as nat, bound);
    }
}

/// Usefulness depends only on the terms of the elements.
proof fn lemma_useful_same(ctx: RingCtx, s1: Seq<Polynomial>, s2: Seq<Polynomial>, i: int, n: nat)
    requires
        same_reducers(s1, s2),
        n <= s1.len(),
        0 <= i < s1.len(),
    ensures
        useful_list(s1, i, n) == useful_list(s2, i, n),
    decreases n,
{
    if n > 0 {
        lemma_useful_same(ctx, s1, s2, i, (n - 1) as nat);
        let j = n - 1;
        crate::polynomial::lemma_term_pairs_eq(ctx, s1[i]@, s2[i]@);
        crate::polynomial::lemma_term_pairs_eq(ctx, s1[j]@, s2[j]@);
        assert(useful_reducer(s1, i, j) == useful_reducer(s2, i, j)) by {
            if useful_reducer(s1, i, j) {
                let t = choose|t: int| 1 <= t < s1[i]@.len() && crate::monomial::spec_divides(crate::f4::types::lm(s1[j]), (#[trigger] s1[i]@[t]).mono@);
                assert(s2[i]@[t].mono@ == s1[i]@[t].mono@);
            }
            if useful_reducer(s2, i, j) {
                let t = choose|t: int| 1 <= t < s2[i]@.len() && crate::monomial::spec_divides(crate::f4::types::lm(s2[j]), (#[trigger] s2[i]@[t]).mono@);
                assert(s2[i]@[t].mono@ == s1[i]@[t].mono@);
            }
        }
    }
}

/// Copies with the same terms are interchangeable as the polynomial whose tail is reduced.
pub proof fn lemma_tail_start(ctx: RingCtx, rs: Seq<Polynomial>, g1: Seq<Term>, g2: Seq<Term>, q: Seq<Term>)
    requires
        term_pairs(g1) == term_pairs(g2),
    ensures
        tail_fits(ctx, rs, g1) == tail_fits(ctx, rs, g2),
        tail_result(ctx, rs, g1, q) == tail_result(ctx, rs, g2, q),
{
    crate::polynomial::lemma_term_pairs_eq(ctx, g1, g2);
    if g1.len() > 0 {
        let sub1 = g1.subrange(1, g1.len() as int);
        let sub2 = g2.subrange(1, g2.len() as int);
        assert forall|k: int| 0 <= k < sub1.len() implies #[trigger] term_pairs(sub1)[k] == term_pairs(sub2)[k] by {
            assert(g1[k + 1].coeff == g2[k + 1].coeff && g1[k + 1].mono@ == g2[k + 1].mono@);
        }
        assert(term_pairs(sub1) =~= term_pairs(sub2));
        lemma_division_start(ctx, rs, sub1, sub2);
        assert(g1[0].coeff == g2[0].coeff && g1[0].mono@ == g2[0].mono@);
    }
}

/// A pass treats copies with the same terms alike.
pub proof fn lemma_pass_transfer(ctx: RingCtx, s1: Seq<Polynomial>, s2: Seq<Polynomial>, i: int)
    requires
        same_reducers(s1, s2),
        s1.len() <= usize::MAX,
        0 <= i < s1.len(),
    ensures
        useful_list(s1, i, s1.len()) == useful_list(s2, i, s2.len()),
        pass_rewrites(s1, i) == pass_rewrites(s2, i),
        tail_fits(ctx, pass_reducers(s1, i), s1[i]@) == tail_fits(ctx, pass_reducers(s2, i), s2[i]@),
        forall|q: Seq<Term>| tail_result(ctx, pass_reducers(s1, i), s1[i]@, q) == tail_result(ctx, pass_reducers(s2, i), s2[i]@, q),
{
    let n = s1.len();
    lemma_useful_same(ctx, s1, s2, i, n);
    let sel = useful_list(s1, i, n);
    lemma_useful_list_bounds(s1, i, n);
    let kept = kept_indices(sel, i as usize, sel.len());
    lemma_kept_bounds(sel, i as usize, sel.len(), n as int);
    assert(same_reducers(s2, s1)) by {
        assert forall|k: int| 0 <= k < s2.len() implies term_pairs((#[trigger] s2[k])@) == term_pairs(s1[k]@) by {
            assert(term_pairs(s1[k]@) == term_pairs(s2[k]@));
        }
    }
    lemma_by_length_same(s1, s2, kept, kept.len());
    lemma_by_length_same(s2, s1, kept, kept.len());
    let r1 = pass_reducers(s1, i);
    let r2 = pass_reducers(s2, i);
    lemma_by_length_len(s1, kept, kept.len());
    lemma_by_length_len(s2, kept, kept.len());
    assert(term_pairs(s1[i]@) == term_pairs(s2[i]@));
    crate::polynomial::lemma_term_pairs_eq(ctx, s1[i]@, s2[i]@);
    assert forall|q: Seq<Term>| tail_result(ctx, r1, s1[i]@, q) == tail_result(ctx, r2, s2[i]@, q) by {
        lemma_tail_result_same(ctx, r1, r2, s1[i]@, q);
        lemma_tail_result_same(ctx, r2, r1, s1[i]@, q);
        lemma_tail_start(ctx, r2, s1[i]@, s2[i]@, q);
    }
    lemma_tail_result_same(ctx, r1, r2, s1[i]@, s1[i]@);
    lemma_tail_result_same(ctx, r2, r1, s1[i]@, s1[i]@);
    lemma_tail_start(ctx, r2, s1[i]@, s2[i]@, s1[i]@);
}

/// A pass has one result, up to copies: passes over copies give copies.
pub proof fn lemma_pass_unique(ctx: RingCtx, s1: Seq<Polynomial>, s2: Seq<Polynomial>, t1: Seq<Polynomial>, t2: Seq<Polynomial>)
    requires
        ctx.wf(),
        same_reducers(s1, s2),
        s1.len() <= usize::MAX,
        pass_result(ctx, s1, t1),
        pass_result(ctx, s2, t2),
    ensures
        same_reducers(t1, t2),
{
    assert forall|i: int| 0 <= i < t1.len() implies term_pairs((#[trigger] t1[i])@) == term_pairs(t2[i]@) by {
        lemma_pass_transfer(ctx, s1, s2, i);
        assert(pass_elem(ctx, s1, i, t1[i]));
        assert(pass_elem(ctx, s2, i, t2[i]));
        if pass_rewrites(s1, i) {
            assert(tail_result(ctx, pass_reducers(s2, i), s2[i]@, t1[i]@));
            lemma_tail_result_unique(ctx, pass_reducers(s2, i), s2[i]@, t1[i]@, t2[i]@);
        } else {
            assert(term_pairs(s1[i]@) == term_pairs(s2[i]@));
        }
    }
}

/// A pass exists only where its tail divisions fit.
pub proof fn lemma_pass_result_fits(ctx: RingCtx, s: Seq<Polynomial>, t: Seq<Polynomial>)
    requires
        pass_result(ctx, s, t),
    ensures
        pass_fits(ctx, s),
{
    assert forall|i: int| 0 <= i < s.len() && #[trigger] pass_rewrites(s, i) implies tail_fits(ctx, pass_reducers(s, i), s[i]@) by {
        assert(pass_elem(ctx, s, i, t[i]));
        lemma_tail_result_fits(ctx, pass_reducers(s, i), s[i]@, t[i]@);
    }
}

/// Copies with the same terms have the same violations.
pub proof fn lemma_same_tails_reduced(ctx: RingCtx, a: Seq<Polynomial>, b: Seq<Polynomial>)
    requires
        same_reducers(a, b),
    ensures
        tails_reduced(a) == tails_reduced(b),
{
    assert forall|i: int, t: int, j: int| #[trigger] is_violation(a, i, t, j) == is_violation(b, i, t, j) by {
        if 0 <= i < a.len() && 0 <= j < a.len() {
            assert(term_pairs(a[i]@) == term_pairs(b[i]@));
            assert(term_pairs(a[j]@) == term_pairs(b[j]@));
            crate::polynomial::lemma_term_pairs_eq(ctx, a[i]@, b[i]@);
            crate::polynomial::lemma_term_pairs_eq(ctx, a[j]@, b[j]@);
            if is_violation(a, i, t, j) {
                assert(a[j]@[0].mono@ == b[j]@[0].mono@);
                assert(a[i]@[t].mono@ == b[i]@[t].mono@);
                assert(is_violation(b, i, t, j));
            }
            if is_violation(b, i, t, j) {
                assert(a[j]@[0].mono@ == b[j]@[0].mono@);
                assert(a[i]@[t].mono@ == b[i]@[t].mono@);
                assert(is_violation(a, i, t, j));
            }
        }
    }
    if tails_reduced(a) {
        assert forall|i: int, t: int, j: int| !#[trigger] is_violation(b, i, t, j) by {
            assert(!is_violation(a, i, t, j));
        }
    }
    if tails_reduced(b) {
        assert forall|i: int, t: int, j: int| !#[trigger] is_violation(a, i, t, j) by {
            assert(!is_violation(b, i, t, j));
        }
    }
}

/// Two runs from one input agree, state by state, up to copies.
pub proof fn lemma_runs_agree(ctx: RingCtx, input: Seq<Polynomial>, h1: Seq<Seq<Polynomial>>, h2: Seq<Seq<Polynomial>>, k: int)
    requires
        ctx.wf(),
        input.len() <= usize::MAX,
        cleanup_run(ctx, input, h1),
        cleanup_run(ctx, input, h2),
        0 <= k < h1.len(),
        k < h2.len(),
    ensures
        h1[k].len() == input.len(),
        same_reducers(h1[k], h2[k]),
    decreases k,
{
    if k > 0 {
        lemma_runs_agree(ctx, input, h1, h2, k - 1);
        assert(run_step(ctx, h1, k - 1));
        assert(run_step(ctx, h2, k - 1));
        lemma_pass_unique(ctx, h1[k - 1], h2[k - 1], h1[k], h2[k]);
    }
}

/// The outcome of the cleanup is determined by its input: no input both reaches a basis
/// without violations and gives up or overflows, and none both gives up and overflows.
pub proof fn lemma_cleanup_outcome_unique(ctx: RingCtx, input: Seq<Polynomial>, h1: Seq<Seq<Polynomial>>, h2: Seq<Seq<Polynomial>>)
    requires
        ctx.wf(),
        input.len() <= usize::MAX,
        cleanup_run(ctx, input, h1),
        cleanup_run(ctx, input, h2),
    ensures
        !(cleanup_reaches(ctx, input, h1) && cleanup_gives_up(ctx, input, h2)),
        !(cleanup_reaches(ctx, input, h1) && cleanup_overflows(ctx, input, h2)),
        !(cleanup_gives_up(ctx, input, h1) && cleanup_overflows(ctx, input, h2)),
{
    let m1 = h1.len() - 1;
    let m2 = h2.len() - 1;
    if cleanup_reaches(ctx, input, h1) && (cleanup_gives_up(ctx, input, h2) || cleanup_overflows(ctx, input, h2)) {
        if m1 <= m2 {
            lemma_runs_agree(ctx, input, h1, h2, m1);
            lemma_same_tails_reduced(ctx, h1[m1], h2[m1]);
            if m1 < m2 {
                assert(run_step(ctx, h2, m1));
            }
        } else {
            lemma_runs_agree(ctx, input, h1, h2, m2);
            assert(run_step(ctx, h1, m2));
            lemma_pass_result_fits(ctx, h1[m2], h1[m2 + 1]);
            assert forall|i: int| 0 <= i < h2[m2].len() && #[trigger] pass_rewrites(h2[m2], i) implies tail_fits(ctx, pass_reducers(h2[m2], i), h2[m2][i]@) by {
                lemma_pass_transfer(ctx, h1[m2], h2[m2], i);
            }
            if cleanup_gives_up(ctx, input, h2) {
                assert(false);
            }
        }
    }
    if cleanup_gives_up(ctx, input, h1) && cleanup_overflows(ctx, input, h2) {
        lemma_runs_agree(ctx, input, h1, h2, m2);
        assert(run_step(ctx, h1, m2));
        lemma_pass_result_fits(ctx, h1[m2], h1[m2 + 1]);
        assert forall|i: int| 0 <= i < h2[m2].len() && #[trigger] pass_rewrites(h2[m2], i) implies tail_fits(ctx, pass_reducers(h2[m2], i), h2[m2][i]@) by {
            lemma_pass_transfer(ctx, h1[m2], h2[m2], i);
        }
    }
}

/// A run that reaches a basis without violations rules out the other outcomes.
pub proof fn lemma_reaches_only(ctx: RingCtx, input: Seq<Polynomial>, h: Seq<Seq<Polynomial>>)
    requires
        ctx.wf(),
        input.len() <= usize::MAX,
        cleanup_reaches(ctx, input, h),
    ensures
        forall|h2: Seq<Seq<Polynomial>>| !cleanup_gives_up(ctx, input, h2) && !cleanup_overflows(ctx, input, h2),
{
    assert forall|h2: Seq<Seq<Polynomial>>| !cleanup_gives_up(ctx, input, h2) && !cleanup_overflows(ctx, input, h2) by {
        if cleanup_run(ctx, input, h2) {
            lemma_cleanup_outcome_unique(ctx, input, h, h2);
        }
    }
}

/// A run that gives up rules out the other outcomes.
pub proof fn lemma_gives_up_only(ctx: RingCtx, input: Seq<Polynomial>, h: Seq<Seq<Polynomial>>)
    requires
        ctx.wf(),
        input.len() <= usize::MAX,
        cleanup_gives_up(ctx, input, h),
    ensures
        forall|h2: Seq<Seq<Polynomial>>| !cleanup_reaches(ctx, input, h2) && !cleanup_overflows(ctx, input, h2),
{
    assert forall|h2: Seq<Seq<Polynomial>>| !cleanup_reaches(ctx, input, h2) && !cleanup_overflows(ctx, input, h2) by {
        if cleanup_run(ctx, input, h2) {
            lemma_cleanup_outcome_unique(ctx, input, h2, h);
            lemma_cleanup_outcome_unique(ctx, input, h, h2);
        }
    }
}

/// A run whose next pass does not fit rules out the other outcomes.
pub proof fn lemma_overflows_only(ctx: RingCtx, input: Seq<Polynomial>, h: Seq<Seq<Polynomial>>)
    requires
        ctx.wf(),
        input.len() <= usize::MAX,
        cleanup_overflows(ctx, input, h),
    ensures
        forall|h2: Seq<Seq<Polynomial>>| !cleanup_reaches(ctx, input, h2) && !cleanup_gives_up(ctx, input, h2),
{
    assert forall|h2: Seq<Seq<Polynomial>>| !cleanup_reaches(ctx, input, h2) && !cleanup_gives_up(ctx, input, h2) by {
        if cleanup_run(ctx, input, h2) {
            lemma_cleanup_outcome_unique(ctx, input, h2, h);
        }
    }
}

/// A basis is a copy of itself.
pub proof fn lemma_same_self(s: Seq<Polynomial>)
    ensures
        same_reducers(s, s),
{
}

/// Copies of copies are copies.
pub proof fn lemma_same_trans(a: Seq<Polynomial>, b: Seq<Polynomial>, c: Seq<Polynomial>)
    requires
        same_reducers(a, b),
        same_reducers(b, c),
    ensures
        same_reducers(a, c),
{
    assert forall|k: int| 0 <= k < a.len() implies term_pairs((#[trigger] a[k])@) == term_pairs(c[k]@) by {
        assert(term_pairs(a[k]@) == term_pairs(b[k]@));
        assert(term_pairs(b[k]@) == term_pairs(c[k]@));
    }
}

/// A run from `a` is, with its first state replaced, a run from a copy `b` of `a`, and ends
/// in a copy of where it ended.
proof fn lemma_run_copy(ctx: RingCtx, a: Seq<Polynomial>, b: Seq<Polynomial>, h: Seq<Seq<Polynomial>>)
    requires
        same_reducers(a, b),
        a.len() <= usize::MAX,
        cleanup_run(ctx, a, h),
    ensures
        cleanup_run(ctx, b, h.update(0, b)),
        tails_reduced(h.last()) == tails_reduced(h.update(0, b).last()),
        pass_fits(ctx, h.last()) == pass_fits(ctx, h.update(0, b).last()),
{
    let h2 = h.update(0, b);
    lemma_same_tails_reduced(ctx, a, b);
    if h.len() > 1 {
        assert(run_step(ctx, h, 0));
        assert(pass_result(ctx, b, h[1])) by {
            assert forall|i: int| 0 <= i < b.len() implies #[trigger] pass_elem(ctx, b, i, h[1][i]) by {
                lemma_pass_transfer(ctx, a, b, i);
                assert(pass_elem(ctx, a, i, h[1][i]));
                assert(term_pairs(a[i]@) == term_pairs(b[i]@));
            }
        }
        assert forall|k: int| 0 <= k < h2.len() - 1 implies #[trigger] run_step(ctx, h2, k) by {
            if k == 0 {
                assert(h2[0] == b && h2[1] == h[1]);
            } else {
                assert(run_step(ctx, h, k));
                assert(h2[k] == h[k] && h2[k + 1] == h[k + 1]);
            }
        }
        assert(h2.last() == h.last());
    } else {
        assert(h2.last() == b && h.last() == a);
        assert forall|i: int| 0 <= i < a.len() implies #[trigger] pass_rewrites(a, i) == pass_rewrites(b, i)
            && (tail_fits(ctx, pass_reducers(a, i), a[i]@) == tail_fits(ctx, pass_reducers(b, i), b[i]@)) by {
            lemma_pass_transfer(ctx, a, b, i);
        }
        if pass_fits(ctx, a) {
            assert forall|i: int| 0 <= i < b.len() && #[trigger] pass_rewrites(b, i) implies tail_fits(ctx, pass_reducers(b, i), b[i]@) by {
                assert(pass_rewrites(a, i));
            }
        }
        if pass_fits(ctx, b) {
            assert forall|i: int| 0 <= i < a.len() && #[trigger] pass_rewrites(a, i) implies tail_fits(ctx, pass_reducers(a, i), a[i]@) by {
                assert(pass_rewrites(b, i));
            }
        }
    }
}

/// Copies of an input have the same cleanup outcome.
pub proof fn lemma_cleanup_outcome_copy(ctx: RingCtx, a: Seq<Polynomial>, b: Seq<Polynomial>)
    requires
        same_reducers(a, b),
        a.len() <= usize::MAX,
    ensures
        (exists|h: Seq<Seq<Polynomial>>| #[trigger] cleanup_reaches(ctx, a, h)) ==> exists|h: Seq<Seq<Polynomial>>| #[trigger] cleanup_reaches(ctx, b, h),
        (exists|h: Seq<Seq<Polynomial>>| #[trigger] cleanup_gives_up(ctx, a, h)) ==> exists|h: Seq<Seq<Polynomial>>| #[trigger] cleanup_gives_up(ctx, b, h),
        (exists|h: Seq<Seq<Polynomial>>| #[trigger] cleanup_overflows(ctx, a, h)) ==> exists|h: Seq<Seq<Polynomial>>| #[trigger] cleanup_overflows(ctx, b, h),
{
    if exists|h: Seq<Seq<Polynomial>>| #[trigger] cleanup_reaches(ctx, a, h) {
        let h = choose|h: Seq<Seq<Polynomial>>| #[trigger] cleanup_reaches(ctx, a, h);
        lemma_run_copy(ctx, a, b, h);
        assert(cleanup_reaches(ctx, b, h.update(0, b)));
    }
    if exists|h: Seq<Seq<Polynomial>>| #[trigger] cleanup_gives_up(ctx, a, h) {
        let h = choose|h: Seq<Seq<Polynomial>>| #[trigger] cleanup_gives_up(ctx, a, h);
        lemma_run_copy(ctx, a, b, h);
        assert(cleanup_gives_up(ctx, b, h.update(0, b)));
    }
    if exists|h: Seq<Seq<Polynomial>>| #[trigger] cleanup_overflows(ctx, a, h) {
        let h = choose|h: Seq<Seq<Polynomial>>| #[trigger] cleanup_overflows(ctx, a, h);
        lemma_run_copy(ctx, a, b, h);
        assert(cleanup_overflows(ctx, b, h.update(0, b)));
    }
}

} // verus!
