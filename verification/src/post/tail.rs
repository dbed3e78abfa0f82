//! Tail interreduction of Gröbner bases.

use vstd::prelude::*;

use crate::f4::symbolic::materialize::all_wf;
use crate::f4::symbolic::reducers::reduces;
use crate::f4::types::{is_nonzero, lm};
use crate::monomial::{divides, exp_sum, spec_divides, Monomial};
use crate::order::MonomialOrder;
use crate::polynomial::{added, coeff_sum, lemma_coeff_sum_wf, lemma_added_terms, lemma_coeff_sum_append, lemma_coeff_sum_single, lemma_term_pairs_eq, lemma_wf_subrange, poly_wf, term_pairs, Polynomial, Term};
use crate::order::spec_gt;
use crate::post::error::PostError;

use crate::monomial::MonomialError;
use crate::polynomial::PolynomialError;
use crate::reduce::{ReduceError, lemma_congruent_canonical, fully_reduced, bounded_by, combination, congruent_mod, congruent_mod_by, copy_in, lemma_mod_move_step, lemma_witness_transfer, normal_form, reducible_by, reduction_witness};
use crate::division::{division_fits, is_remainder, lemma_division_empty, lemma_division_same, lemma_division_start, same_reducers};
use crate::ring::RingCtx;

verus! {

/// The tail terms of `p` (all but the leading one) are not divisible by the leading
/// monomial of any nonzero polynomial of `reducers`.
pub open spec fn tail_reduced_by(reducers: Seq<Polynomial>, p: Polynomial) -> bool {
    forall|t: int| 1 <= t < p@.len() ==> !reducible_by(reducers, (#[trigger] p@[t]).mono@)
}

/// `m` is the monomial of a term of `s`.
pub open spec fn mono_in(s: Seq<Term>, m: Seq<u32>) -> bool {
    exists|k: int| 0 <= k < s.len() && (#[trigger] s[k]).mono@ == m
}

/// Some tail term of `basis[i]` is divisible by the leading monomial of `basis[j]`.
pub open spec fn useful_reducer(basis: Seq<Polynomial>, i: int, j: int) -> bool {
    &&& 0 <= i < basis.len()
    &&& 0 <= j < basis.len()
    &&& i != j
    &&& is_nonzero(basis[i])
    &&& is_nonzero(basis[j])
    &&& exists|t: int| 1 <= t < basis[i]@.len() && spec_divides(lm(basis[j]), (#[trigger] basis[i]@[t]).mono@)
}

/// The indices `j < n` with `useful_reducer(basis, i, j)`, in increasing order.
pub open spec fn useful_list(basis: Seq<Polynomial>, i: int, n: nat) -> Seq<usize>
    decreases n,
{
    if n == 0 {
        Seq::empty()
    } else if useful_reducer(basis, i, n - 1) {
        useful_list(basis, i, (n - 1) as nat).push((n - 1) as usize)
    } else {
        useful_list(basis, i, (n - 1) as nat)
    }
}

/// A zero element has no useful reducer.
pub proof fn lemma_useful_list_zero(basis: Seq<Polynomial>, i: int, n: nat)
    requires
        0 <= i < basis.len(),
        !is_nonzero(basis[i]),
    ensures
        useful_list(basis, i, n) == Seq::<usize>::empty(),
    decreases n,
{
    if n > 0 {
        lemma_useful_list_zero(basis, i, (n - 1) as nat);
    }
}

/// Indices `j` of the other nonzero elements whose leading monomial divides a tail term of
/// `basis[i]`, in increasing order; empty when `basis[i]` is zero.
pub fn selected_tail_reducer_indices(basis: &[Polynomial], i: usize) -> (r: Vec<usize>)
    requires
        i < basis@.len(),
    ensures
        r@ == useful_list(basis@, i as int, basis@.len()),
        forall|a: int, b: int| 0 <= a < b < r@.len() ==> r@[a] < r@[b],
        forall|a: int| 0 <= a < r@.len() ==> useful_reducer(basis@, i as int, #[trigger] r@[a] as int),
        forall|j: int| useful_reducer(basis@, i as int, j) ==> r@.contains(j as usize),
{
    let mut selected: Vec<usize> = Vec::new();
    if basis[i].is_zero() {
        proof {
            lemma_useful_list_zero(basis@, i as int, basis@.len());
        }
        return selected;
    }
    let terms = basis[i].terms();
    let mut j: usize = 0;
    while j < basis.len()
        invariant
            i < basis@.len(),
            terms@ == basis@[i as int]@,
            is_nonzero(basis@[i as int]),
            j <= basis@.len(),
            forall|a: int, b: int| 0 <= a < b < selected@.len() ==> selected@[a] < selected@[b],
            forall|a: int| 0 <= a < selected@.len() ==> selected@[a] < j && useful_reducer(basis@, i as int, #[trigger] selected@[a] as int),
            forall|k: int| 0 <= k < j && useful_reducer(basis@, i as int, k) ==> selected@.contains(k as usize),
            selected@ == useful_list(basis@, i as int, j as nat),
        decreases basis@.len() - j,
    {
        let u = is_useful_reducer(basis, i, j);
        let ghost sel0 = selected@;
        if u {
            selected.push(j);
        }
        proof {
            assert forall|k: int| 0 <= k < j + 1 && useful_reducer(basis@, i as int, k) implies selected@.contains(k as usize) by {
                if k == j {
                    assert(selected@[selected@.len() - 1] == j);
                } else {
                    let x = choose|x: int| 0 <= x < sel0.len() && sel0[x] == k as usize;
                    assert(selected@[x] == k as usize);
                }
            }
        }
        j += 1;
    }
    selected
}

/// Whether `basis[j]` can reduce a tail term of `basis[i]`.
fn is_useful_reducer(basis: &[Polynomial], i: usize, j: usize) -> (b: bool)
    requires
        i < basis@.len(),
        j < basis@.len(),
    ensures
        b == useful_reducer(basis@, i as int, j as int),
{
    if i == j || basis[i].is_zero() {
        return false;
    }
    let terms = basis[i].terms();
    match basis[j].leading_mono() {
        Some(lmj) => {
            let mut t: usize = 1;
            while t < terms.len()
                invariant
                    terms@ == basis@[i as int]@,
                    i < basis@.len(),
                    i != j,
                    is_nonzero(basis@[i as int]),
                    j < basis@.len(),
                    is_nonzero(basis@[j as int]),
                    *lmj == basis@[j as int]@[0].mono,
                    1 <= t,
                    forall|tt: int| 1 <= tt < t && tt < terms@.len() ==> !spec_divides(lm(basis@[j as int]), (#[trigger] basis@[i as int]@[tt]).mono@),
                decreases terms@.len() - t,
            {
                if divides(lmj, &terms[t].mono) {
                    return true;
                }
                t += 1;
            }
            false
        },
        None => false,
    }
}

/// An equal copy of a term.
fn copy_term(t: &Term) -> (r: Term)
    ensures
        r.coeff == t.coeff,
        r.mono@ == t.mono@,
{
    Term { coeff: t.coeff, mono: t.mono.duplicate() }
}

/// Splits a nonzero polynomial into its leading monomial, its leading term and its tail.
fn split_leading_term(ctx: &RingCtx, p: &Polynomial) -> (r: Result<(Monomial, Term, Polynomial), PostError>)
    requires
        ctx.wf(),
        poly_wf(*ctx, p@),
    ensures
        p@.len() == 0 ==> r == Err::<(Monomial, Term, Polynomial), PostError>(PostError::ZeroPolynomialInReduction),
        p@.len() > 0 ==> (r matches Ok((m, t, tail)) && m@ == p@[0].mono@ && t.coeff == p@[0].coeff && t.mono@ == p@[0].mono@
            && poly_wf(*ctx, tail@) && term_pairs(tail@) == term_pairs(p@.subrange(1, p@.len() as int))),
{
    let lead = match p.leading_term() {
        Some(t) => copy_term(t),
        None => return Err(PostError::ZeroPolynomialInReduction),
    };
    let lm = lead.mono.duplicate();
    let tail = p.tail();
    proof {
        lemma_wf_subrange(*ctx, p@, 1, p@.len() as int);
        lemma_term_pairs_eq(*ctx, tail@, p@.subrange(1, p@.len() as int));
    }
    Ok((lm, lead, tail))
}

/// Puts the leading term back on a reduced tail. The tail stays below the leading monomial,
/// so the check that the leading monomial is unchanged always passes.
fn finish_tail_reduction(ctx: &RingCtx, previous_leading_mono: &Monomial, previous_leading_term: Term, reduced_tail: Polynomial) -> (r: Result<Polynomial, PostError>)
    requires
        ctx.wf(),
        poly_wf(*ctx, reduced_tail@),
        ctx.field.is_elem(previous_leading_term.coeff),
        previous_leading_term.mono@.len() == ctx.nvars,
        previous_leading_term.mono@ == previous_leading_mono@,
        0 < previous_leading_term.coeff,
        forall|t: int| 0 <= t < reduced_tail@.len() ==> spec_gt(ctx.order, previous_leading_mono@, (#[trigger] reduced_tail@[t]).mono@),
    ensures
        r is Ok,
        r matches Ok(q) ==> poly_wf(*ctx, q@) && q@.len() > 0 && q@[0].mono@ == previous_leading_mono@ && forall|t: int|
            1 <= t < q@.len() ==> mono_in(reduced_tail@, (#[trigger] q@[t]).mono@),
        r matches Ok(q) ==> added(*ctx, reduced_tail@, q@, previous_leading_term.coeff, previous_leading_mono@),
        r is Err ==> r == Err::<Polynomial, PostError>(PostError::LeadingMonomialChangedDuringReduction),
{
    let ghost tail0 = reduced_tail@;
    let mut result = reduced_tail;
    assert(result@ == tail0);
    let c = previous_leading_term.coeff;
    let m = previous_leading_term.mono;
    result.add_term(ctx, c, m);
    proof {
        lemma_added_terms(*ctx, tail0, result@, c, previous_leading_mono@);
        let mv = previous_leading_mono@;
        let p = ctx.field.modulus();
        assert forall|k: int| 0 <= k < tail0.len() implies (#[trigger] tail0[k]).mono@ != mv by {
            assert(spec_gt(ctx.order, mv, tail0[k].mono@));
            crate::order::lemma_compare_equal(ctx.order, mv, tail0[k].mono@);
        }
        lemma_coeff_sum_wf(*ctx, tail0, mv);
        assert(coeff_sum(tail0, mv) == 0);
        assert(coeff_sum(result@, mv) == (0 + c as int) % p);
        vstd::arithmetic::div_mod::lemma_small_mod(c as nat, p as nat);
        lemma_coeff_sum_wf(*ctx, result@, mv);
        let k = choose|k: int| 0 <= k < result@.len() && (#[trigger] result@[k]).mono@ == mv;
        if k > 0 {
            assert(spec_gt(ctx.order, result@[0].mono@, result@[k].mono@));
            if result@[0].mono@ != mv {
                let j = choose|j: int| 0 <= j < tail0.len() && tail0[j].mono@ == result@[0].mono@;
                assert(spec_gt(ctx.order, mv, tail0[j].mono@));
                crate::order::lemma_compare_flip(ctx.order, mv, tail0[j].mono@);
            } else {
                crate::order::lemma_compare_equal(ctx.order, result@[0].mono@, result@[k].mono@);
            }
        }
        assert(result@[0].mono@ == mv);
    }
    let same = match result.leading_mono() {
        Some(x) => x.same(previous_leading_mono),
        None => false,
    };
    if !same {
        return Err(PostError::LeadingMonomialChangedDuringReduction);
    }
    proof {
        assert forall|t: int| 1 <= t < result@.len() implies mono_in(tail0, (#[trigger] result@[t]).mono@) by {
            crate::polynomial::lemma_wf_distinct(*ctx, result@, 0, t);
            let k = choose|k: int| 0 <= k < tail0.len() && tail0[k].mono@ == result@[t].mono@;
            assert(tail0[k].mono@ == result@[t].mono@);
        }
    }
    Ok(result)
}

/// The indices listed in `indices`.
pub open spec fn index_set(indices: Seq<usize>) -> Set<int> {
    Set::new(|j: int| exists|a: int| 0 <= a < indices.len() && indices[a] as int == j)
}

/// A congruence by fewer reducers holds by more.
proof fn lemma_congruent_widen(ctx: RingCtx, basis: Seq<Polynomial>, small: Set<int>, big: Set<int>, f: Seq<Term>, q: Seq<Term>)
    requires
        congruent_mod_by(ctx, basis, small, f, q),
        small.subset_of(big),
    ensures
        congruent_mod_by(ctx, basis, big, f, q),
{
    let steps = choose|steps: Seq<(int, Seq<u32>, int)>|
        #[trigger] reduction_witness(ctx, basis, f, q, steps) && forall|k: int| 0 <= k < steps.len() ==> small.contains(#[trigger] steps[k].2);
    assert forall|k: int| 0 <= k < steps.len() implies big.contains(#[trigger] steps[k].2) by {
        assert(small.contains(steps[k].2));
    }
}

/// A polynomial is congruent to a copy of itself, with no step.
proof fn lemma_congruent_copy(ctx: RingCtx, basis: Seq<Polynomial>, allowed: Set<int>, f: Seq<Term>, q: Seq<Term>)
    requires
        ctx.wf(),
        term_pairs(f) == term_pairs(q),
    ensures
        congruent_mod_by(ctx, basis, allowed, f, q),
{
    let steps = Seq::<(int, Seq<u32>, int)>::empty();
    lemma_term_pairs_eq(ctx, f, q);
    assert forall|x: Seq<u32>| (coeff_sum(f, x) - coeff_sum(q, x) - #[trigger] combination(basis, steps, x)) % ctx.field.modulus() == 0 by {
        assert(combination(basis, steps, x) == 0);
        assert(coeff_sum(f, x) == coeff_sum(q, x));
        assert(ctx.field.modulus() > 0);
        assert(0int % ctx.field.modulus() == 0);
    }
    assert(reduction_witness(ctx, basis, f, q, steps));
}

/// Putting the leading term back on both sides keeps a congruence of tails.
proof fn lemma_congruent_lead(ctx: RingCtx, r: Seq<Polynomial>, gi: Seq<Term>, tail: Seq<Term>, rt: Seq<Term>, q: Seq<Term>, steps: Seq<(int, Seq<u32>, int)>)
    requires
        ctx.wf(),
        poly_wf(ctx, gi),
        gi.len() > 0,
        term_pairs(tail) == term_pairs(gi.subrange(1, gi.len() as int)),
        reduction_witness(ctx, r, tail, rt, steps),
        added(ctx, rt, q, gi[0].coeff, gi[0].mono@),
    ensures
        reduction_witness(ctx, r, gi, q, steps),
{
    let p = ctx.field.modulus();
    let m = gi[0].mono@;
    let c = gi[0].coeff;
    lemma_term_pairs_eq(ctx, tail, gi.subrange(1, gi.len() as int));
    assert forall|x: Seq<u32>| (coeff_sum(gi, x) - coeff_sum(q, x) - #[trigger] combination(r, steps, x)) % p == 0 by {
        let d = if x == m { c as int } else { 0int };
        assert(gi =~= seq![gi[0]] + gi.subrange(1, gi.len() as int));
        lemma_coeff_sum_append(seq![gi[0]], gi.subrange(1, gi.len() as int), x);
        lemma_coeff_sum_single(gi[0], x);
        assert(coeff_sum(gi, x) == d + coeff_sum(tail, x));
        assert(coeff_sum(q, x) == (coeff_sum(rt, x) + d) % p);
        lemma_mod_move_step(p, coeff_sum(tail, x) - coeff_sum(rt, x) - combination(r, steps, x), coeff_sum(rt, x), d);
    }
}

/// Putting the leading term back on a reduced tail, whose monomials are at most the tail's
/// leading one, keeps the leading coefficient.
proof fn lemma_lead_coeff_kept(ctx: RingCtx, gi: Seq<Term>, tail: Seq<Term>, rt: Seq<Term>, q: Seq<Term>)
    requires
        ctx.wf(),
        poly_wf(ctx, gi),
        gi.len() > 1,
        term_pairs(tail) == term_pairs(gi.subrange(1, gi.len() as int)),
        poly_wf(ctx, rt),
        bounded_by(ctx.order, rt, tail[0].mono@),
        poly_wf(ctx, q),
        q.len() > 0,
        q[0].mono@ == gi[0].mono@,
        added(ctx, rt, q, gi[0].coeff, gi[0].mono@),
    ensures
        q[0].coeff == gi[0].coeff,
{
    let m = gi[0].mono@;
    assert(term_pairs(tail).len() == tail.len());
    assert(term_pairs(gi.subrange(1, gi.len() as int)).len() == gi.len() - 1);
    assert(tail.len() == gi.len() - 1);
    assert(gi.subrange(1, gi.len() as int)[0] == gi[1]);
    assert(term_pairs(tail)[0] == term_pairs(gi.subrange(1, gi.len() as int))[0]);
    assert(tail[0].mono@ == gi[1].mono@);
    assert(spec_gt(ctx.order, gi[0].mono@, gi[1].mono@));
    assert forall|k: int| 0 <= k < rt.len() implies (#[trigger] rt[k]).mono@ != m by {
        assert(!spec_gt(ctx.order, rt[k].mono@, tail[0].mono@));
    }
    lemma_coeff_sum_wf(ctx, rt, m);
    lemma_coeff_sum_wf(ctx, q, m);
    assert(coeff_sum(q, m) == (coeff_sum(rt, m) + gi[0].coeff) % ctx.field.modulus());
    vstd::arithmetic::div_mod::lemma_small_mod(gi[0].coeff as nat, ctx.field.modulus() as nat);
}

/// `p` is a copy of a nonzero `basis[j]` for some `j` in `indices`.
pub open spec fn copy_of_some(basis: Seq<Polynomial>, indices: Seq<usize>, p: Polynomial) -> bool {
    exists|a: int| 0 <= a < indices.len() && is_nonzero(basis[indices[a] as int]) && term_pairs(p@) == term_pairs(basis[#[trigger] indices[a] as int]@)
}

/// Position at or after `k` where a polynomial of `len` terms goes into `s`: before the
/// first element with more terms.
pub open spec fn insert_pos(s: Seq<Polynomial>, len: nat, k: int) -> int
    decreases s.len() - k,
{
    if k < 0 || k >= s.len() {
        s.len() as int
    } else if s[k]@.len() > len {
        k
    } else {
        insert_pos(s, len, k + 1)
    }
}

/// The nonzero polynomials `basis[j]`, `j` among the first `a` entries of `indices`, ordered
/// by term count; equal counts keep the order of `indices`.
pub open spec fn by_length(basis: Seq<Polynomial>, indices: Seq<usize>, a: nat) -> Seq<Polynomial>
    decreases a,
{
    if a == 0 {
        Seq::empty()
    } else {
        let prev = by_length(basis, indices, (a - 1) as nat);
        let g = basis[indices[a - 1] as int];
        if is_nonzero(g) {
            prev.insert(insert_pos(prev, g@.len(), 0), g)
        } else {
            prev
        }
    }
}

proof fn lemma_insert_pos_range(s: Seq<Polynomial>, len: nat, k: int)
    requires
        0 <= k <= s.len(),
    ensures
        k <= insert_pos(s, len, k) <= s.len(),
    decreases s.len() - k,
{
    if k < s.len() && s[k]@.len() <= len {
        lemma_insert_pos_range(s, len, k + 1);
    }
}

/// Copies of the nonzero polynomials `basis[j]` for `j` in `indices`, ordered by term
/// count; equal counts keep the order of `indices`.
fn reducers_by_length(basis: &[Polynomial], indices: &Vec<usize>) -> (r: Vec<Polynomial>)
    requires
        forall|a: int| 0 <= a < indices@.len() ==> #[trigger] indices@[a] < basis@.len(),
    ensures
        forall|k: int| 0 <= k < r@.len() ==> copy_of_some(basis@, indices@, #[trigger] r@[k]),
        forall|a: int| 0 <= a < indices@.len() && is_nonzero(basis@[#[trigger] indices@[a] as int]) ==> exists|k: int| 0 <= k < r@.len() && term_pairs(r@[k]@) == term_pairs(basis@[indices@[a] as int]@),
        same_reducers(r@, by_length(basis@, indices@, indices@.len())),
{
    let mut out: Vec<Polynomial> = Vec::new();
    let mut a: usize = 0;
    while a < indices.len()
        invariant
            a <= indices@.len(),
            forall|x: int| 0 <= x < indices@.len() ==> #[trigger] indices@[x] < basis@.len(),
            forall|k: int| 0 <= k < out@.len() ==> copy_of_some(basis@, indices@, #[trigger] out@[k]),
            forall|x: int| 0 <= x < a && is_nonzero(basis@[#[trigger] indices@[x] as int]) ==> exists|k: int| 0 <= k < out@.len() && term_pairs(out@[k]@) == term_pairs(basis@[indices@[x] as int]@),
            same_reducers(out@, by_length(basis@, indices@, a as nat)),
        decreases indices@.len() - a,
    {
        let j = indices[a];
        let g = &basis[j];
        if !g.is_zero() {
            let len = g.len();
            let ghost prev = by_length(basis@, indices@, a as nat);
            let mut pos: usize = 0;
            while pos < out.len() && out[pos].len() <= len
                invariant
                    pos <= out@.len(),
                    same_reducers(out@, prev),
                    len == g@.len(),
                    insert_pos(prev, len as nat, 0) == insert_pos(prev, len as nat, pos as int),
                decreases out@.len() - pos,
            {
                proof {
                    assert(term_pairs(out@[pos as int]@) == term_pairs(prev[pos as int]@));
                    assert(term_pairs(out@[pos as int]@).len() == out@[pos as int]@.len());
                    assert(term_pairs(prev[pos as int]@).len() == prev[pos as int]@.len());
                }
                pos += 1;
            }
            proof {
                if pos < out@.len() {
                    assert(term_pairs(out@[pos as int]@) == term_pairs(prev[pos as int]@));
                    assert(term_pairs(out@[pos as int]@).len() == out@[pos as int]@.len());
                    assert(term_pairs(prev[pos as int]@).len() == prev[pos as int]@.len());
                }
                assert(insert_pos(prev, len as nat, 0) == pos as int);
            }
            let copy = g.duplicate();
            let ghost out0 = out@;
            proof {
                assert(term_pairs(copy@) =~= term_pairs(g@));
            }
            out.insert(pos, copy);
            proof {
                let next = by_length(basis@, indices@, (a + 1) as nat);
                assert(indices@[a as int] == j);
                assert(next == prev.insert(pos as int, *g));
                assert forall|k: int| 0 <= k < out@.len() implies term_pairs((#[trigger] out@[k])@) == term_pairs(next[k]@) by {
                    if k < pos {
                        assert(out@[k] == out0[k] && next[k] == prev[k]);
                    } else if k == pos {
                        assert(next[k] == *g);
                    } else {
                        assert(out@[k] == out0[k - 1] && next[k] == prev[k - 1]);
                    }
                }
                assert(same_reducers(out@, next));
                assert forall|k: int| 0 <= k < out@.len() implies copy_of_some(basis@, indices@, #[trigger] out@[k]) by {
                    if k < pos {
                        assert(out@[k] == out0[k]);
                    } else if k == pos {
                        assert(indices@[a as int] == j);
                        assert(term_pairs(out@[k]@) == term_pairs(basis@[indices@[a as int] as int]@));
                    } else {
                        assert(out@[k] == out0[k - 1]);
                    }
                }
                assert forall|x: int| 0 <= x < a + 1 && is_nonzero(basis@[#[trigger] indices@[x] as int]) implies exists|k: int| 0 <= k < out@.len() && term_pairs(out@[k]@) == term_pairs(basis@[indices@[x] as int]@) by {
                    if x == a {
                        assert(out@[pos as int] == copy);
                    } else {
                        let k = choose|k: int| 0 <= k < out0.len() && term_pairs(out0[k]@) == term_pairs(basis@[indices@[x] as int]@);
                        if k < pos {
                            assert(out@[k] == out0[k]);
                        } else {
                            assert(out@[k + 1] == out0[k]);
                        }
                    }
                }
            }
        }
        a += 1;
    }
    out
}

proof fn lemma_reducible_copies(basis: Seq<Polynomial>, indices: Seq<usize>, r: Seq<Polynomial>, m: Seq<u32>)
    requires
        forall|a: int| 0 <= a < indices.len() ==> #[trigger] indices[a] < basis.len(),
        forall|a: int| 0 <= a < indices.len() && is_nonzero(basis[#[trigger] indices[a] as int]) ==> exists|k: int| 0 <= k < r.len() && term_pairs(r[k]@) == term_pairs(basis[indices[a] as int]@),
        !reducible_by(r, m),
    ensures
        forall|a: int| 0 <= a < indices.len() ==> !reduces(basis[#[trigger] indices[a] as int], m),
{
    assert forall|a: int| 0 <= a < indices.len() implies !reduces(basis[#[trigger] indices[a] as int], m) by {
        if reduces(basis[indices[a] as int], m) {
            let k = choose|k: int| 0 <= k < r.len() && term_pairs(r[k]@) == term_pairs(basis[indices[a] as int]@);
            assert(term_pairs(r[k]@)[0] == term_pairs(basis[indices[a] as int]@)[0]);
            assert(r[k]@.len() == term_pairs(r[k]@).len());
            assert(reduces(r[k], m));
        }
    }
}

proof fn lemma_copies_wf(ctx: RingCtx, basis: Seq<Polynomial>, indices: Seq<usize>, r: Seq<Polynomial>)
    requires
        all_wf(ctx, basis),
        forall|a: int| 0 <= a < indices.len() ==> #[trigger] indices[a] < basis.len(),
        forall|k: int| 0 <= k < r.len() ==> copy_of_some(basis, indices, #[trigger] r[k]),
    ensures
        all_wf(ctx, r),
{
    assert forall|k: int| 0 <= k < r.len() implies poly_wf(ctx, (#[trigger] r[k])@) by {
        assert(copy_of_some(basis, indices, r[k]));
        let a = choose|a: int| 0 <= a < indices.len() && is_nonzero(basis[indices[a] as int]) && term_pairs(r[k]@) == term_pairs(basis[#[trigger] indices[a] as int]@);
        assert(poly_wf(ctx, basis[indices[a] as int]@));
        lemma_term_pairs_eq(ctx, r[k]@, basis[indices[a] as int]@);
    }
}

/// When no listed polynomial reduces a tail term of `gi`, no copy of one reduces a term of
/// the tail.
proof fn lemma_tail_fully_reduced(gi: Seq<Term>, tail: Polynomial, basis: Seq<Polynomial>, indices: Seq<usize>, reducers: Seq<Polynomial>)
    requires
        gi.len() > 0,
        term_pairs(tail@) == term_pairs(gi.subrange(1, gi.len() as int)),
        forall|k: int| 0 <= k < reducers.len() ==> copy_of_some(basis, indices, #[trigger] reducers[k]),
        forall|t: int, a: int| 1 <= t < gi.len() && 0 <= a < indices.len() ==> !reduces(basis[#[trigger] indices[a] as int], (#[trigger] gi[t]).mono@),
    ensures
        fully_reduced(reducers, tail),
{
    assert forall|t: int| 0 <= t < tail@.len() implies !reducible_by(reducers, (#[trigger] tail@[t]).mono@) by {
        assert(term_pairs(tail@).len() == tail@.len());
        assert(term_pairs(tail@)[t] == term_pairs(gi.subrange(1, gi.len() as int))[t]);
        assert(gi.subrange(1, gi.len() as int)[t] == gi[t + 1]);
        let m = tail@[t].mono@;
        assert(m == gi[t + 1].mono@);
        if reducible_by(reducers, m) {
            let k = choose|k: int| 0 <= k < reducers.len() && reduces(#[trigger] reducers[k], m);
            assert(copy_of_some(basis, indices, reducers[k]));
            let a = choose|a: int| 0 <= a < indices.len() && is_nonzero(basis[indices[a] as int]) && term_pairs(reducers[k]@) == term_pairs(basis[#[trigger] indices[a] as int]@);
            assert(term_pairs(reducers[k]@)[0] == term_pairs(basis[indices[a] as int]@)[0]);
            assert(reduces(basis[indices[a] as int], gi[t + 1].mono@));
        }
    }
}

/// A tail left unchanged by the reduction gives back the polynomial itself once the leading
/// term is put back.
proof fn lemma_unchanged_tail(ctx: RingCtx, r: Seq<Polynomial>, gi: Seq<Term>, tail: Seq<Term>, rt: Seq<Term>, q: Seq<Term>)
    requires
        ctx.wf(),
        poly_wf(ctx, gi),
        poly_wf(ctx, q),
        gi.len() > 0,
        term_pairs(tail) == term_pairs(gi.subrange(1, gi.len() as int)),
        term_pairs(rt) == term_pairs(tail),
        added(ctx, rt, q, gi[0].coeff, gi[0].mono@),
    ensures
        term_pairs(q) == term_pairs(gi),
{
    let p = ctx.field.modulus();
    let steps = Seq::<(int, Seq<u32>, int)>::empty();
    lemma_term_pairs_eq(ctx, rt, tail);
    assert forall|x: Seq<u32>| (coeff_sum(tail, x) - coeff_sum(rt, x) - #[trigger] combination(r, steps, x)) % p == 0 by {
        assert(combination(r, steps, x) == 0);
        assert(0int % p == 0);
    }
    assert(reduction_witness(ctx, r, tail, rt, steps));
    lemma_congruent_lead(ctx, r, gi, tail, rt, q, steps);
    assert forall|x: Seq<u32>| (coeff_sum(gi, x) - coeff_sum(q, x)) % p == 0 by {
        assert(combination(r, steps, x) == 0);
        assert((coeff_sum(gi, x) - coeff_sum(q, x) - combination(r, steps, x)) % p == 0);
    }
    lemma_congruent_canonical(ctx, gi, q);
}

/// The tail of `gi` divides by `reducers` with every multiple fitting.
pub open spec fn tail_fits(ctx: RingCtx, reducers: Seq<Polynomial>, gi: Seq<Term>) -> bool {
    gi.len() > 0 && division_fits(ctx, reducers, gi.subrange(1, gi.len() as int))
}

/// `q` is `gi` with its tail replaced by the remainder of the tail's division by `reducers`.
pub open spec fn tail_result(ctx: RingCtx, reducers: Seq<Polynomial>, gi: Seq<Term>, q: Seq<Term>) -> bool {
    &&& gi.len() > 0
    &&& exists|rem: Seq<Term>| #[trigger] is_remainder(ctx, reducers, gi.subrange(1, gi.len() as int), rem) && added(ctx, rem, q, gi[0].coeff, gi[0].mono@)
}

/// The tail reduction has one result.
pub proof fn lemma_tail_result_unique(ctx: RingCtx, reducers: Seq<Polynomial>, gi: Seq<Term>, q1: Seq<Term>, q2: Seq<Term>)
    requires
        ctx.wf(),
        poly_wf(ctx, q1),
        poly_wf(ctx, q2),
        tail_result(ctx, reducers, gi, q1),
        tail_result(ctx, reducers, gi, q2),
    ensures
        term_pairs(q1) == term_pairs(q2),
{
    let sub = gi.subrange(1, gi.len() as int);
    let r1 = choose|rem: Seq<Term>| #[trigger] is_remainder(ctx, reducers, sub, rem) && added(ctx, rem, q1, gi[0].coeff, gi[0].mono@);
    let r2 = choose|rem: Seq<Term>| #[trigger] is_remainder(ctx, reducers, sub, rem) && added(ctx, rem, q2, gi[0].coeff, gi[0].mono@);
    crate::division::lemma_remainder_unique(ctx, reducers, sub, r1, r2);
    lemma_term_pairs_eq(ctx, r1, r2);
    assert forall|x: Seq<u32>| #[trigger] coeff_sum(q1, x) == coeff_sum(q2, x) by {
        assert(coeff_sum(r1, x) == coeff_sum(r2, x));
    }
    crate::polynomial::lemma_canonical_unique(ctx, q1, q2);
}

/// Reduces the tail of `gi` by `reducers` (copies of nonzero polynomials of `basis`) and
/// puts the leading term back.
fn reduce_tail_with(ctx: &RingCtx, gi: &Polynomial, basis: &[Polynomial], indices: &Vec<usize>) -> (r: Result<Polynomial, PostError>)
    requires
        ctx.wf(),
        poly_wf(*ctx, gi@),
        all_wf(*ctx, basis@),
        forall|a: int| 0 <= a < indices@.len() ==> #[trigger] indices@[a] < basis@.len(),
    ensures
        gi@.len() == 0 ==> r == Err::<Polynomial, PostError>(PostError::ZeroPolynomialInReduction),
        r matches Err(e) ==> (gi@.len() == 0 && e == PostError::ZeroPolynomialInReduction) || e == PostError::Reduce(ReduceError::Polynomial(PolynomialError::Monomial(MonomialError::ExponentOverflow))),
        gi@.len() > 0 && (forall|t: int, a: int| 1 <= t < gi@.len() && 0 <= a < indices@.len() ==> !reduces(basis@[#[trigger] indices@[a] as int], (#[trigger] gi@[t]).mono@))
            ==> (r matches Ok(q) && term_pairs(q@) == term_pairs(gi@)),
        ctx.order == MonomialOrder::Grevlex && gi@.len() > 0 && exp_sum(gi@[0].mono@) <= u32::MAX ==> r is Ok,
        r matches Ok(q) ==> {
            &&& poly_wf(*ctx, q@)
            &&& q@.len() > 0
            &&& q@[0].mono@ == gi@[0].mono@
            &&& forall|t: int, a: int| 1 <= t < q@.len() && 0 <= a < indices@.len() ==> !reduces(basis@[#[trigger] indices@[a] as int], (#[trigger] q@[t]).mono@)
            &&& congruent_mod_by(*ctx, basis@, index_set(indices@), gi@, q@)
            &&& q@[0].coeff == gi@[0].coeff
        },
        gi@.len() == 1 ==> (r matches Ok(q) && term_pairs(q@) == term_pairs(gi@)),
        r is Ok <==> tail_fits(*ctx, by_length(basis@, indices@, indices@.len()), gi@),
        r matches Ok(q) ==> tail_result(*ctx, by_length(basis@, indices@, indices@.len()), gi@, q@),
{
    let ghost rs = by_length(basis@, indices@, indices@.len());
    let ghost sub = gi@.subrange(1, gi@.len() as int);
    let (lm, lt, tail) = match split_leading_term(ctx, gi) {
        Ok(parts) => parts,
        Err(e) => return Err(e),
    };
    proof {
        assert(term_pairs(tail@).len() == tail@.len());
        assert(term_pairs(gi@.subrange(1, gi@.len() as int)).len() == gi@.len() - 1);
    }
    if tail.is_zero() {
        let q = gi.duplicate();
        proof {
            assert(term_pairs(q@) =~= term_pairs(gi@));
            lemma_term_pairs_eq(*ctx, q@, gi@);
            lemma_congruent_copy(*ctx, basis@, index_set(indices@), gi@, q@);
            let e = Seq::<Term>::empty();
            lemma_division_empty(*ctx, rs, sub, e);
            assert forall|x: Seq<u32>| #[trigger] coeff_sum(q@, x) == (coeff_sum(e, x) + (if x == gi@[0].mono@ { gi@[0].coeff as int } else { 0int })) % ctx.field.modulus() by {
                assert(gi@ =~= seq![gi@[0]]);
                lemma_coeff_sum_single(gi@[0], x);
                vstd::arithmetic::div_mod::lemma_small_mod(gi@[0].coeff as nat, ctx.field.modulus() as nat);
                assert(0int % ctx.field.modulus() == 0);
            }
            assert(is_remainder(*ctx, rs, sub, e) && added(*ctx, e, q@, gi@[0].coeff, gi@[0].mono@));
        }
        return Ok(q);
    }
    let reducers = reducers_by_length(basis, indices);
    let ghost untouched = forall|t: int, a: int| 1 <= t < gi@.len() && 0 <= a < indices@.len() ==> !reduces(basis@[#[trigger] indices@[a] as int], (#[trigger] gi@[t]).mono@);
    proof {
        lemma_copies_wf(*ctx, basis@, indices@, reducers@);
        assert(poly_wf(*ctx, gi@));
        if untouched {
            lemma_tail_fully_reduced(gi@, tail, basis@, indices@, reducers@);
        }
    }
    proof {
        if ctx.order == MonomialOrder::Grevlex && exp_sum(gi@[0].mono@) <= u32::MAX {
            assert(term_pairs(tail@)[0] == term_pairs(gi@.subrange(1, gi@.len() as int))[0]);
            assert(tail@[0].mono@ == gi@[1].mono@);
            assert(spec_gt(ctx.order, gi@[0].mono@, gi@[1].mono@));
        }
    }
    let nred = reducers.len();
    proof {
        assert(reducers@.len() == nred);
        assert(same_reducers(rs, reducers@)) by {
            assert forall|k: int| 0 <= k < rs.len() implies term_pairs((#[trigger] rs[k])@) == term_pairs(reducers@[k]@) by {
                assert(term_pairs(reducers@[k]@) == term_pairs(rs[k]@));
            }
        }
        lemma_division_same(*ctx, rs, reducers@, sub);
        lemma_division_same(*ctx, reducers@, rs, sub);
        lemma_division_start(*ctx, reducers@, tail@, sub);
    }
    let reduced_tail = match normal_form(ctx, &tail, &reducers) {
        Ok(x) => x,
        Err(e) => return Err(PostError::Reduce(e)),
    };
    proof {
        assert(is_remainder(*ctx, rs, sub, reduced_tail@));
    }
    let ghost rt = reduced_tail@;
    let ghost lt_coeff = lt.coeff;
    proof {
        let g0 = gi@[0].mono@;
        let t0 = tail@[0].mono@;
        assert(tail@[0].mono@ == gi@[1].mono@) by {
            assert(term_pairs(tail@)[0] == term_pairs(gi@.subrange(1, gi@.len() as int))[0]);
        }
        assert(spec_gt(ctx.order, g0, t0));
        assert forall|t: int| 0 <= t < rt.len() implies spec_gt(ctx.order, lm@, (#[trigger] rt[t]).mono@) by {
            let x = rt[t].mono@;
            assert(!spec_gt(ctx.order, x, t0));
            if x != t0 {
                crate::order::lemma_compare_equal(ctx.order, x, t0);
                crate::order::lemma_compare_flip(ctx.order, x, t0);
                crate::order::lemma_compare_trans(ctx.order, g0, t0, x);
            }
        }
        assert(poly_wf(*ctx, gi@));
    }
    let result = finish_tail_reduction(ctx, &lm, lt, reduced_tail);
    match result {
        Ok(q) => {
            proof {
                let steps = choose|steps: Seq<(int, Seq<u32>, int)>| reduction_witness(*ctx, reducers@, tail@, rt, steps);
                lemma_congruent_lead(*ctx, reducers@, gi@, tail@, rt, q@, steps);
                if untouched {
                    lemma_unchanged_tail(*ctx, reducers@, gi@, tail@, rt, q@);
                }
                assert forall|k: int| 0 <= k < reducers@.len() implies copy_in(basis@, index_set(indices@), #[trigger] reducers@[k]) by {
                    assert(copy_of_some(basis@, indices@, reducers@[k]));
                    let a = choose|a: int| 0 <= a < indices@.len() && is_nonzero(basis@[indices@[a] as int]) && term_pairs(reducers@[k]@) == term_pairs(basis@[#[trigger] indices@[a] as int]@);
                    assert(index_set(indices@).contains(indices@[a] as int));
                }
                lemma_witness_transfer(*ctx, reducers@, basis@, index_set(indices@), gi@, q@, steps);
                lemma_lead_coeff_kept(*ctx, gi@, tail@, rt, q@);
                assert forall|t: int, a: int| 1 <= t < q@.len() && 0 <= a < indices@.len() implies !reduces(basis@[#[trigger] indices@[a] as int], (#[trigger] q@[t]).mono@) by {
                    assert(mono_in(rt, q@[t].mono@));
                    let k = choose|k: int| 0 <= k < rt.len() && (#[trigger] rt[k]).mono@ == q@[t].mono@;
                    assert(!reducible_by(reducers@, rt[k].mono@));
                    lemma_reducible_copies(basis@, indices@, reducers@, q@[t].mono@);
                }
            }
            Ok(q)
        },
        Err(e) => Err(e),
    }
}

/// The indices `0, 1, ..., n - 1`.
pub open spec fn all_indices(n: nat) -> Seq<usize> {
    Seq::new(n, |a: int| a as usize)
}

/// The entries among the first `a` of `selected` that differ from `i`, in order.
pub open spec fn kept_indices(selected: Seq<usize>, i: usize, a: nat) -> Seq<usize>
    decreases a,
{
    if a == 0 {
        Seq::empty()
    } else if selected[a - 1] != i {
        kept_indices(selected, i, (a - 1) as nat).push(selected[a - 1])
    } else {
        kept_indices(selected, i, (a - 1) as nat)
    }
}

/// A one-term polynomial is its own tail reduction.
proof fn lemma_single_term_result(ctx: RingCtx, rs: Seq<Polynomial>, gi: Seq<Term>, q: Seq<Term>)
    requires
        ctx.wf(),
        poly_wf(ctx, gi),
        gi.len() == 1,
        term_pairs(q) == term_pairs(gi),
    ensures
        tail_fits(ctx, rs, gi),
        tail_result(ctx, rs, gi, q),
{
    let sub = gi.subrange(1, gi.len() as int);
    let e = Seq::<Term>::empty();
    lemma_division_empty(ctx, rs, sub, e);
    lemma_term_pairs_eq(ctx, q, gi);
    assert forall|x: Seq<u32>| #[trigger] coeff_sum(q, x) == (coeff_sum(e, x) + (if x == gi[0].mono@ { gi[0].coeff as int } else { 0int })) % ctx.field.modulus() by {
        assert(gi =~= seq![gi[0]]);
        lemma_coeff_sum_single(gi[0], x);
        vstd::arithmetic::div_mod::lemma_small_mod(gi[0].coeff as nat, ctx.field.modulus() as nat);
        assert(0int % ctx.field.modulus() == 0);
    }
    assert(is_remainder(ctx, rs, sub, e) && added(ctx, e, q, gi[0].coeff, gi[0].mono@));
}

/// Reduces the tail of `gi` by all nonzero elements of `reducer_basis`, smallest first;
/// the leading monomial is kept.
pub fn reduce_basis_element_tail_only_with_reducers(ctx: &RingCtx, gi: &Polynomial, reducer_basis: &[Polynomial], i: usize) -> (r: Result<Polynomial, PostError>)
    requires
        ctx.wf(),
        poly_wf(*ctx, gi@),
        all_wf(*ctx, reducer_basis@),
    ensures
        gi@.len() == 0 ==> r == Err::<Polynomial, PostError>(PostError::ZeroPolynomialInReduction),
        r matches Err(e) ==> (gi@.len() == 0 && e == PostError::ZeroPolynomialInReduction) || e == PostError::Reduce(ReduceError::Polynomial(PolynomialError::Monomial(MonomialError::ExponentOverflow))),
        gi@.len() > 0 && tail_reduced_by(reducer_basis@, *gi) ==> (r matches Ok(q) && term_pairs(q@) == term_pairs(gi@)),
        ctx.order == MonomialOrder::Grevlex && gi@.len() > 0 && exp_sum(gi@[0].mono@) <= u32::MAX ==> r is Ok,
        r matches Ok(q) ==> poly_wf(*ctx, q@) && q@.len() > 0 && q@[0].mono@ == gi@[0].mono@ && tail_reduced_by(reducer_basis@, q),
        r matches Ok(q) ==> congruent_mod(*ctx, reducer_basis@, gi@, q@) && q@[0].coeff == gi@[0].coeff,
        gi@.len() == 1 ==> (r matches Ok(q) && term_pairs(q@) == term_pairs(gi@)),
        r is Ok <==> tail_fits(*ctx, by_length(reducer_basis@, all_indices(reducer_basis@.len()), reducer_basis@.len()), gi@),
        r matches Ok(q) ==> tail_result(*ctx, by_length(reducer_basis@, all_indices(reducer_basis@.len()), reducer_basis@.len()), gi@, q@),
{
    let mut indices: Vec<usize> = Vec::new();
    let mut j: usize = 0;
    while j < reducer_basis.len()
        invariant
            j <= reducer_basis@.len(),
            indices@.len() == j,
            forall|a: int| 0 <= a < j ==> #[trigger] indices@[a] == a,
        decreases reducer_basis@.len() - j,
    {
        indices.push(j);
        j += 1;
    }
    proof {
        assert(indices@ =~= all_indices(reducer_basis@.len()));
        if gi@.len() > 0 && tail_reduced_by(reducer_basis@, *gi) {
            assert forall|t: int, a: int| 1 <= t < gi@.len() && 0 <= a < indices@.len() implies !reduces(reducer_basis@[#[trigger] indices@[a] as int], (#[trigger] gi@[t]).mono@) by {
                assert(indices@[a] == a);
                assert(!reducible_by(reducer_basis@, gi@[t].mono@));
            }
        }
    }
    let result = reduce_tail_with(ctx, gi, reducer_basis, &indices);
    proof {
        if let Ok(q) = &result {
            let steps = choose|steps: Seq<(int, Seq<u32>, int)>|
                #[trigger] reduction_witness(*ctx, reducer_basis@, gi@, q@, steps) && forall|k: int| 0 <= k < steps.len() ==> index_set(indices@).contains(#[trigger] steps[k].2);
            assert(congruent_mod(*ctx, reducer_basis@, gi@, q@));
            assert forall|t: int| 1 <= t < q@.len() implies !reducible_by(reducer_basis@, (#[trigger] q@[t]).mono@) by {
                if reducible_by(reducer_basis@, q@[t].mono@) {
                    let x = choose|x: int| 0 <= x < reducer_basis@.len() && reduces(#[trigger] reducer_basis@[x], q@[t].mono@);
                    assert(indices@[x] == x);
                }
            }
        }
    }
    result
}

/// Reduces the tail of `gi` by the nonzero elements `basis[j]`, `j` in `selected` and
/// `j != i`, smallest first; with no selected index the polynomial is returned as is.
pub fn reduce_basis_element_tail_only_with_selected_indices(
    ctx: &RingCtx,
    gi: &Polynomial,
    basis: &[Polynomial],
    i: usize,
    selected: &[usize],
) -> (r: Result<Polynomial, PostError>)
    requires
        ctx.wf(),
        poly_wf(*ctx, gi@),
        all_wf(*ctx, basis@),
        forall|a: int| 0 <= a < selected@.len() ==> #[trigger] selected@[a] < basis@.len(),
    ensures
        gi@.len() == 0 ==> r == Err::<Polynomial, PostError>(PostError::ZeroPolynomialInReduction),
        r matches Err(e) ==> (gi@.len() == 0 && e == PostError::ZeroPolynomialInReduction) || e == PostError::Reduce(ReduceError::Polynomial(PolynomialError::Monomial(MonomialError::ExponentOverflow))),
        gi@.len() > 0 && (gi@.len() == 1 || selected@.len() == 0) ==> (r matches Ok(q) && term_pairs(q@) == term_pairs(gi@)),
        ctx.order == MonomialOrder::Grevlex && gi@.len() > 0 && exp_sum(gi@[0].mono@) <= u32::MAX ==> r is Ok,
        gi@.len() > 0 && (forall|t: int, a: int| 1 <= t < gi@.len() && 0 <= a < selected@.len() && selected@[a] != i ==> !reduces(basis@[#[trigger] selected@[a] as int], (#[trigger] gi@[t]).mono@))
            ==> (r matches Ok(q) && term_pairs(q@) == term_pairs(gi@)),
        r matches Ok(q) ==> poly_wf(*ctx, q@) && q@.len() > 0 && q@[0].mono@ == gi@[0].mono@,
        r matches Ok(q) ==> selected@.len() == 0 && term_pairs(q@) == term_pairs(gi@) || forall|t: int, a: int|
            1 <= t < q@.len() && 0 <= a < selected@.len() && selected@[a] != i ==> !reduces(basis@[#[trigger] selected@[a] as int], (#[trigger] q@[t]).mono@),
        r matches Ok(q) ==> congruent_mod_by(*ctx, basis@, Set::new(|j: int| 0 <= j && selected@.contains(j as usize) && j != i), gi@, q@),
        r matches Ok(q) ==> q@[0].coeff == gi@[0].coeff,
        r is Ok <==> gi@.len() > 0 && (selected@.len() == 0 || tail_fits(*ctx, by_length(basis@, kept_indices(selected@, i, selected@.len()), kept_indices(selected@, i, selected@.len()).len()), gi@)),
        r matches Ok(q) ==> selected@.len() == 0 && term_pairs(q@) == term_pairs(gi@)
            || tail_result(*ctx, by_length(basis@, kept_indices(selected@, i, selected@.len()), kept_indices(selected@, i, selected@.len()).len()), gi@, q@),
{
    let ghost kept = kept_indices(selected@, i, selected@.len());
    let ghost rs = by_length(basis@, kept, kept.len());
    let (_lm, _lt, tail) = match split_leading_term(ctx, gi) {
        Ok(parts) => parts,
        Err(e) => return Err(e),
    };
    proof {
        assert(term_pairs(tail@).len() == tail@.len());
        assert(term_pairs(gi@.subrange(1, gi@.len() as int)).len() == gi@.len() - 1);
    }
    if tail.is_zero() || selected.len() == 0 {
        let q = gi.duplicate();
        proof {
            assert(term_pairs(q@) =~= term_pairs(gi@));
            lemma_term_pairs_eq(*ctx, q@, gi@);
            lemma_congruent_copy(*ctx, basis@, Set::new(|j: int| 0 <= j && selected@.contains(j as usize) && j != i), gi@, q@);
            if tail@.len() == 0 {
                assert(gi@.len() == 1);
                lemma_single_term_result(*ctx, rs, gi@, q@);
            }
        }
        return Ok(q);
    }
    let mut indices: Vec<usize> = Vec::new();
    let mut a: usize = 0;
    while a < selected.len()
        invariant
            a <= selected@.len(),
            forall|x: int| 0 <= x < selected@.len() ==> #[trigger] selected@[x] < basis@.len(),
            forall|x: int| 0 <= x < indices@.len() ==> #[trigger] indices@[x] < basis@.len() && indices@[x] != i,
            forall|x: int| 0 <= x < indices@.len() ==> selected@.contains(#[trigger] indices@[x]),
            forall|x: int| 0 <= x < a && #[trigger] selected@[x] != i ==> indices@.contains(selected@[x]),
            indices@ == kept_indices(selected@, i, a as nat),
        decreases selected@.len() - a,
    {
        let j = selected[a];
        if j != i {
            let ghost ind0 = indices@;
            indices.push(j);
            proof {
                assert forall|x: int| 0 <= x < indices@.len() implies selected@.contains(#[trigger] indices@[x]) by {
                    if x < ind0.len() {
                        assert(indices@[x] == ind0[x]);
                    } else {
                        assert(selected@[a as int] == j);
                    }
                }
                assert forall|x: int| 0 <= x < a + 1 && #[trigger] selected@[x] != i implies indices@.contains(selected@[x]) by {
                    if x == a {
                        assert(indices@[indices@.len() - 1] == j);
                    } else {
                        let y = choose|y: int| 0 <= y < ind0.len() && ind0[y] == selected@[x];
                        assert(indices@[y] == selected@[x]);
                    }
                }
            }
        }
        a += 1;
    }
    proof {
        if forall|t: int, x: int| 1 <= t < gi@.len() && 0 <= x < selected@.len() && selected@[x] != i ==> !reduces(basis@[#[trigger] selected@[x] as int], (#[trigger] gi@[t]).mono@) {
            assert forall|t: int, b: int| 1 <= t < gi@.len() && 0 <= b < indices@.len() implies !reduces(basis@[#[trigger] indices@[b] as int], (#[trigger] gi@[t]).mono@) by {
                assert(selected@.contains(indices@[b]));
                let y = choose|y: int| 0 <= y < selected@.len() && selected@[y] == indices@[b];
                assert(selected@[y] != i);
                assert(!reduces(basis@[selected@[y] as int], gi@[t].mono@));
            }
        }
    }
    let result = reduce_tail_with(ctx, gi, basis, &indices);
    proof {
        if let Ok(q) = &result {
            let allowed = Set::new(|j: int| 0 <= j && selected@.contains(j as usize) && j != i);
            assert(index_set(indices@).subset_of(allowed)) by {
                assert forall|j: int| index_set(indices@).contains(j) implies allowed.contains(j) by {
                    let a = choose|a: int| 0 <= a < indices@.len() && indices@[a] as int == j;
                    assert(selected@.contains(indices@[a]));
                }
            }
            lemma_congruent_widen(*ctx, basis@, index_set(indices@), allowed, gi@, q@);
            assert forall|t: int, x: int| 1 <= t < q@.len() && 0 <= x < selected@.len() && selected@[x] != i implies !reduces(basis@[#[trigger] selected@[x] as int], (#[trigger] q@[t]).mono@) by {
                let y = choose|y: int| 0 <= y < indices@.len() && indices@[y] == selected@[x];
                assert(!reduces(basis@[indices@[y] as int], q@[t].mono@));
            }
        }
    }
    result
}


/// Reducers `0, ..., n - 1` of `rs`, ordered by term count.
pub open spec fn sorted_reducers(rs: Seq<Polynomial>) -> Seq<Polynomial> {
    by_length(rs, all_indices(rs.len()), rs.len())
}

proof fn lemma_insert_pos_same(s1: Seq<Polynomial>, s2: Seq<Polynomial>, len: nat, k: int)
    requires
        same_reducers(s1, s2),
    ensures
        insert_pos(s1, len, k) == insert_pos(s2, len, k),
    decreases s1.len() - k,
{
    if 0 <= k < s1.len() {
        assert(term_pairs(s1[k]@) == term_pairs(s2[k]@));
        assert(term_pairs(s1[k]@).len() == s1[k]@.len() && term_pairs(s2[k]@).len() == s2[k]@.len());
        lemma_insert_pos_same(s1, s2, len, k + 1);
    }
}

/// Ordering copies by term count gives copies of the ordered list.
pub proof fn lemma_by_length_same(b1: Seq<Polynomial>, b2: Seq<Polynomial>, indices: Seq<usize>, a: nat)
    requires
        same_reducers(b1, b2),
        a <= indices.len(),
        forall|x: int| 0 <= x < indices.len() ==> #[trigger] indices[x] < b1.len(),
    ensures
        same_reducers(by_length(b1, indices, a), by_length(b2, indices, a)),
    decreases a,
{
    if a > 0 {
        lemma_by_length_same(b1, b2, indices, (a - 1) as nat);
        let p1 = by_length(b1, indices, (a - 1) as nat);
        let p2 = by_length(b2, indices, (a - 1) as nat);
        let j = indices[a - 1] as int;
        assert(indices[a - 1] < b1.len());
        assert(term_pairs(b1[j]@) == term_pairs(b2[j]@));
        assert(term_pairs(b1[j]@).len() == b1[j]@.len() && term_pairs(b2[j]@).len() == b2[j]@.len());
        if b1[j]@.len() > 0 {
            lemma_insert_pos_same(p1, p2, b1[j]@.len(), 0);
            lemma_insert_pos_range(p1, b1[j]@.len(), 0);
            let pos = insert_pos(p1, b1[j]@.len(), 0);
            let n1 = p1.insert(pos, b1[j]);
            let n2 = p2.insert(pos, b2[j]);
            assert forall|k: int| 0 <= k < n1.len() implies term_pairs((#[trigger] n1[k])@) == term_pairs(n2[k]@) by {
                if k < pos {
                    assert(n1[k] == p1[k] && n2[k] == p2[k]);
                } else if k > pos {
                    assert(n1[k] == p1[k - 1] && n2[k] == p2[k - 1]);
                }
            }
        }
    }
}

/// Sorting copies gives copies.
pub proof fn lemma_sorted_same(r1: Seq<Polynomial>, r2: Seq<Polynomial>)
    requires
        same_reducers(r1, r2),
    ensures
        same_reducers(sorted_reducers(r1), sorted_reducers(r2)),
{
    lemma_by_length_same(r1, r2, all_indices(r1.len()), r1.len());
}

pub proof fn lemma_by_length_len(b: Seq<Polynomial>, indices: Seq<usize>, a: nat)
    ensures
        by_length(b, indices, a).len() <= a,
    decreases a,
{
    if a > 0 {
        lemma_by_length_len(b, indices, (a - 1) as nat);
        let prev = by_length(b, indices, (a - 1) as nat);
        let g = b[indices[a - 1] as int];
        if is_nonzero(g) {
            lemma_insert_pos_range(prev, g@.len(), 0);
        }
    }
}

/// A tail result by some reducers is one by copies of them.
pub proof fn lemma_tail_result_same(ctx: RingCtx, r1: Seq<Polynomial>, r2: Seq<Polynomial>, gi: Seq<Term>, q: Seq<Term>)
    requires
        same_reducers(r1, r2),
        r1.len() <= usize::MAX,
    ensures
        tail_fits(ctx, r1, gi) ==> tail_fits(ctx, r2, gi),
        tail_result(ctx, r1, gi, q) ==> tail_result(ctx, r2, gi, q),
{
    let sub = gi.subrange(1, gi.len() as int);
    lemma_division_same(ctx, r1, r2, sub);
    if tail_result(ctx, r1, gi, q) {
        let rem = choose|rem: Seq<Term>| #[trigger] is_remainder(ctx, r1, sub, rem) && added(ctx, rem, q, gi[0].coeff, gi[0].mono@);
        assert(is_remainder(ctx, r2, sub, rem));
    }
}

/// A tail result exists only when the tail division fits.
pub proof fn lemma_tail_result_fits(ctx: RingCtx, rs: Seq<Polynomial>, gi: Seq<Term>, q: Seq<Term>)
    requires
        tail_result(ctx, rs, gi, q),
    ensures
        tail_fits(ctx, rs, gi),
{
    let sub = gi.subrange(1, gi.len() as int);
    let rem = choose|rem: Seq<Term>| #[trigger] is_remainder(ctx, rs, sub, rem) && added(ctx, rem, q, gi[0].coeff, gi[0].mono@);
    let (rests, outs) = choose|rests: Seq<Seq<Term>>, outs: Seq<Seq<Term>>|
        #[trigger] crate::division::div_run(ctx, rs, sub, rests, outs) && rests.last().len() == 0 && term_pairs(outs.last()) == term_pairs(rem);
    assert(crate::division::div_run(ctx, rs, sub, rests, outs));
}

} // verus!
