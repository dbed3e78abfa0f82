//! One F4 iteration: select a batch, reduce it, record it and insert the new rows.

use vstd::prelude::*;

use crate::f4::error::F4Error;
use crate::f4::options::ValidatedF4Options;
use crate::f4::pairs::criterion::ProductCriterion;
use crate::f4::pairs::critical_pair::CriticalPair;
use crate::f4::pairs::pending::{admissible, has_key, pair_key};
use crate::f4::pairs::selector::{lemma_split_by_degree, min_degree, split_by_degree, MinDegreeSelector};
use crate::f4::pipeline::insert::{inserted, insert_new_rows, lemma_inserted_parts, lemma_inserted_wf, pairs_complete_from, pairs_sound};
use crate::f4::pipeline::membership::{history_within, lemma_phase_within};
use crate::ideal::{element_of, ideal_within, in_ideal, lemma_ideal_member, lemma_ideal_within_trans, same_ideal};
use crate::f4::pipeline::reduction::{echelon_over, phase_of, preprocessed, product_views, reduces_batch, reduction_phase, row_polys, ReductionPhase};
use crate::f4::simplify::index::{causal_history, aligned, lemma_simplified_source, lemma_targets_push, simplified, targets_nonzero};
use crate::f4::symbolic::materialize::source_row;
use crate::f4::symbolic::preprocess::{heads_of, row_origin, row_products};
use crate::f4::symbolic::reducers::{first_reducer, lemma_first_reducer, top_reducer};
use crate::f4::symbolic::types::{source_rank, ProductSource};
use crate::f4::types::is_nonzero;
use crate::f4::pipeline::select::{pair_products, select_pairs_phase};
use crate::f4::state::{BatchHistory, F4State};
use crate::f4::symbolic::materialize::{all_wf, history_wf};
use crate::f4::symbolic::preprocess::{multipliers_sized, preprocess_fits, reaches_unmaterializable, sources_exist};
use crate::monomial::MonomialError;
use crate::f4::symbolic::types::{SymbolicRow, UnevaluatedProduct};
use crate::f4::types::{lm, IterationOutcome};
use crate::polynomial::{poly_wf, Polynomial, PolynomialError};
use crate::ring::RingCtx;

verus! {

/// The state invariant of the main loop: the basis and the reduced history rows are
/// canonical, and every pending pair is an admissible critical pair of the basis.
pub open spec fn state_wf(ctx: RingCtx, state: F4State) -> bool {
    &&& all_wf(ctx, state.basis@)
    &&& history_wf(ctx, state.history@)
    &&& pairs_sound(state.basis@, state.pending.spec_pairs())
    &&& history_within(ctx, state.history@, state.basis@)
    &&& targets_nonzero(state.simplify_index.rules_view(), state.history@)
    &&& forall|b: int| 0 <= b < state.history@.len() ==> aligned(#[trigger] state.history@[b])
    &&& causal_history(state.history@)
}

/// Every product names a nonzero basis element.
pub open spec fn sources_nonzero(basis: Seq<Polynomial>, products: Seq<(ProductSource, Seq<u32>)>) -> bool {
    forall|k: int|
        0 <= k < products.len() ==> match (#[trigger] products[k]).0 {
            ProductSource::Basis(i) => i < basis.len() && is_nonzero(basis[i as int]),
            ProductSource::HistoryReducedRow { .. } => false,
        }
}

/// The products of sound pairs name nonzero basis elements.
proof fn lemma_pair_products_nonzero(basis: Seq<Polynomial>, pairs: Seq<CriticalPair>, sel: Seq<CriticalPair>)
    requires
        pairs_sound(basis, pairs),
        forall|a: int| 0 <= a < sel.len() ==> pairs.contains(#[trigger] sel[a]),
    ensures
        sources_nonzero(basis, pair_products(sel)),
{
    let pp = pair_products(sel);
    assert forall|k: int| 0 <= k < pp.len() implies match (#[trigger] pp[k]).0 {
        ProductSource::Basis(i) => i < basis.len() && is_nonzero(basis[i as int]),
        ProductSource::HistoryReducedRow { .. } => false,
    } by {
        let q = sel[k / 2];
        assert(pairs.contains(q));
        let w = choose|w: int| 0 <= w < pairs.len() && pairs[w] == q;
        assert(admissible(ProductCriterion, basis, q.spec_i() as int, q.spec_j() as int));
    }
}

/// A product's source, after simplification, is a nonzero row.
proof fn lemma_simplified_nonzero(
    basis: Seq<Polynomial>,
    history: Seq<BatchHistory<Polynomial>>,
    rules: Seq<(ProductSource, Seq<u32>, ProductSource)>,
    nvars: nat,
    p: (ProductSource, Seq<u32>),
)
    requires
        targets_nonzero(rules, history),
        match p.0 {
            ProductSource::Basis(i) => i < basis.len() && is_nonzero(basis[i as int]),
            ProductSource::HistoryReducedRow { .. } => false,
        },
    ensures
        source_row(basis, history, simplified(rules, nvars, p).0) matches Some(g) && is_nonzero(g),
{
    lemma_simplified_source(rules, nvars, p);
    let q = simplified(rules, nvars, p);
    if q.0 != p.0 {
        let k = choose|k: int| 0 <= k < rules.len() && (#[trigger] rules[k]).2 == q.0;
        assert(match rules[k].2 {
            ProductSource::HistoryReducedRow { batch_index, row_index } => batch_index < history.len() && row_index < history[batch_index as int].f_j_tilde@.len()
                && is_nonzero(history[batch_index as int].f_j_tilde@[row_index as int]),
            ProductSource::Basis(_) => false,
        });
    }
}

/// Every row of a preprocessed row set comes from the basis or from a batch of `history`.
proof fn lemma_rows_causal(
    ctx: RingCtx,
    l_d: Seq<UnevaluatedProduct>,
    basis: Seq<Polynomial>,
    history: Seq<BatchHistory<Polynomial>>,
    rules: Seq<(ProductSource, Seq<u32>, ProductSource)>,
    rows: Seq<SymbolicRow<Polynomial>>,
)
    requires
        preprocessed(ctx, l_d, basis, history, rules, rows),
        targets_nonzero(rules, history),
        sources_nonzero(basis, product_views(l_d)),
    ensures
        forall|i: int| 0 <= i < rows.len() ==> source_rank((#[trigger] rows[i]).product.source) <= history.len(),
{
    let n = ctx.nvars as nat;
    assert forall|i: int| 0 <= i < rows.len() implies source_rank((#[trigger] rows[i]).product.source) <= history.len() by {
        assert(row_origin(l_d, basis, rules, n, rows, i));
        let p = rows[i].product@;
        let q = if exists|k: int| 0 <= k < l_d.len() && p == simplified(rules, n, (#[trigger] l_d[k])@) {
            let k = choose|k: int| 0 <= k < l_d.len() && p == simplified(rules, n, (#[trigger] l_d[k])@);
            assert(product_views(l_d)[k] == l_d[k]@);
            l_d[k]@
        } else {
            let m = choose|m: Seq<u32>|
                #[trigger] crate::f4::symbolic::preprocess::row_mono_set(rows.take(i)).contains(m) && !heads_of(rows.take(i)).contains(m) && (top_reducer(basis, m) matches Some(q) && p == simplified(rules, n, q));
            top_reducer(basis, m).unwrap()
        };
        assert(p == simplified(rules, n, q));
        assert(q.0 is Basis);
        lemma_simplified_source(rules, n, q);
        if p.0 != q.0 {
            let k = choose|k: int| 0 <= k < rules.len() && (#[trigger] rules[k]).2 == p.0;
            assert(match rules[k].2 {
                ProductSource::HistoryReducedRow { batch_index, row_index } => batch_index < history.len() && row_index
                    < history[batch_index as int].f_j_tilde@.len() && is_nonzero(history[batch_index as int].f_j_tilde@[row_index as int]),
                ProductSource::Basis(_) => false,
            });
        }
    }
}

/// Every row of a preprocessed row set is nonzero, so each has a head.
proof fn lemma_rows_nonzero(
    ctx: RingCtx,
    l_d: Seq<UnevaluatedProduct>,
    basis: Seq<Polynomial>,
    history: Seq<BatchHistory<Polynomial>>,
    rules: Seq<(ProductSource, Seq<u32>, ProductSource)>,
    rows: Seq<SymbolicRow<Polynomial>>,
)
    requires
        preprocessed(ctx, l_d, basis, history, rules, rows),
        targets_nonzero(rules, history),
        sources_nonzero(basis, product_views(l_d)),
        basis.len() <= usize::MAX,
    ensures
        heads_of(rows).len() == rows.len(),
{
    let n = ctx.nvars as nat;
    assert forall|i: int| 0 <= i < rows.len() implies is_nonzero(#[trigger] rows[i].polynomial) by {
        assert(row_origin(l_d, basis, rules, n, rows, i));
        let p = rows[i].product@;
        if exists|k: int| 0 <= k < l_d.len() && p == simplified(rules, n, (#[trigger] l_d[k])@) {
            let k = choose|k: int| 0 <= k < l_d.len() && p == simplified(rules, n, (#[trigger] l_d[k])@);
            assert(product_views(l_d)[k] == l_d[k]@);
            lemma_simplified_nonzero(basis, history, rules, n, l_d[k]@);
        } else {
            let m = choose|m: Seq<u32>|
                #[trigger] crate::f4::symbolic::preprocess::row_mono_set(rows.take(i)).contains(m) && !heads_of(rows.take(i)).contains(m) && (top_reducer(basis, m) matches Some(q) && p == simplified(rules, n, q));
            let q = top_reducer(basis, m).unwrap();
            lemma_first_reducer(basis, m, 0);
            let fi = first_reducer(basis, m, 0);
            assert((fi as usize) as int == fi);
            lemma_simplified_nonzero(basis, history, rules, n, q);
        }
        assert(crate::f4::symbolic::materialize::materializable(ctx, basis, history, rows[i].product@));
    }
    lemma_heads_all(rows);
}

/// With every row nonzero, every row has a head.
proof fn lemma_heads_all(rows: Seq<SymbolicRow<Polynomial>>)
    requires
        forall|i: int| 0 <= i < rows.len() ==> is_nonzero(#[trigger] rows[i].polynomial),
    ensures
        heads_of(rows).len() == rows.len(),
    decreases rows.len(),
{
    if rows.len() > 0 {
        let r0 = rows.drop_last();
        assert forall|i: int| 0 <= i < r0.len() implies is_nonzero(#[trigger] r0[i].polynomial) by {
            assert(r0[i] == rows[i]);
        }
        lemma_heads_all(r0);
        assert(rows.last() == rows[rows.len() - 1]);
    }
}

/// An iteration keeps the ideal of the basis, and the recorded rows stay in it.
proof fn lemma_iteration_ideal(
    ctx: RingCtx,
    basis: Seq<Polynomial>,
    history: Seq<BatchHistory<Polynomial>>,
    l_d: Seq<UnevaluatedProduct>,
    rules: Seq<(crate::f4::symbolic::types::ProductSource, Seq<u32>, crate::f4::symbolic::types::ProductSource)>,
    ph: ReductionPhase,
    new_basis: Seq<Polynomial>,
    new_history: Seq<BatchHistory<Polynomial>>,
)
    requires
        ctx.wf(),
        all_wf(ctx, basis),
        history_wf(ctx, history),
        history_within(ctx, history, basis),
        reduces_batch(ctx, l_d, basis, history, rules, ph),
        inserted(ctx, basis, ph.extracted_rows@) == Some(new_basis),
        new_history == history.push(BatchHistory { f_j_products: ph.f_d_products, f_j_heads: ph.f_d_heads, f_j_tilde: ph.f_d_tilde }),
        history_wf(ctx, new_history),
    ensures
        ideal_within(ctx, new_basis, basis),
        ideal_within(ctx, basis, new_basis),
        history_within(ctx, new_history, new_basis),
{
    lemma_phase_within(ctx, l_d, basis, history, rules, ph);
    lemma_inserted_wf(ctx, basis, ph.extracted_rows@);
    lemma_inserted_parts(ctx, basis, ph.extracted_rows@);
    let ex = ph.extracted_rows@;
    assert forall|k: int| 0 <= k < new_basis.len() implies in_ideal(ctx, basis, (#[trigger] new_basis[k])@) by {
        if k < basis.len() {
            assert(new_basis[k] == basis[k]);
            lemma_ideal_member(ctx, basis, k);
        } else {
            assert(element_of(ex, new_basis[k]));
            let j = choose|j: int| 0 <= j < ex.len() && #[trigger] ex[j] == new_basis[k];
            assert(in_ideal(ctx, basis, ex[j]@));
        }
    }
    assert forall|k: int| 0 <= k < basis.len() implies in_ideal(ctx, new_basis, (#[trigger] basis[k])@) by {
        assert(new_basis[k] == basis[k]);
        lemma_ideal_member(ctx, new_basis, k);
    }
    assert forall|b: int| 0 <= b < new_history.len() implies ideal_within(ctx, (#[trigger] new_history[b]).f_j_tilde@, new_basis) by {
        assert(all_wf(ctx, new_history[b].f_j_tilde@));
        if b < history.len() {
            assert(new_history[b] == history[b]);
            lemma_ideal_within_trans(ctx, history[b].f_j_tilde@, basis, new_basis);
        } else {
            assert(new_history[b].f_j_tilde == ph.f_d_tilde);
            lemma_ideal_within_trans(ctx, ph.f_d_tilde@, basis, new_basis);
        }
    }
}

/// `new` is `old` after one iteration that processed the batch `selected`, selected with
/// batch size `cap`: the batch was reduced, recorded in the history, and its new rows were
/// inserted with their critical pairs, after the pairs left pending.
pub open spec fn iterated(ctx: RingCtx, cap: usize, old: F4State, new: F4State) -> bool {
    let p = old.pending.spec_pairs();
    let (selected, remaining) = split_by_degree(p, min_degree(p), cap as nat);
    exists|l_d: Seq<UnevaluatedProduct>, phase: ReductionPhase|
        {
            &&& product_views(l_d) == pair_products(selected)
            &&& #[trigger] reduces_batch(ctx, l_d, old.basis@, old.history@, old.simplify_index.rules_view(), phase)
            &&& new.history@ == old.history@.push(
                BatchHistory { f_j_products: phase.f_d_products, f_j_heads: phase.f_d_heads, f_j_tilde: phase.f_d_tilde },
            )
            &&& inserted(ctx, old.basis@, phase.extracted_rows@) == Some(new.basis@)
            &&& remaining.len() <= new.pending.spec_pairs().len()
            &&& new.pending.spec_pairs().subrange(0, remaining.len() as int) == remaining
            &&& pairs_complete_from(new.basis@, new.pending.spec_pairs(), old.basis@.len() as int)
        }
}

/// Pairs kept from a smaller basis stay sound for an extension of it.
proof fn lemma_pairs_sound_extend(small: Seq<Polynomial>, big: Seq<Polynomial>, pairs: Seq<CriticalPair>)
    requires
        pairs_sound(small, pairs),
        small.len() <= big.len(),
        forall|k: int| 0 <= k < small.len() ==> #[trigger] big[k] == small[k],
    ensures
        pairs_sound(big, pairs),
{
    assert forall|a: int| 0 <= a < pairs.len() implies {
        let q = #[trigger] pairs[a];
        &&& admissible(ProductCriterion, big, q.spec_i() as int, q.spec_j() as int)
        &&& crate::f4::pairs::critical_pair::is_pair_of(q, q.spec_i() as int, q.spec_j() as int, lm(big[q.spec_i() as int]), lm(big[q.spec_j() as int]))
    } by {
        let q = pairs[a];
        assert(big[q.spec_i() as int] == small[q.spec_i() as int]);
        assert(big[q.spec_j() as int] == small[q.spec_j() as int]);
    }
}

/// The next batch of `state` fits: for its products, every product the preprocessing
/// reaches can be materialized and every reduction of the batch can be inserted into the
/// basis.
pub open spec fn batch_fits(ctx: RingCtx, cap: usize, state: F4State) -> bool {
    let p = state.pending.spec_pairs();
    let (selected, remaining) = split_by_degree(p, min_degree(p), cap as nat);
    forall|l_d: Seq<UnevaluatedProduct>| #[trigger] product_views(l_d) == pair_products(selected) ==> {
        &&& preprocess_fits(ctx, l_d, state.basis@, state.history@, state.simplify_index.rules_view())
        &&& forall|phase: ReductionPhase| #[trigger] reduces_batch(ctx, l_d, state.basis@, state.history@, state.simplify_index.rules_view(), phase)
            ==> inserted(ctx, state.basis@, phase.extracted_rows@) is Some
    }
}

/// Runs one F4 iteration. With no pending pair it reports `Done` and changes nothing but the
/// iteration counter; otherwise it selects a batch, reduces it, records it in the history
/// and inserts the new rows, and reports `Progress`.
pub fn run_iteration(
    ctx: &RingCtx,
    state: &mut F4State,
    opts: &ValidatedF4Options,
    selector: &mut MinDegreeSelector,
    criterion: ProductCriterion,
) -> (r: Result<IterationOutcome, F4Error>)
    requires
        ctx.wf(),
        state_wf(*ctx, *old(state)),
        old(state).iteration < usize::MAX,
    ensures
        final(state).iteration == old(state).iteration + 1,
        *final(selector) == *old(selector),
        (r == Ok::<IterationOutcome, F4Error>(IterationOutcome::Done)) <==> old(state).pending.spec_pairs().len() == 0,
        old(state).pending.spec_pairs().len() == 0 ==> {
            &&& final(state).basis == old(state).basis
            &&& final(state).history == old(state).history
            &&& final(state).simplify_index == old(state).simplify_index
            &&& final(state).pending.spec_pairs().len() == 0
        },
        r matches Err(e) ==> e == F4Error::Polynomial(PolynomialError::Monomial(MonomialError::ExponentOverflow))
            || e == F4Error::Monomial(MonomialError::ExponentOverflow),
        r is Err ==> !batch_fits(*ctx, old(selector).spec_batch_size(), *old(state)),
        old(state).pending.spec_pairs().len() > 0 && batch_fits(*ctx, old(selector).spec_batch_size(), *old(state))
            ==> r == Ok::<IterationOutcome, F4Error>(IterationOutcome::Progress),
        r == Ok::<IterationOutcome, F4Error>(IterationOutcome::Progress) ==> {
            &&& state_wf(*ctx, *final(state))
            &&& iterated(*ctx, old(selector).spec_batch_size(), *old(state), *final(state))
            &&& same_ideal(*ctx, final(state).basis@, old(state).basis@)
        },
{
    let ghost s0 = *state;
    proof {
        use_type_invariant(&*selector);
    }
    state.advance_iteration();
    let batch = select_pairs_phase(state, selector);
    if batch.selected_pairs.len() == 0 {
        proof {
            if s0.pending.spec_pairs().len() > 0 {
                crate::f4::pairs::selector::lemma_selection_progress(s0.pending.spec_pairs(), selector.spec_batch_size() as nat);
            }
        }
        return Ok(IterationOutcome::Done);
    }
    let ghost s1 = *state;
    proof {
        let p = s0.pending.spec_pairs();
        let (sel, rem) = split_by_degree(p, min_degree(p), selector.spec_batch_size() as nat);
        lemma_split_by_degree(p, min_degree(p), selector.spec_batch_size() as nat);
        assert forall|a: int| 0 <= a < sel.len() implies p.contains(#[trigger] sel[a]) by {
            broadcast use vstd::seq_lib::group_to_multiset_ensures;
            assert(sel.to_multiset().count(sel[a]) > 0);
            assert(p.to_multiset().count(sel[a]) > 0);
        }
        lemma_pair_products_nonzero(s0.basis@, p, sel);
        let l = batch.l_d@;
        let rules = s1.simplify_index.rules_view();
        assert(product_views(l) == pair_products(sel));
        assert forall|k: int| 0 <= k < l.len() implies source_row(s1.basis@, s1.history@, (#[trigger] l[k]).source) is Some by {
            assert(product_views(l)[k] == l[k]@);
            assert(match product_views(l)[k].0 {
                ProductSource::Basis(i) => i < s0.basis@.len() && is_nonzero(s0.basis@[i as int]),
                ProductSource::HistoryReducedRow { .. } => false,
            });
        }
        assert forall|k: int| 0 <= k < rules.len() implies source_row(s1.basis@, s1.history@, (#[trigger] rules[k]).2) is Some by {
            assert(match rules[k].2 {
                ProductSource::HistoryReducedRow { batch_index, row_index } => batch_index < s1.history@.len() && row_index
                    < s1.history@[batch_index as int].f_j_tilde@.len() && is_nonzero(s1.history@[batch_index as int].f_j_tilde@[row_index as int]),
                ProductSource::Basis(_) => false,
            });
        }
        assert(sources_exist(s1.basis@, s1.history@, rules, l));
        assert forall|k: int| 0 <= k < l.len() implies (#[trigger] l[k]).multiplier@.len() == ctx.nvars by {
            assert(product_views(l)[k] == l[k]@);
            let q = sel[k / 2];
            assert(p.contains(q));
            let w = choose|w: int| 0 <= w < p.len() && p[w] == q;
            assert(admissible(ProductCriterion, s0.basis@, q.spec_i() as int, q.spec_j() as int));
            assert(crate::f4::pairs::critical_pair::is_pair_of(q, q.spec_i() as int, q.spec_j() as int, lm(s0.basis@[q.spec_i() as int]), lm(s0.basis@[q.spec_j() as int])));
            assert(poly_wf(*ctx, s0.basis@[q.spec_i() as int]@));
            assert(poly_wf(*ctx, s0.basis@[q.spec_j() as int]@));
        }
        assert(multipliers_sized(l, ctx.nvars as nat));
    }
    let phase = match reduction_phase(ctx, opts.as_ref(), batch.l_d.as_slice(), state.basis.as_slice(), state.history.as_slice(), &state.simplify_index) {
        Ok(ph) => ph,
        Err(e) => {
            proof {
                let p = s0.pending.spec_pairs();
                let (sel, rem) = split_by_degree(p, min_degree(p), selector.spec_batch_size() as nat);
                assert(product_views(batch.l_d@) == pair_products(sel));
                let (rows, pr) = choose|rows: Seq<SymbolicRow<Polynomial>>, pr: (ProductSource, Seq<u32>)|
                    #[trigger] reaches_unmaterializable(*ctx, batch.l_d@, s1.basis@, s1.history@, s1.simplify_index.rules_view(), rows, pr);
                assert(!preprocess_fits(*ctx, batch.l_d@, s0.basis@, s0.history@, s0.simplify_index.rules_view()));
            }
            return Err(e);
        },
    };
    let ghost ph = phase;
    proof {
        let p = s0.pending.spec_pairs();
        let (sel, rem) = split_by_degree(p, min_degree(p), selector.spec_batch_size() as nat);
        lemma_split_by_degree(p, min_degree(p), selector.spec_batch_size() as nat);
        assert forall|a: int| 0 <= a < sel.len() implies p.contains(#[trigger] sel[a]) by {
            broadcast use vstd::seq_lib::group_to_multiset_ensures;
            assert(sel.to_multiset().count(sel[a]) > 0);
            assert(p.to_multiset().count(sel[a]) > 0);
        }
        lemma_pair_products_nonzero(s0.basis@, p, sel);
        assert(s1.basis@.len() == s1.basis.len());
        assert(s1.history@.len() == s1.history.len());
        let rows = choose|rows: Seq<SymbolicRow<Polynomial>>| #[trigger] phase_of(*ctx, batch.l_d@, s1.basis@, s1.history@, s1.simplify_index.rules_view(), rows, ph);
        assert(phase_of(*ctx, batch.l_d@, s1.basis@, s1.history@, s1.simplify_index.rules_view(), rows, ph));
        lemma_rows_nonzero(*ctx, batch.l_d@, s1.basis@, s1.history@, s1.simplify_index.rules_view(), rows);
        assert(ph.f_d_products@.len() == product_views(ph.f_d_products@).len());
        assert(ph.f_d_heads@.len() == crate::f4::symbolic::preprocess::mono_views(ph.f_d_heads@).len());
        lemma_targets_push(s1.simplify_index.rules_view(), s1.history@, BatchHistory { f_j_products: ph.f_d_products, f_j_heads: ph.f_d_heads, f_j_tilde: ph.f_d_tilde });
    }
    let ReductionPhase { f_d_products, f_d_heads, f_d_tilde, extracted_rows } = phase;
    state.push_history(f_d_products, f_d_heads, f_d_tilde);
    let ghost s2 = *state;
    match insert_new_rows(ctx, state, extracted_rows, &criterion) {
        Ok(()) => {},
        Err(e) => {
            proof {
                let p = s0.pending.spec_pairs();
                let (sel, rem) = split_by_degree(p, min_degree(p), selector.spec_batch_size() as nat);
                assert(product_views(batch.l_d@) == pair_products(sel));
                assert(reduces_batch(*ctx, batch.l_d@, s0.basis@, s0.history@, s0.simplify_index.rules_view(), ph));
                assert(inserted(*ctx, s0.basis@, ph.extracted_rows@) is None);
            }
            return Err(e);
        },
    }
    proof {
        let p = s0.pending.spec_pairs();
        let cap = selector.spec_batch_size() as nat;
        let (sel, rem) = split_by_degree(p, min_degree(p), cap);
        let rows = choose|rows: Seq<SymbolicRow<Polynomial>>| #[trigger] phase_of(*ctx, batch.l_d@, s1.basis@, s1.history@, s1.simplify_index.rules_view(), rows, ph);
        let cols = choose|cols: Seq<Seq<u32>>| echelon_over(*ctx, row_polys(rows), ph.f_d_tilde@, cols);
        assert(history_wf(*ctx, state.history@)) by {
            assert forall|b: int| 0 <= b < state.history@.len() implies all_wf(*ctx, (#[trigger] state.history@[b]).f_j_tilde@) by {
                if b < s0.history@.len() {
                    assert(state.history@[b] == s0.history@[b]);
                }
            }
        }
        lemma_inserted_wf(*ctx, s2.basis@, ph.extracted_rows@);
        lemma_iteration_ideal(*ctx, s0.basis@, s0.history@, batch.l_d@, s0.simplify_index.rules_view(), ph, state.basis@, state.history@);
        lemma_split_by_degree(p, min_degree(p), cap);
        assert(s1.pending.spec_pairs() == rem);
        assert(pairs_sound(s0.basis@, rem)) by {
            broadcast use vstd::seq_lib::group_to_multiset_ensures;
            assert forall|a: int| 0 <= a < rem.len() implies {
                let q = #[trigger] rem[a];
                &&& admissible(ProductCriterion, s0.basis@, q.spec_i() as int, q.spec_j() as int)
                &&& crate::f4::pairs::critical_pair::is_pair_of(q, q.spec_i() as int, q.spec_j() as int, lm(s0.basis@[q.spec_i() as int]), lm(s0.basis@[q.spec_j() as int]))
            } by {
                assert(rem.to_multiset().count(rem[a]) > 0);
                assert(p.to_multiset().count(rem[a]) > 0);
                assert(p.contains(rem[a]));
                let w = choose|w: int| 0 <= w < p.len() && p[w] == rem[a];
                assert(p[w] == rem[a]);
            }
        }
        let np = state.pending.spec_pairs();
        lemma_pairs_sound_extend(s0.basis@, state.basis@, rem);
        assert(pairs_sound(state.basis@, np)) by {
            let n0 = rem.len();
            assert forall|a: int| 0 <= a < np.len() implies {
                let q = #[trigger] np[a];
                &&& admissible(ProductCriterion, state.basis@, q.spec_i() as int, q.spec_j() as int)
                &&& crate::f4::pairs::critical_pair::is_pair_of(q, q.spec_i() as int, q.spec_j() as int, lm(state.basis@[q.spec_i() as int]), lm(state.basis@[q.spec_j() as int]))
            } by {
                if a < n0 {
                    assert(np.subrange(0, n0 as int)[a] == rem[a]);
                } else {
                    assert(np.subrange(n0 as int, np.len() as int)[a - n0] == np[a]);
                }
            }
        }
        assert(product_views(batch.l_d@) == pair_products(sel));
        assert(reduces_batch(*ctx, batch.l_d@, s0.basis@, s0.history@, s0.simplify_index.rules_view(), ph));
        assert(iterated(*ctx, selector.spec_batch_size(), s0, *state));
        lemma_pair_products_nonzero(s0.basis@, p, sel);
        lemma_rows_causal(*ctx, batch.l_d@, s1.basis@, s1.history@, s1.simplify_index.rules_view(), rows);
        assert(causal_history(state.history@)) by {
            let h = state.history@;
            assert forall|b: int, k: int| 0 <= b < h.len() && 0 <= k < h[b].f_j_products@.len() implies source_rank(
                (#[trigger] h[b].f_j_products@[k]).source,
            ) <= b by {
                if b < s0.history@.len() {
                    assert(h[b] == s0.history@[b]);
                } else {
                    assert(h[b].f_j_products == ph.f_d_products);
                    assert(product_views(ph.f_d_products@)[k] == row_products(rows)[k]);
                    assert(rows[k].product@.0 == ph.f_d_products@[k].source);
                }
            }
        }
    }
    Ok(IterationOutcome::Progress)
}

/// One iteration keeps the ideal: the new basis generates the ideal of the old one.
pub proof fn lemma_iterated_same_ideal(ctx: RingCtx, cap: usize, s0: F4State, s1: F4State)
    requires
        ctx.wf(),
        state_wf(ctx, s0),
        state_wf(ctx, s1),
        iterated(ctx, cap, s0, s1),
    ensures
        same_ideal(ctx, s1.basis@, s0.basis@),
{
    let p = s0.pending.spec_pairs();
    let (selected, remaining) = split_by_degree(p, min_degree(p), cap as nat);
    let (l_d, phase) = choose|l_d: Seq<UnevaluatedProduct>, phase: ReductionPhase|
        {
            &&& product_views(l_d) == pair_products(selected)
            &&& #[trigger] reduces_batch(ctx, l_d, s0.basis@, s0.history@, s0.simplify_index.rules_view(), phase)
            &&& s1.history@ == s0.history@.push(
                BatchHistory { f_j_products: phase.f_d_products, f_j_heads: phase.f_d_heads, f_j_tilde: phase.f_d_tilde },
            )
            &&& inserted(ctx, s0.basis@, phase.extracted_rows@) == Some(s1.basis@)
            &&& remaining.len() <= s1.pending.spec_pairs().len()
            &&& s1.pending.spec_pairs().subrange(0, remaining.len() as int) == remaining
            &&& pairs_complete_from(s1.basis@, s1.pending.spec_pairs(), s0.basis@.len() as int)
        };
    lemma_iteration_ideal(ctx, s0.basis@, s0.history@, l_d, s0.simplify_index.rules_view(), phase, s1.basis@, s1.history@);
}

/// Along a run of iterations, the basis of every state generates the ideal of the first
/// state's basis: the computation never leaves the ideal and never loses a generator.
pub proof fn lemma_run_same_ideal(ctx: RingCtx, cap: usize, states: Seq<F4State>, k: int)
    requires
        ctx.wf(),
        0 <= k < states.len(),
        forall|j: int| 0 <= j < states.len() ==> state_wf(ctx, #[trigger] states[j]),
        forall|j: int| 0 <= j < states.len() - 1 ==> #[trigger] iterated(ctx, cap, states[j], states[j + 1]),
    ensures
        same_ideal(ctx, states[k].basis@, states[0].basis@),
    decreases k,
{
    assert(state_wf(ctx, states[k]));
    if k == 0 {
        crate::ideal::lemma_ideal_within_self(ctx, states[0].basis@);
    } else {
        lemma_run_same_ideal(ctx, cap, states, k - 1);
        let j = k - 1;
        assert(iterated(ctx, cap, states[j], states[j + 1]));
        assert(states[j + 1] == states[k]);
        assert(state_wf(ctx, states[k - 1]));
        lemma_iterated_same_ideal(ctx, cap, states[k - 1], states[k]);
        assert(state_wf(ctx, states[0]));
        crate::ideal::lemma_same_ideal_trans(ctx, states[k].basis@, states[k - 1].basis@, states[0].basis@);
    }
}

/// The pairs that an iteration selects from `state` with batch size `cap`.
pub open spec fn selected_pairs(cap: usize, state: F4State) -> Seq<CriticalPair> {
    let p = state.pending.spec_pairs();
    split_by_degree(p, min_degree(p), cap as nat).0
}

/// No pair is forgotten: along a run of iterations that starts with every admissible pair
/// pending, each admissible pair of a later basis is pending there or was selected by an
/// earlier iteration. With no pair pending, every admissible pair has been selected.
pub proof fn lemma_pairs_never_dropped(ctx: RingCtx, cap: usize, states: Seq<F4State>, k: int, o: int, n: int)
    requires
        0 <= k < states.len(),
        pairs_complete_from(states[0].basis@, states[0].pending.spec_pairs(), 0),
        forall|j: int| 0 <= j < states.len() - 1 ==> #[trigger] iterated(ctx, cap, states[j], states[j + 1]),
        admissible(ProductCriterion, states[k].basis@, o, n),
    ensures
        has_key(states[k].pending.spec_pairs(), (o as usize, n as usize))
            || exists|j: int| 0 <= j < k && has_key(#[trigger] selected_pairs(cap, states[j]), (o as usize, n as usize)),
    decreases k,
{
    let key = (o as usize, n as usize);
    if k > 0 {
        let j = k - 1;
        assert(iterated(ctx, cap, states[j], states[j + 1]));
        assert(states[j + 1] == states[k]);
        let s0 = states[j];
        let s1 = states[k];
        let p = s0.pending.spec_pairs();
        let (selected, remaining) = split_by_degree(p, min_degree(p), cap as nat);
        let (l_d, phase) = choose|l_d: Seq<UnevaluatedProduct>, phase: ReductionPhase|
            {
                &&& product_views(l_d) == pair_products(selected)
                &&& #[trigger] reduces_batch(ctx, l_d, s0.basis@, s0.history@, s0.simplify_index.rules_view(), phase)
                &&& s1.history@ == s0.history@.push(
                    BatchHistory { f_j_products: phase.f_d_products, f_j_heads: phase.f_d_heads, f_j_tilde: phase.f_d_tilde },
                )
                &&& inserted(ctx, s0.basis@, phase.extracted_rows@) == Some(s1.basis@)
                &&& remaining.len() <= s1.pending.spec_pairs().len()
                &&& s1.pending.spec_pairs().subrange(0, remaining.len() as int) == remaining
                &&& pairs_complete_from(s1.basis@, s1.pending.spec_pairs(), s0.basis@.len() as int)
            };
        lemma_inserted_parts(ctx, s0.basis@, phase.extracted_rows@);
        if n >= s0.basis@.len() {
            assert(has_key(s1.pending.spec_pairs(), key));
        } else {
            assert(s1.basis@[o] == s0.basis@[o] && s1.basis@[n] == s0.basis@[n]);
            assert(admissible(ProductCriterion, s0.basis@, o, n));
            lemma_pairs_never_dropped(ctx, cap, states, j, o, n);
            if has_key(p, key) {
                let w = choose|w: int| 0 <= w < p.len() && pair_key(#[trigger] p[w]) == key;
                lemma_split_by_degree(p, min_degree(p), cap as nat);
                broadcast use vstd::seq_lib::group_to_multiset_ensures;
                assert(p.to_multiset().count(p[w]) > 0);
                assert(selected.to_multiset().count(p[w]) > 0 || remaining.to_multiset().count(p[w]) > 0);
                if selected.to_multiset().count(p[w]) > 0 {
                    assert(selected.contains(p[w]));
                    let a = choose|a: int| 0 <= a < selected.len() && selected[a] == p[w];
                    assert(pair_key(selected[a]) == key);
                    assert(selected == selected_pairs(cap, states[j]));
                    assert(has_key(selected_pairs(cap, states[j]), key));
                } else {
                    assert(remaining.contains(p[w]));
                    let a = choose|a: int| 0 <= a < remaining.len() && remaining[a] == p[w];
                    let np = s1.pending.spec_pairs();
                    assert(np.subrange(0, remaining.len() as int)[a] == np[a]);
                    assert(pair_key(np[a]) == key);
                }
            }
        }
    }
}

} // verus!
