//! The rows an F4 iteration produces lie in the ideal of the basis it started from.

use vstd::prelude::*;

use crate::f4::matrix::construct::support;
use crate::f4::matrix::span::{combo_of, in_span, lin};
use crate::f4::pipeline::reduction::{dense_matrix, echelon_over, new_rows, phase_of, poly_views, reduces_batch, row_polys, ReductionPhase};
use crate::f4::symbolic::types::UnevaluatedProduct;
use crate::f4::state::BatchHistory;
use crate::f4::symbolic::materialize::{all_wf, history_wf, materializable, source_row};
use crate::f4::symbolic::preprocess::rows_sound;
use crate::f4::symbolic::types::{ProductSource, SymbolicRow};
use crate::ideal::{
    ideal_within, in_ideal, lemma_ideal_member, lemma_ideal_same_coeffs, lemma_ideal_shift, lemma_ideal_within_trans,
    lemma_shift_split, monos_len, steps_valid,
};
use crate::monomial::{spec_divides, spec_one, spec_quotient};
use crate::polynomial::{coeff_sum, coeff_sum_shifted, lemma_coeff_sum_multiple, lemma_coeff_sum_wf, lemma_term_pairs_eq, poly_wf, term_pairs, Polynomial, Term};
use crate::reduce::{combination, reduction_witness};
use crate::ring::RingCtx;

verus! {

/// Every reduced row recorded in the history lies in the ideal of `basis`.
pub open spec fn history_within(ctx: RingCtx, history: Seq<BatchHistory<Polynomial>>, basis: Seq<Polynomial>) -> bool {
    forall|b: int| 0 <= b < history.len() ==> ideal_within(ctx, (#[trigger] history[b]).f_j_tilde@, basis)
}

/// A sound symbolic row, a monomial multiple of a basis element or of a reduced history row,
/// lies in the ideal of the basis.
pub proof fn lemma_row_within(
    ctx: RingCtx,
    basis: Seq<Polynomial>,
    history: Seq<BatchHistory<Polynomial>>,
    rows: Seq<SymbolicRow<Polynomial>>,
    i: int,
)
    requires
        ctx.wf(),
        all_wf(ctx, basis),
        history_wf(ctx, history),
        history_within(ctx, history, basis),
        rows_sound(ctx, basis, history, rows),
        0 <= i < rows.len(),
    ensures
        in_ideal(ctx, basis, rows[i].polynomial@),
{
    let row = rows[i];
    let t = row.product.multiplier@;
    assert(materializable(ctx, basis, history, row.product@));
    let src = source_row(basis, history, row.product.source).unwrap();
    match row.product.source {
        ProductSource::Basis(j) => {
            assert(src == basis[j as int]);
            lemma_ideal_member(ctx, basis, j as int);
        },
        ProductSource::HistoryReducedRow { batch_index, row_index } => {
            let hb = history[batch_index as int];
            assert(src == hb.f_j_tilde@[row_index as int]);
            assert(ideal_within(ctx, hb.f_j_tilde@, basis));
            assert(all_wf(ctx, hb.f_j_tilde@));
        },
    }
    assert(poly_wf(ctx, src@));
    assert forall|k: int| 0 <= k < src@.len() implies crate::monomial::mul_fits((#[trigger] src@[k]).mono@, t) && src@[k].mono@.len() == t.len() by {
        assert(crate::monomial::mul_fits(source_row(basis, history, row.product@.0).unwrap()@[k].mono@, row.product@.1));
    }
    assert forall|x: Seq<u32>| #![trigger coeff_sum(row.polynomial@, x)] coeff_sum(row.polynomial@, x) == coeff_sum_shifted(src@, t, x) by {
        lemma_coeff_sum_multiple(row.polynomial@, src@, t, x);
    }
    lemma_ideal_shift(ctx, basis, src@, row.polynomial@, t);
}

/// Every sound symbolic row lies in the ideal of the basis.
pub proof fn lemma_rows_within(
    ctx: RingCtx,
    basis: Seq<Polynomial>,
    history: Seq<BatchHistory<Polynomial>>,
    rows: Seq<SymbolicRow<Polynomial>>,
    polys: Seq<Polynomial>,
)
    requires
        ctx.wf(),
        all_wf(ctx, basis),
        history_wf(ctx, history),
        history_within(ctx, history, basis),
        rows_sound(ctx, basis, history, rows),
        polys.len() == rows.len(),
        forall|i: int| 0 <= i < rows.len() ==> #[trigger] polys[i] == rows[i].polynomial,
    ensures
        ideal_within(ctx, polys, basis),
{
    assert forall|i: int| 0 <= i < polys.len() implies in_ideal(ctx, basis, (#[trigger] polys[i])@) by {
        lemma_row_within(ctx, basis, history, rows, i);
    }
}

/// One step per row: coefficient `alpha[r]` on row `r`, unshifted.
pub open spec fn unit_steps(alpha: Seq<int>, n: nat, m: int) -> Seq<(int, Seq<u32>, int)> {
    Seq::new(m as nat, |r: int| (alpha[r], spec_one(n), r))
}

/// A canonical polynomial's coefficient sum is a field element.
proof fn lemma_coeff_sum_range(ctx: RingCtx, s: Seq<Term>, x: Seq<u32>)
    requires
        ctx.wf(),
        poly_wf(ctx, s),
    ensures
        0 <= coeff_sum(s, x) < ctx.field.modulus(),
        coeff_sum(s, x) as u32 == coeff_sum(s, x),
{
    lemma_coeff_sum_wf(ctx, s, x);
    if exists|i: int| 0 <= i < s.len() && (#[trigger] s[i]).mono@ == x {
        let i = choose|i: int| 0 <= i < s.len() && (#[trigger] s[i]).mono@ == x;
        assert(0 < s[i].coeff < ctx.field.modulus());
    }
}

/// Over the unit steps, the combination at a column is the linear combination of the dense
/// rows at that column.
proof fn lemma_unit_steps_col(ctx: RingCtx, rows: Seq<Polynomial>, alpha: Seq<int>, cols: Seq<Seq<u32>>, c: int, m: int)
    requires
        ctx.wf(),
        all_wf(ctx, rows),
        0 <= c < cols.len(),
        cols[c].len() == ctx.nvars,
        0 <= m <= rows.len(),
        alpha.len() == rows.len(),
    ensures
        combination(rows, unit_steps(alpha, ctx.nvars as nat, m), cols[c]) == lin(alpha, dense_matrix(cols, rows), c, m),
    decreases m,
{
    let n = ctx.nvars as nat;
    let u = unit_steps(alpha, n, m);
    if m == 0 {
        assert(u =~= Seq::<(int, Seq<u32>, int)>::empty());
    } else {
        lemma_unit_steps_col(ctx, rows, alpha, cols, c, m - 1);
        assert(u.drop_last() =~= unit_steps(alpha, n, m - 1));
        assert(u.last() == (alpha[m - 1], spec_one(n), m - 1));
        let g = rows[m - 1]@;
        assert(poly_wf(ctx, g));
        assert(monos_len(g, n));
        let x = cols[c];
        lemma_shift_split(g, spec_one(n), x, n);
        assert(spec_divides(spec_one(n), x));
        assert(spec_quotient(spec_one(n), x) =~= x);
        lemma_coeff_sum_range(ctx, g, x);
        assert(dense_matrix(cols, rows)[m - 1][c] == coeff_sum(g, x) as u32);
    }
}

/// Over the unit steps, the combination vanishes at a monomial no row has.
proof fn lemma_unit_steps_off(ctx: RingCtx, rows: Seq<Polynomial>, alpha: Seq<int>, x: Seq<u32>, m: int)
    requires
        ctx.wf(),
        all_wf(ctx, rows),
        !support(rows).contains(x),
        0 <= m <= rows.len(),
        alpha.len() == rows.len(),
    ensures
        combination(rows, unit_steps(alpha, ctx.nvars as nat, m), x) == 0,
    decreases m,
{
    let n = ctx.nvars as nat;
    let u = unit_steps(alpha, n, m);
    if m > 0 {
        lemma_unit_steps_off(ctx, rows, alpha, x, m - 1);
        assert(u.drop_last() =~= unit_steps(alpha, n, m - 1));
        assert(u.last() == (alpha[m - 1], spec_one(n), m - 1));
        let g = rows[m - 1]@;
        assert(poly_wf(ctx, g));
        assert(monos_len(g, n));
        lemma_shift_split(g, spec_one(n), x, n);
        if spec_divides(spec_one(n), x) {
            assert(spec_quotient(spec_one(n), x) =~= x);
            assert forall|t: int| 0 <= t < g.len() implies (#[trigger] g[t]).mono@ != x by {
                if g[t].mono@ == x {
                    assert(support(rows).contains(x));
                }
            }
            lemma_coeff_sum_wf(ctx, g, x);
        }
        assert(alpha[m - 1] * 0 == 0) by (nonlinear_arith);
    }
}

/// The rows of a reduced row echelon form of a coefficient matrix lie in the ideal of the
/// polynomials whose coefficients it holds.
pub proof fn lemma_echelon_within(ctx: RingCtx, rows: Seq<Polynomial>, tilde: Seq<Polynomial>, cols: Seq<Seq<u32>>)
    requires
        ctx.wf(),
        all_wf(ctx, rows),
        echelon_over(ctx, rows, tilde, cols),
    ensures
        ideal_within(ctx, tilde, rows),
{
    let p = ctx.field.modulus();
    let n = ctx.nvars as nat;
    let dr = dense_matrix(cols, rows);
    let dt = dense_matrix(cols, tilde);
    let e = Seq::<Term>::empty();
    assert forall|k: int| 0 <= k < tilde.len() implies in_ideal(ctx, rows, (#[trigger] tilde[k])@) by {
        assert(in_span(p, dr, dt[k]));
        let alpha = choose|alpha: Seq<int>| combo_of(p, dr, dt[k], alpha);
        assert(combo_of(p, dr, dt[k], alpha));
        let w = unit_steps(alpha, n, rows.len() as int);
        let q = tilde[k]@;
        assert(poly_wf(ctx, q));
        assert(steps_valid(rows, w));
        assert forall|x: Seq<u32>| (coeff_sum(q, x) - coeff_sum(e, x) - #[trigger] combination(rows, w, x)) % p == 0 by {
            assert(coeff_sum(e, x) == 0);
            if cols.contains(x) {
                let c = choose|c: int| 0 <= c < cols.len() && cols[c] == x;
                lemma_unit_steps_col(ctx, rows, alpha, cols, c, rows.len() as int);
                lemma_coeff_sum_range(ctx, q, x);
                assert(dt[k][c] == coeff_sum(q, x) as u32);
                assert((dt[k][c] - lin(alpha, dr, c, dr.len() as int)) % p == 0);
            } else {
                assert(!support(rows).contains(x)) by {
                    assert(cols.to_set().contains(x) == cols.contains(x));
                }
                lemma_unit_steps_off(ctx, rows, alpha, x, rows.len() as int);
                assert forall|t: int| 0 <= t < q.len() implies (#[trigger] q[t]).mono@ != x by {
                    assert(cols.contains(q[t].mono@));
                }
                lemma_coeff_sum_wf(ctx, q, x);
                assert(0int % p == 0);
            }
        }
        assert(reduction_witness(ctx, rows, q, e, w));
    }
}

/// Every row `new_rows` keeps is one of the rows it was given.
proof fn lemma_new_rows_from(heads: Seq<Seq<u32>>, tv: Seq<Seq<(u32, Seq<u32>)>>)
    ensures
        forall|k: int| 0 <= k < new_rows(heads, tv).len() ==> exists|i: int| 0 <= i < tv.len() && tv[i] == #[trigger] new_rows(heads, tv)[k],
    decreases tv.len(),
{
    if tv.len() > 0 {
        let t0 = tv.drop_last();
        lemma_new_rows_from(heads, t0);
        let prev = new_rows(heads, t0);
        let cur = new_rows(heads, tv);
        assert forall|k: int| 0 <= k < cur.len() implies exists|i: int| 0 <= i < tv.len() && tv[i] == #[trigger] cur[k] by {
            if k < prev.len() {
                assert(cur[k] == prev[k]);
                let i = choose|i: int| 0 <= i < t0.len() && t0[i] == #[trigger] prev[k];
                assert(tv[i] == t0[i]);
            } else {
                assert(cur[k] == tv.last());
                assert(tv[tv.len() - 1] == tv.last());
            }
        }
    }
}

/// The reduced rows and the extracted rows of a reduction phase lie in the ideal of the basis
/// it reduced against, when the history rows do.
pub proof fn lemma_phase_within(
    ctx: RingCtx,
    l_d: Seq<UnevaluatedProduct>,
    basis: Seq<Polynomial>,
    history: Seq<BatchHistory<Polynomial>>,
    rules: Seq<(ProductSource, Seq<u32>, ProductSource)>,
    phase: ReductionPhase,
)
    requires
        ctx.wf(),
        all_wf(ctx, basis),
        history_wf(ctx, history),
        history_within(ctx, history, basis),
        reduces_batch(ctx, l_d, basis, history, rules, phase),
    ensures
        ideal_within(ctx, phase.f_d_tilde@, basis),
        ideal_within(ctx, phase.extracted_rows@, basis),
{
    let rows = choose|rows: Seq<SymbolicRow<Polynomial>>| #[trigger] phase_of(ctx, l_d, basis, history, rules, rows, phase);
    assert(phase_of(ctx, l_d, basis, history, rules, rows, phase));
    let polys = row_polys(rows);
    lemma_rows_within(ctx, basis, history, rows, polys);
    assert(all_wf(ctx, polys)) by {
        assert forall|i: int| 0 <= i < polys.len() implies poly_wf(ctx, (#[trigger] polys[i])@) by {
            assert(polys[i] == rows[i].polynomial);
        }
    }
    let tilde = phase.f_d_tilde@;
    let cols = choose|cols: Seq<Seq<u32>>| echelon_over(ctx, polys, tilde, cols);
    assert(echelon_over(ctx, polys, tilde, cols));
    lemma_echelon_within(ctx, polys, tilde, cols);
    lemma_ideal_within_trans(ctx, tilde, polys, basis);
    let ex = phase.extracted_rows@;
    let tv = poly_views(tilde);
    lemma_new_rows_from(crate::f4::symbolic::preprocess::heads_of(rows), tv);
    assert forall|k: int| 0 <= k < ex.len() implies in_ideal(ctx, basis, (#[trigger] ex[k])@) by {
        let nr = new_rows(crate::f4::symbolic::preprocess::heads_of(rows), tv);
        assert(poly_views(ex)[k] == nr[k]);
        let i = choose|i: int| 0 <= i < tv.len() && tv[i] == #[trigger] nr[k];
        assert(term_pairs(ex[k]@) == term_pairs(tilde[i]@));
        assert(in_ideal(ctx, basis, tilde[i]@));
        lemma_term_pairs_eq(ctx, tilde[i]@, ex[k]@);
        lemma_ideal_same_coeffs(ctx, basis, tilde[i]@, ex[k]@);
    }
}

} // verus!
