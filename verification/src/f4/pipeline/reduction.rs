//! The reduction phase of an F4 iteration: symbolic preprocessing, row reduction of the
//! coefficient matrix, and extraction of the rows with new leading monomials.

use vstd::prelude::*;

use crate::f4::error::F4Error;
use crate::f4::matrix::construct::{build_dense_matrix, column_views, strictly_decreasing, support};
use crate::f4::matrix::reduce::{is_rref, lemma_rref_leading_pivot, matrix_view, rectangular, rref_with, row_reduce_dense, zero_before};
use crate::f4::matrix::span::{in_span, lemma_span_trans, row_equivalent};
use crate::f4::matrix::types::MatrixRowMeta;
use crate::f4::symbolic::materialize::all_wf;
use crate::f4::options::F4Options;
use crate::f4::simplify::index::{simplified, SimplifyIndex};
use crate::f4::state::BatchHistory;
use crate::f4::symbolic::materialize::history_wf;
use crate::f4::symbolic::preprocess::{multipliers_sized, preprocess_fits, reaches_unmaterializable, sources_exist, closed_at, heads_of, materialize_error, mono_views, row_origin, row_mono_set, row_products, rows_sound, symbolic_preprocess};
use crate::f4::symbolic::types::{ProductSource, SymbolicRow, SymbolicRowKind, UnevaluatedProduct};
use crate::order::{lemma_compare_equal, spec_gt};
use crate::f4::types::{is_nonzero, lm};
use crate::polynomial::{coeff_sum, lemma_coeff_sum_wf, poly_wf, term_pairs, Polynomial, PolynomialError, Term};
use crate::monomial::{Monomial, MonomialError};
use crate::ring::RingCtx;

verus! {

/// Every monomial of `q` is one of the columns.
pub open spec fn supported_by(cols: Seq<Seq<u32>>, q: Seq<Term>) -> bool {
    forall|t: int| 0 <= t < q.len() ==> cols.contains((#[trigger] q[t]).mono@)
}

/// The canonical polynomial whose coefficient on column `c` is `row[c]`, built from the
/// nonzero entries of a dense row.
fn dense_row_to_polynomial(ctx: &RingCtx, columns: &Vec<Monomial>, row: &Vec<u32>) -> (q: Polynomial)
    requires
        ctx.wf(),
        strictly_decreasing(ctx.order, column_views(columns@), ctx.nvars as nat),
        row@.len() == columns@.len(),
        forall|c: int| 0 <= c < row@.len() ==> ctx.field.is_elem(#[trigger] row@[c]),
    ensures
        poly_wf(*ctx, q@),
        supported_by(column_views(columns@), q@),
        forall|c: int| 0 <= c < columns@.len() ==> coeff_sum(q@, #[trigger] columns@[c]@) == row@[c],
{
    let ghost cols = column_views(columns@);
    let mut terms: Vec<Term> = Vec::new();
    let ghost mut idx: Seq<int> = Seq::empty();
    let mut c: usize = 0;
    while c < row.len()
        invariant
            ctx.wf(),
            cols == column_views(columns@),
            strictly_decreasing(ctx.order, cols, ctx.nvars as nat),
            row@.len() == columns@.len(),
            forall|k: int| 0 <= k < row@.len() ==> ctx.field.is_elem(#[trigger] row@[k]),
            c <= row@.len(),
            idx.len() == terms@.len(),
            forall|t: int| 0 <= t < idx.len() ==> 0 <= #[trigger] idx[t] < c,
            forall|a: int, b: int| 0 <= a < b < idx.len() ==> #[trigger] idx[a] < #[trigger] idx[b],
            forall|t: int| 0 <= t < idx.len() ==> (#[trigger] terms@[t]).mono@ == cols[idx[t]] && terms@[t].coeff == row@[idx[t]] && row@[idx[t]] != 0,
            forall|k: int| 0 <= k < c && row@[k] != 0 ==> exists|t: int| 0 <= t < idx.len() && #[trigger] idx[t] == k,
        decreases row@.len() - c,
    {
        if row[c] != 0 {
            let ghost old_terms = terms@;
            terms.push(Term { coeff: row[c], mono: columns[c].duplicate() });
            proof {
                let old_idx = idx;
                idx = idx.push(c as int);
                assert forall|t: int| 0 <= t < idx.len() implies (#[trigger] terms@[t]).mono@ == cols[idx[t]] && terms@[t].coeff == row@[idx[t]] && row@[idx[t]] != 0 by {
                    if t < old_terms.len() {
                        assert(terms@[t] == old_terms[t]);
                    }
                }
                assert forall|k: int| 0 <= k < c + 1 && row@[k] != 0 implies exists|t: int| 0 <= t < idx.len() && #[trigger] idx[t] == k by {
                    if k == c {
                        assert(idx[idx.len() - 1] == k);
                    } else {
                        let t = choose|t: int| 0 <= t < old_idx.len() && #[trigger] old_idx[t] == k;
                        assert(idx[t] == old_idx[t]);
                    }
                }
            }
        }
        c += 1;
    }
    proof {
        assert(poly_wf(*ctx, terms@)) by {
            assert forall|a: int, b: int| 0 <= a < b < terms@.len() implies spec_gt(ctx.order, (#[trigger] terms@[a]).mono@, (#[trigger] terms@[b]).mono@) by {
                assert(idx[a] < idx[b]);
            }
            assert forall|t: int| 0 <= t < terms@.len() implies (#[trigger] terms@[t]).mono@.len() == ctx.nvars by {
                assert(cols[idx[t]].len() == ctx.nvars);
            }
        }
    }
    let q = Polynomial::from_canonical_terms(ctx, terms);
    proof {
        assert forall|t: int| 0 <= t < q@.len() implies cols.contains((#[trigger] q@[t]).mono@) by {
            assert(cols[idx[t]] == q@[t].mono@);
        }
        assert forall|c: int| 0 <= c < columns@.len() implies coeff_sum(q@, #[trigger] columns@[c]@) == row@[c] by {
            lemma_coeff_sum_wf(*ctx, q@, cols[c]);
            assert(cols[c] == columns@[c]@);
            if row@[c] != 0 {
                let t = choose|t: int| 0 <= t < idx.len() && #[trigger] idx[t] == c;
                assert(q@[t].mono@ == cols[c]);
            } else {
                assert forall|t: int| 0 <= t < q@.len() implies (#[trigger] q@[t]).mono@ != cols[c] by {
                    if idx[t] != c {
                        if idx[t] < c {
                            assert(spec_gt(ctx.order, cols[idx[t]], cols[c]));
                            lemma_compare_equal(ctx.order, cols[idx[t]], cols[c]);
                        } else {
                            assert(spec_gt(ctx.order, cols[c], cols[idx[t]]));
                            lemma_compare_equal(ctx.order, cols[c], cols[idx[t]]);
                        }
                    }
                }
            }
        }
    }
    q
}

/// The dense row of `q` over the columns `cols`.
pub open spec fn dense_coeffs(cols: Seq<Seq<u32>>, q: Seq<Term>) -> Seq<u32> {
    Seq::new(cols.len(), |c: int| coeff_sum(q, cols[c]) as u32)
}

/// The coefficient matrix of `polys` over the columns `cols`.
pub open spec fn dense_matrix(cols: Seq<Seq<u32>>, polys: Seq<Polynomial>) -> Seq<Seq<u32>> {
    Seq::new(polys.len(), |i: int| dense_coeffs(cols, polys[i]@))
}

/// `tilde` is the reduced row echelon form, row for row, of the coefficient matrix of `rows`
/// over the columns `cols` (the monomials of `rows`, largest first), with the same row space.
pub open spec fn echelon_over(ctx: RingCtx, rows: Seq<Polynomial>, tilde: Seq<Polynomial>, cols: Seq<Seq<u32>>) -> bool {
    &&& strictly_decreasing(ctx.order, cols, ctx.nvars as nat)
    &&& cols.to_set() == support(rows)
    &&& tilde.len() == rows.len()
    &&& all_wf(ctx, tilde)
    &&& forall|i: int| 0 <= i < tilde.len() ==> supported_by(cols, (#[trigger] tilde[i])@)
    &&& is_rref(dense_matrix(cols, tilde), cols.len() as int)
    &&& row_equivalent(ctx.field.modulus(), dense_matrix(cols, rows), dense_matrix(cols, tilde))
}

/// `tilde` is a row echelon reduction of `rows` over their monomials.
pub open spec fn row_echelon_of(ctx: RingCtx, rows: Seq<Polynomial>, tilde: Seq<Polynomial>) -> bool {
    exists|cols: Seq<Seq<u32>>| echelon_over(ctx, rows, tilde, cols)
}

/// Matrix metadata for the rows built from `products`: the source index (the basis index,
/// or the row index in a historical batch), the multiplier, and whether the product is one
/// of the batch's initial products.
fn row_meta_of(products: &[UnevaluatedProduct], initial: &[UnevaluatedProduct]) -> (r: Vec<MatrixRowMeta<Monomial>>)
    ensures
        r@.len() == products@.len(),
{
    let mut meta: Vec<MatrixRowMeta<Monomial>> = Vec::new();
    let mut i: usize = 0;
    while i < products.len()
        invariant
            i <= products@.len(),
            meta@.len() == i,
        decreases products@.len() - i,
    {
        let product = &products[i];
        let mut seed = false;
        let mut k: usize = 0;
        while k < initial.len()
            invariant
                k <= initial@.len(),
            decreases initial@.len() - k,
        {
            if initial[k].same(product) {
                seed = true;
            }
            k += 1;
        }
        let source_basis_index = match product.source {
            ProductSource::Basis(b) => b,
            ProductSource::HistoryReducedRow { row_index, .. } => row_index,
        };
        let kind = if seed { SymbolicRowKind::InitialSeed } else { SymbolicRowKind::TopReducerClosure };
        meta.push(MatrixRowMeta { source_basis_index, multiplier: product.multiplier.duplicate(), kind });
        i += 1;
    }
    meta
}

/// Row-reduces the coefficient matrix of `rows` and reads each reduced row back as a
/// polynomial.
fn reduce_rows(ctx: &RingCtx, rows: &[Polynomial], row_meta: Vec<MatrixRowMeta<Monomial>>) -> (r: Result<Vec<Polynomial>, F4Error>)
    requires
        ctx.wf(),
        all_wf(*ctx, rows@),
        row_meta@.len() == rows@.len(),
    ensures
        r matches Ok(tilde) && row_echelon_of(*ctx, rows@, tilde@) && all_wf(*ctx, tilde@),
{
    let data = build_dense_matrix(ctx, rows, row_meta)?;
    let ghost cols = column_views(data.columns.monomials@);
    let ghost input_rows = data.rows@;
    let ghost ncols = data.columns.monomials@.len() as int;
    proof {
        assert forall|i: int| 0 <= i < data.rows@.len() implies (#[trigger] data.rows@[i])@.len() == ncols && forall|c: int| 0 <= c < ncols ==> ctx.field.is_elem(#[trigger] data.rows@[i]@[c]) by {
            assert forall|c: int| 0 <= c < ncols implies ctx.field.is_elem(#[trigger] data.rows@[i]@[c]) by {
                lemma_coeff_sum_wf(*ctx, rows@[i]@, data.columns.monomials@[c]@);
                if exists|t: int| 0 <= t < rows@[i]@.len() && (#[trigger] rows@[i]@[t]).mono@ == data.columns.monomials@[c]@ {
                    let t = choose|t: int| 0 <= t < rows@[i]@.len() && (#[trigger] rows@[i]@[t]).mono@ == data.columns.monomials@[c]@;
                    assert(coeff_sum(rows@[i]@, data.columns.monomials@[c]@) == rows@[i]@[t].coeff);
                }
            }
        }
        if data.rows@.len() > 0 {
            assert(rectangular(*ctx, data.rows@, data.rows@[0]@.len() as int));
        }
    }
    let reduced = row_reduce_dense(ctx, data)?;
    let mut tilde: Vec<Polynomial> = Vec::new();
    let mut i: usize = 0;
    while i < reduced.rows.len()
        invariant
            ctx.wf(),
            i <= reduced.rows@.len(),
            reduced.rows@.len() == rows@.len(),
            cols == column_views(reduced.columns.monomials@),
            ncols == reduced.columns.monomials@.len(),
            strictly_decreasing(ctx.order, cols, ctx.nvars as nat),
            rows@.len() > 0 ==> rectangular(*ctx, reduced.rows@, ncols),
            tilde@.len() == i,
            all_wf(*ctx, tilde@),
            forall|k: int| 0 <= k < i ==> supported_by(cols, (#[trigger] tilde@[k])@),
            forall|k: int| 0 <= k < i ==> dense_coeffs(cols, (#[trigger] tilde@[k])@) == reduced.rows@[k]@,
            row_equivalent(ctx.field.modulus(), matrix_view(input_rows), matrix_view(reduced.rows@)),
            input_rows.len() == rows@.len(),
            forall|k: int| 0 <= k < rows@.len() ==> (#[trigger] input_rows[k])@.len() == ncols && forall|c: int| 0 <= c < ncols ==> (#[trigger] input_rows[k]@[c]) as int == coeff_sum(rows@[k]@, cols[c]),
        decreases reduced.rows@.len() - i,
    {
        let q = dense_row_to_polynomial(ctx, &reduced.columns.monomials, &reduced.rows[i]);
        proof {
            assert(dense_coeffs(cols, q@) =~= reduced.rows@[i as int]@) by {
                assert forall|c: int| 0 <= c < ncols implies dense_coeffs(cols, q@)[c] == reduced.rows@[i as int]@[c] by {
                    assert(coeff_sum(q@, reduced.columns.monomials@[c]@) == reduced.rows@[i as int]@[c]);
                }
            }
        }
        tilde.push(q);
        i += 1;
    }
    proof {
        let m = dense_matrix(cols, tilde@);
        assert(m =~= matrix_view(reduced.rows@));
        if rows@.len() == 0 {
            assert(rref_with(m, ncols, Seq::<int>::empty()));
        }
        assert(dense_matrix(cols, rows@) =~= matrix_view(input_rows)) by {
            assert forall|i: int| 0 <= i < rows@.len() implies #[trigger] dense_matrix(cols, rows@)[i] =~= matrix_view(input_rows)[i] by {
                assert forall|c: int| 0 <= c < ncols implies dense_matrix(cols, rows@)[i][c] == matrix_view(input_rows)[i][c] by {
                    assert(input_rows[i]@[c] as int == coeff_sum(rows@[i]@, cols[c]));
                }
            }
        }
        assert(echelon_over(*ctx, rows@, tilde@, cols));
    }
    Ok(tilde)
}

/// The `(coefficient, monomial)` lists of a list of polynomials.
pub open spec fn poly_views(s: Seq<Polynomial>) -> Seq<Seq<(u32, Seq<u32>)>> {
    Seq::new(s.len(), |i: int| term_pairs(s[i]@))
}

/// The nonzero rows of `tilde` whose leading monomial is not among `heads`, in order.
pub open spec fn new_rows(heads: Seq<Seq<u32>>, tilde: Seq<Seq<(u32, Seq<u32>)>>) -> Seq<Seq<(u32, Seq<u32>)>>
    decreases tilde.len(),
{
    if tilde.len() == 0 {
        Seq::empty()
    } else {
        let prev = new_rows(heads, tilde.drop_last());
        let f = tilde.last();
        if f.len() > 0 && !heads.contains(f[0].1) {
            prev.push(f)
        } else {
            prev
        }
    }
}

/// Keeps the nonzero reduced rows whose leading monomial is not the head of a row of the
/// batch: the rows that add a new leading monomial.
pub fn extract_new_rows(heads: &[Monomial], tilde: &[Polynomial]) -> (r: Vec<Polynomial>)
    ensures
        poly_views(r@) == new_rows(mono_views(heads@), poly_views(tilde@)),
        forall|k: int| 0 <= k < r@.len() ==> exists|i: int| 0 <= i < tilde@.len() && term_pairs((#[trigger] r@[k])@) == term_pairs(tilde@[i]@),
{
    let ghost hv = mono_views(heads@);
    let mut out: Vec<Polynomial> = Vec::new();
    let mut i: usize = 0;
    while i < tilde.len()
        invariant
            i <= tilde@.len(),
            hv == mono_views(heads@),
            poly_views(out@) == new_rows(hv, poly_views(tilde@).subrange(0, i as int)),
            forall|k: int| 0 <= k < out@.len() ==> exists|x: int| 0 <= x < tilde@.len() && term_pairs((#[trigger] out@[k])@) == term_pairs(tilde@[x]@),
        decreases tilde@.len() - i,
    {
        proof {
            assert(poly_views(tilde@).subrange(0, i + 1).drop_last() =~= poly_views(tilde@).subrange(0, i as int));
        }
        let row = &tilde[i];
        let keep = match row.leading_mono() {
            Some(m) => {
                let mut found = false;
                let mut k: usize = 0;
                while k < heads.len()
                    invariant
                        k <= heads@.len(),
                        hv == mono_views(heads@),
                        found <==> exists|x: int| 0 <= x < k && hv[x] == m@,
                    decreases heads@.len() - k,
                {
                    proof {
                        assert(hv[k as int] == heads@[k as int]@);
                    }
                    if heads[k].same(m) {
                        found = true;
                    }
                    k += 1;
                }
                proof {
                    if found {
                        let x = choose|x: int| 0 <= x < k && hv[x] == m@;
                        assert(hv.contains(m@));
                    } else if hv.contains(m@) {
                        let x = choose|x: int| 0 <= x < hv.len() && hv[x] == m@;
                        assert(0 <= x < k && hv[x] == m@);
                    }
                }
                !found
            },
            None => false,
        };
        if keep {
            let ghost before = out@;
            let copy = row.duplicate();
            assert(term_pairs(copy@) =~= term_pairs(tilde@[i as int]@));
            out.push(copy);
            proof {
                assert(out@ == before.push(copy));
                assert forall|k: int| 0 <= k < out@.len() implies #[trigger] poly_views(out@)[k] == poly_views(before).push(term_pairs(tilde@[i as int]@))[k] by {
                    if k < before.len() {
                        assert(out@[k] == before[k]);
                    }
                }
                assert(poly_views(out@) =~= poly_views(before).push(term_pairs(tilde@[i as int]@)));
                assert forall|k: int| 0 <= k < out@.len() implies exists|x: int| 0 <= x < tilde@.len() && term_pairs((#[trigger] out@[k])@) == term_pairs(tilde@[x]@) by {
                    if k < before.len() {
                        assert(out@[k] == before[k]);
                    } else {
                        assert(term_pairs(out@[k]@) == term_pairs(tilde@[i as int]@));
                    }
                }
            }
        }
        i += 1;
    }
    proof {
        assert(poly_views(tilde@).subrange(0, tilde@.len() as int) =~= poly_views(tilde@));
    }
    out
}

/// A polynomial's canonical form depends only on its `(coefficient, monomial)` list.
pub proof fn lemma_wf_term_pairs(ctx: RingCtx, a: Seq<Term>, b: Seq<Term>)
    requires
        poly_wf(ctx, a),
        term_pairs(a) == term_pairs(b),
    ensures
        poly_wf(ctx, b),
{
    assert(a.len() == term_pairs(a).len() && b.len() == term_pairs(b).len());
    assert forall|i: int| 0 <= i < b.len() implies (#[trigger] b[i]).mono@ == a[i].mono@ && b[i].coeff == a[i].coeff by {
        assert(term_pairs(a)[i] == term_pairs(b)[i]);
    }
    assert forall|i: int, j: int| 0 <= i < j < b.len() implies spec_gt(ctx.order, (#[trigger] b[i]).mono@, (#[trigger] b[j]).mono@) by {
        assert(b[i].mono@ == a[i].mono@ && b[j].mono@ == a[j].mono@);
    }
}

/// Copies of canonical polynomials are canonical.
proof fn lemma_copies_wf(ctx: RingCtx, src: Seq<Polynomial>, copies: Seq<Polynomial>)
    requires
        all_wf(ctx, src),
        forall|k: int| 0 <= k < copies.len() ==> exists|i: int| 0 <= i < src.len() && term_pairs((#[trigger] copies[k])@) == term_pairs(src[i]@),
    ensures
        all_wf(ctx, copies),
{
    assert forall|k: int| 0 <= k < copies.len() implies poly_wf(ctx, (#[trigger] copies[k])@) by {
        let i = choose|i: int| 0 <= i < src.len() && term_pairs(copies[k]@) == term_pairs(src[i]@);
        lemma_wf_term_pairs(ctx, src[i]@, copies[k]@);
    }
}

/// The polynomials of a list of symbolic rows.
pub open spec fn row_polys(rows: Seq<SymbolicRow<Polynomial>>) -> Seq<Polynomial> {
    Seq::new(rows.len(), |i: int| rows[i].polynomial)
}

/// The views of a list of products.
pub open spec fn product_views(v: Seq<UnevaluatedProduct>) -> Seq<(ProductSource, Seq<u32>)> {
    Seq::new(v.len(), |i: int| v[i]@)
}

/// The rows `F_d` that symbolic preprocessing may return for the initial products `l_d`:
/// each row is its product materialized, no product occurs twice, every simplified initial
/// product has a row, the row set is closed under simplified top reducers, and every row
/// comes from an initial product or is the top reducer of a monomial of an earlier row that
/// no earlier row leads with.
pub open spec fn preprocessed(
    ctx: RingCtx,
    l_d: Seq<UnevaluatedProduct>,
    basis: Seq<Polynomial>,
    history: Seq<BatchHistory<Polynomial>>,
    rules: Seq<(ProductSource, Seq<u32>, ProductSource)>,
    rows: Seq<SymbolicRow<Polynomial>>,
) -> bool {
    let n = ctx.nvars as nat;
    &&& rows_sound(ctx, basis, history, rows)
    &&& row_products(rows).no_duplicates()
    &&& forall|k: int| 0 <= k < l_d.len() ==> row_products(rows).contains(simplified(rules, n, (#[trigger] l_d[k])@))
    &&& forall|m: Seq<u32>| #[trigger] row_mono_set(rows).contains(m) ==> closed_at(basis, rules, n, rows, m)
    &&& forall|i: int| 0 <= i < rows.len() ==> #[trigger] row_origin(l_d, basis, rules, n, rows, i)
}

/// Output of one F4 reduction phase: the products and heads of the symbolic rows `F_d`, the
/// row echelon reduction `F~_d`, and the rows of `F~_d` with new leading monomials.
#[derive(Debug)]
pub struct ReductionPhase {
    /// Products the rows of `F_d` were built from.
    pub f_d_products: Vec<UnevaluatedProduct>,
    /// Leading monomials of the nonzero rows of `F_d`.
    pub f_d_heads: Vec<Monomial>,
    /// Row echelon reduction of `F_d`.
    pub f_d_tilde: Vec<Polynomial>,
    /// Rows of `F~_d` whose leading monomial is new.
    pub extracted_rows: Vec<Polynomial>,
}

/// The phase is the outcome of reducing the symbolic rows `rows`.
pub open spec fn phase_of(
    ctx: RingCtx,
    l_d: Seq<UnevaluatedProduct>,
    basis: Seq<Polynomial>,
    history: Seq<BatchHistory<Polynomial>>,
    rules: Seq<(ProductSource, Seq<u32>, ProductSource)>,
    rows: Seq<SymbolicRow<Polynomial>>,
    phase: ReductionPhase,
) -> bool {
    &&& preprocessed(ctx, l_d, basis, history, rules, rows)
    &&& product_views(phase.f_d_products@) == row_products(rows)
    &&& mono_views(phase.f_d_heads@) == heads_of(rows)
    &&& row_echelon_of(ctx, row_polys(rows), phase.f_d_tilde@)
    &&& poly_views(phase.extracted_rows@) == new_rows(heads_of(rows), poly_views(phase.f_d_tilde@))
    &&& all_wf(ctx, phase.extracted_rows@)
}

/// The phase is the outcome of reducing some admissible symbolic row set `F_d` of `l_d`.
pub open spec fn reduces_batch(
    ctx: RingCtx,
    l_d: Seq<UnevaluatedProduct>,
    basis: Seq<Polynomial>,
    history: Seq<BatchHistory<Polynomial>>,
    rules: Seq<(ProductSource, Seq<u32>, ProductSource)>,
    phase: ReductionPhase,
) -> bool {
    exists|rows: Seq<SymbolicRow<Polynomial>>| #[trigger] phase_of(ctx, l_d, basis, history, rules, rows, phase)
}

/// Runs the reduction phase for the initial products `l_d` of a selected batch: symbolic
/// preprocessing builds `F_d`, its coefficient matrix is brought to reduced row echelon
/// form `F~_d`, and the rows of `F~_d` with a leading monomial that no row of `F_d` has are
/// extracted. Extracted rows are canonical and monic already, so the normalization option
/// leaves them as they are.
pub fn reduction_phase(
    ctx: &RingCtx,
    opts: &F4Options,
    l_d: &[UnevaluatedProduct],
    basis: &[Polynomial],
    history: &[BatchHistory<Polynomial>],
    simplify_index: &SimplifyIndex,
) -> (r: Result<ReductionPhase, F4Error>)
    requires
        ctx.wf(),
        all_wf(*ctx, basis@),
        history_wf(*ctx, history@),
    ensures
        r matches Err(e) ==> materialize_error(basis@, history@, e),
        r is Err ==> exists|rows: Seq<SymbolicRow<Polynomial>>, p: (ProductSource, Seq<u32>)|
            #[trigger] reaches_unmaterializable(*ctx, l_d@, basis@, history@, simplify_index.rules_view(), rows, p),
        preprocess_fits(*ctx, l_d@, basis@, history@, simplify_index.rules_view()) ==> r is Ok,
        l_d@.len() == 0 ==> r is Ok,
        sources_exist(basis@, history@, simplify_index.rules_view(), l_d@) ==> (r matches Err(e) ==> e is Polynomial),
        sources_exist(basis@, history@, simplify_index.rules_view(), l_d@) && multipliers_sized(l_d@, ctx.nvars as nat)
            ==> (r matches Err(e) ==> e == F4Error::Polynomial(PolynomialError::Monomial(MonomialError::ExponentOverflow))),
        r matches Ok(phase) ==> reduces_batch(*ctx, l_d@, basis@, history@, simplify_index.rules_view(), phase),
{
    let f_d = symbolic_preprocess(ctx, l_d, basis, history, simplify_index)?;
    let ghost rows = f_d.rows@;
    let (f_d_rows, f_d_products, f_d_heads) = f_d.into_rows_parts();
    proof {
        assert(f_d_rows@ =~= row_polys(rows));
        assert(product_views(f_d_products@) =~= row_products(rows));
        assert(all_wf(*ctx, f_d_rows@)) by {
            assert forall|i: int| 0 <= i < f_d_rows@.len() implies poly_wf(*ctx, (#[trigger] f_d_rows@[i])@) by {
                assert(f_d_rows@[i] == rows[i].polynomial);
            }
        }
    }
    let meta = row_meta_of(f_d_products.as_slice(), l_d);
    let f_d_tilde = reduce_rows(ctx, f_d_rows.as_slice(), meta)?;
    let extracted_rows = extract_new_rows(f_d_heads.as_slice(), f_d_tilde.as_slice());
    proof {
        lemma_copies_wf(*ctx, f_d_tilde@, extracted_rows@);
    }
    let phase = ReductionPhase { f_d_products, f_d_heads, f_d_tilde, extracted_rows };
    proof {
        assert(phase_of(*ctx, l_d@, basis@, history@, simplify_index.rules_view(), rows, phase));
        assert(reduces_batch(*ctx, l_d@, basis@, history@, simplify_index.rules_view(), phase));
    }
    Ok(phase)
}

/// The coefficient of a canonical polynomial at a monomial is a field element.
proof fn lemma_coeff_sum_elem(ctx: RingCtx, s: Seq<Term>, x: Seq<u32>)
    requires
        ctx.wf(),
        poly_wf(ctx, s),
    ensures
        0 <= coeff_sum(s, x) < ctx.field.modulus(),
        coeff_sum(s, x) as u32 == coeff_sum(s, x),
        coeff_sum(s, x) == 0 <==> forall|i: int| 0 <= i < s.len() ==> (#[trigger] s[i]).mono@ != x,
{
    lemma_coeff_sum_wf(ctx, s, x);
    if exists|i: int| 0 <= i < s.len() && (#[trigger] s[i]).mono@ == x {
        let i = choose|i: int| 0 <= i < s.len() && (#[trigger] s[i]).mono@ == x;
        assert(0 < s[i].coeff < ctx.field.modulus());
    }
}

/// Every nonzero polynomial over the columns whose coefficients lie in the row space of
/// `F_d` has the leading monomial of a row of its reduced row echelon form `F~_d`.
pub proof fn lemma_echelon_leading(ctx: RingCtx, rows: Seq<Polynomial>, tilde: Seq<Polynomial>, cols: Seq<Seq<u32>>, q: Seq<Term>)
    requires
        ctx.wf(),
        echelon_over(ctx, rows, tilde, cols),
        poly_wf(ctx, q),
        q.len() > 0,
        supported_by(cols, q),
        in_span(ctx.field.modulus(), dense_matrix(cols, rows), dense_coeffs(cols, q)),
    ensures
        exists|i: int| 0 <= i < tilde.len() && is_nonzero(#[trigger] tilde[i]) && lm(tilde[i]) == q[0].mono@,
{
    let p = ctx.field.modulus() as int;
    let n = cols.len() as int;
    let dr = dense_matrix(cols, rows);
    let dt = dense_matrix(cols, tilde);
    let v = dense_coeffs(cols, q);
    let o = ctx.order;
    assert forall|j: int| 0 <= j < dr.len() implies v.len() <= (#[trigger] dr[j]).len() by {}
    lemma_span_trans(p, dt, dr, v);
    assert(crate::f4::matrix::span::uniform(dt, n));
    let pivots = choose|pivots: Seq<int>| rref_with(dt, n, pivots);
    assert(rref_with(dt, n, pivots));
    let m = q[0].mono@;
    assert(cols.contains(m));
    let c0 = choose|c: int| 0 <= c < cols.len() && cols[c] == m;
    assert forall|c: int| 0 <= c < n implies #[trigger] v[c] < p by {
        lemma_coeff_sum_elem(ctx, q, cols[c]);
    }
    lemma_coeff_sum_elem(ctx, q, m);
    assert(coeff_sum(q, m) != 0) by {
        assert(q[0].mono@ == m);
    }
    assert(v[c0] == coeff_sum(q, cols[c0]) as u32);
    assert(v[c0] != 0);
    assert forall|c: int| 0 <= c < c0 implies #[trigger] v[c] == 0 by {
        assert(spec_gt(o, cols[c], cols[c0]));
        assert forall|t: int| 0 <= t < q.len() implies (#[trigger] q[t]).mono@ != cols[c] by {
            if t > 0 {
                assert(spec_gt(o, q[0].mono@, q[t].mono@));
                if q[t].mono@ == cols[c] {
                    crate::order::lemma_compare_flip(o, q[0].mono@, q[t].mono@);
                }
            } else {
                lemma_compare_equal(o, cols[c], cols[c0]);
            }
        }
        lemma_coeff_sum_elem(ctx, q, cols[c]);
    }
    assert(zero_before(v, c0));
    lemma_rref_leading_pivot(p, dt, n, pivots, v, c0);
    let i = choose|i: int| 0 <= i < pivots.len() && pivots[i] == c0;
    assert(dt[i][c0] == 1);
    assert(zero_before(dt[i], c0));
    let g = tilde[i]@;
    assert(poly_wf(ctx, g));
    lemma_coeff_sum_elem(ctx, g, m);
    assert(dt[i] == dense_coeffs(cols, g));
    assert(dt[i][c0] == coeff_sum(g, cols[c0]) as u32);
    assert(coeff_sum(g, m) == 1);
    let t = choose|t: int| 0 <= t < g.len() && (#[trigger] g[t]).mono@ == m;
    assert(is_nonzero(tilde[i]));
    let l = g[0].mono@;
    assert(cols.contains(l));
    let c1 = choose|c: int| 0 <= c < cols.len() && cols[c] == l;
    lemma_coeff_sum_elem(ctx, g, l);
    if c1 < c0 {
        assert(dt[i][c1] == 0);
    } else if c1 > c0 {
        assert(spec_gt(o, m, l));
        if t > 0 {
            assert(spec_gt(o, l, m));
            crate::order::lemma_compare_flip(o, l, m);
        } else {
            lemma_compare_equal(o, m, l);
        }
    }
    assert(lm(tilde[i]) == m);
}

/// A nonzero row whose leading monomial is not among `heads` is kept by `new_rows`.
proof fn lemma_new_rows_keeps(heads: Seq<Seq<u32>>, tv: Seq<Seq<(u32, Seq<u32>)>>, i: int)
    requires
        0 <= i < tv.len(),
        tv[i].len() > 0,
        !heads.contains(tv[i][0].1),
    ensures
        new_rows(heads, tv).contains(tv[i]),
    decreases tv.len(),
{
    let t0 = tv.drop_last();
    if i < tv.len() - 1 {
        assert(t0[i] == tv[i]);
        lemma_new_rows_keeps(heads, t0, i);
        let k = choose|k: int| 0 <= k < new_rows(heads, t0).len() && new_rows(heads, t0)[k] == tv[i];
        let cur = new_rows(heads, tv);
        assert(cur[k] == new_rows(heads, t0)[k]);
    } else {
        assert(tv.last() == tv[i]);
        let cur = new_rows(heads, tv);
        assert(cur[cur.len() - 1] == tv[i]);
    }
}

/// The F4 reduction law: every nonzero polynomial over the columns whose coefficients lie
/// in the row space of `F_d` leads with a head of `F_d` or with the leading monomial of one
/// of the extracted rows.
pub proof fn lemma_phase_leading(
    ctx: RingCtx,
    l_d: Seq<UnevaluatedProduct>,
    basis: Seq<Polynomial>,
    history: Seq<BatchHistory<Polynomial>>,
    rules: Seq<(ProductSource, Seq<u32>, ProductSource)>,
    rows: Seq<SymbolicRow<Polynomial>>,
    phase: ReductionPhase,
    cols: Seq<Seq<u32>>,
    q: Seq<Term>,
)
    requires
        ctx.wf(),
        phase_of(ctx, l_d, basis, history, rules, rows, phase),
        echelon_over(ctx, row_polys(rows), phase.f_d_tilde@, cols),
        poly_wf(ctx, q),
        q.len() > 0,
        supported_by(cols, q),
        in_span(ctx.field.modulus(), dense_matrix(cols, row_polys(rows)), dense_coeffs(cols, q)),
    ensures
        heads_of(rows).contains(q[0].mono@) || exists|k: int|
            0 <= k < phase.extracted_rows@.len() && is_nonzero(#[trigger] phase.extracted_rows@[k]) && lm(phase.extracted_rows@[k]) == q[0].mono@,
{
    let tilde = phase.f_d_tilde@;
    lemma_echelon_leading(ctx, row_polys(rows), tilde, cols, q);
    let i = choose|i: int| 0 <= i < tilde.len() && is_nonzero(#[trigger] tilde[i]) && lm(tilde[i]) == q[0].mono@;
    if !heads_of(rows).contains(q[0].mono@) {
        let tv = poly_views(tilde);
        assert(tv[i] == term_pairs(tilde[i]@));
        assert(tv[i][0].1 == tilde[i]@[0].mono@);
        lemma_new_rows_keeps(heads_of(rows), tv, i);
        let ex = phase.extracted_rows@;
        let nr = new_rows(heads_of(rows), tv);
        assert(poly_views(ex) == nr);
        let k = choose|k: int| 0 <= k < nr.len() && nr[k] == tv[i];
        assert(term_pairs(ex[k]@) == term_pairs(tilde[i]@));
        assert(term_pairs(ex[k]@)[0] == term_pairs(tilde[i]@)[0]);
        assert(ex[k]@.len() == term_pairs(ex[k]@).len());
        assert(is_nonzero(ex[k]));
        assert(lm(ex[k]) == q[0].mono@);
    }
}

} // verus!
