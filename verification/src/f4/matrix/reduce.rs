//! Dense Gaussian elimination of F4 matrices.

use vstd::prelude::*;

use crate::f4::error::F4Error;
use crate::f4::matrix::types::{DenseMatrixData, ReducedMatrixData};
use crate::monomial::Monomial;
use crate::ring::RingCtx;
use crate::f4::matrix::span::{combo_of, lin, lemma_elim_equiv, lemma_equiv_refl, lemma_equiv_trans, lemma_scale_equiv, lemma_swap_equiv, row_equivalent, uniform};

verus! {

/// The rows of a dense matrix as sequences.
pub open spec fn matrix_view(rows: Seq<Vec<u32>>) -> Seq<Seq<u32>> {
    Seq::new(rows.len(), |i: int| rows[i]@)
}

/// The first `c` entries of `row` are zero.
pub open spec fn zero_before(row: Seq<u32>, c: int) -> bool {
    forall|k: int| 0 <= k < c ==> #[trigger] row[k] == 0
}

/// `rows` is in reduced row echelon form with pivot columns `pivots`: pivot row `i` starts
/// with a `1` in column `pivots[i]`, pivot columns increase, every other row is zero in a
/// pivot column, and the rows after the pivot rows are zero.
pub open spec fn rref_with(rows: Seq<Seq<u32>>, ncols: int, pivots: Seq<int>) -> bool {
    &&& pivots.len() <= rows.len()
    &&& forall|i: int, j: int| 0 <= i < j < pivots.len() ==> #[trigger] pivots[i] < #[trigger] pivots[j]
    &&& forall|i: int|
        0 <= i < pivots.len() ==> 0 <= #[trigger] pivots[i] < ncols && rows[i][pivots[i]] == 1 && zero_before(rows[i], pivots[i])
    &&& forall|i: int, k: int| 0 <= i < pivots.len() && 0 <= k < rows.len() && k != i ==> #[trigger] rows[k][#[trigger] pivots[i]] == 0
    &&& forall|k: int| pivots.len() <= k < rows.len() ==> zero_before(#[trigger] rows[k], ncols)
}

/// `rows` is in reduced row echelon form.
pub open spec fn is_rref(rows: Seq<Seq<u32>>, ncols: int) -> bool {
    exists|pivots: Seq<int>| rref_with(rows, ncols, pivots)
}

/// Every row has `ncols` entries, each a field element.
pub open spec fn rectangular(ctx: RingCtx, rows: Seq<Vec<u32>>, ncols: int) -> bool {
    forall|i: int| 0 <= i < rows.len() ==> (#[trigger] rows[i])@.len() == ncols && forall|c: int| 0 <= c < ncols ==> ctx.field.is_elem(#[trigger] rows[i]@[c])
}

/// The first row at or after `k` whose entry in column `c` is nonzero; the row count when
/// there is none.
pub open spec fn first_nonzero(m: Seq<Seq<u32>>, c: int, k: int) -> int
    decreases m.len() - k,
{
    if k < 0 || k >= m.len() {
        m.len() as int
    } else if m[k][c] != 0 {
        k
    } else {
        first_nonzero(m, c, k + 1)
    }
}

/// An inverse of `a` modulo `p`.
pub open spec fn inverse_mod(p: int, a: int) -> int {
    choose|x: int| #![trigger (a * x)] (a * x) % p == 1
}

/// Row `w` with its entries from column `c` on multiplied by `f`, modulo `p`.
pub open spec fn scaled_row(p: int, w: Seq<u32>, c: int, f: int) -> Seq<u32> {
    Seq::new(w.len(), |j: int| if j < c { w[j] } else { ((w[j] * f) % p) as u32 })
}

/// Row `w` minus `f` times row `pv`, from column `c` on, modulo `p`.
pub open spec fn eliminated_row(p: int, w: Seq<u32>, pv: Seq<u32>, c: int, f: int) -> Seq<u32> {
    Seq::new(w.len(), |j: int| if j < c { w[j] } else { ((w[j] - (f * pv[j]) % p) % p) as u32 })
}

/// Column `c` cleared with pivot row `r` in every other row that is nonzero there.
pub open spec fn cleared(p: int, t: Seq<Seq<u32>>, r: int, c: int) -> Seq<Seq<u32>> {
    Seq::new(t.len(), |i: int| if i == r || t[i][c] == 0 { t[i] } else { eliminated_row(p, t[i], t[r], c, t[i][c] as int) })
}

/// One pivot: row `k` swapped into row `r`, scaled to a leading one in column `c`, and
/// column `c` cleared in every other row.
pub open spec fn pivot_step(p: int, m: Seq<Seq<u32>>, r: int, c: int, k: int) -> Seq<Seq<u32>> {
    let s = m.update(r, m[k]).update(k, m[r]);
    cleared(p, s.update(r, scaled_row(p, s[r], c, inverse_mod(p, s[r][c] as int))), r, c)
}

/// The row labels `meta` after the pivots that row reduction of `m` makes from row `r` and
/// column `c` on: the first row at or below `r` that is nonzero in column `c` becomes the
/// pivot row, and its label is swapped with that of row `r` as the rows are.
pub open spec fn labels_after<M>(p: int, m: Seq<Seq<u32>>, meta: Seq<M>, r: int, c: int, ncols: int) -> Seq<M>
    decreases ncols - c,
{
    if c < 0 || r < 0 || c >= ncols || r >= m.len() {
        meta
    } else if first_nonzero(m, c, r) >= m.len() {
        labels_after(p, m, meta, r, c + 1, ncols)
    } else {
        let k = first_nonzero(m, c, r);
        labels_after(p, pivot_step(p, m, r, c, k), meta.update(r, meta[k]).update(k, meta[r]), r + 1, c + 1, ncols)
    }
}

/// The search from row `r` stops at the first row that is nonzero in column `c`.
proof fn lemma_first_nonzero(m: Seq<Seq<u32>>, c: int, r: int, f: int)
    requires
        0 <= r <= f <= m.len(),
        forall|k: int| r <= k < f ==> #[trigger] m[k][c] == 0,
        f < m.len() ==> m[f][c] != 0,
    ensures
        first_nonzero(m, c, r) == f,
    decreases f - r,
{
    if r < f {
        lemma_first_nonzero(m, c, r + 1, f);
    }
}

/// Scaling by one inverse of `a` is scaling by any other.
proof fn lemma_scaled_by_inverse(p: int, w: Seq<u32>, c: int, a: int, inv: int, v: Seq<u32>)
    requires
        p > 0,
        (a * inv) % p == 1,
        v.len() == w.len(),
        forall|j: int| 0 <= j < c && j < w.len() ==> #[trigger] v[j] == w[j],
        forall|j: int| c <= j < w.len() ==> #[trigger] v[j] == (w[j] * inv) % p,
    ensures
        v == scaled_row(p, w, c, inverse_mod(p, a)),
{
    let im = inverse_mod(p, a);
    assert((a * im) % p == 1);
    assert(inv * a == a * inv && im * a == a * im) by (nonlinear_arith);
    assert forall|j: int| 0 <= j < w.len() implies #[trigger] v[j] == scaled_row(p, w, c, im)[j] by {
        if j >= c {
            crate::spoly::lemma_inverse_unique(p, inv, im, a, w[j] as int);
            assert(w[j] * inv == inv * w[j] && w[j] * im == im * w[j]) by (nonlinear_arith);
            assert(0 <= (w[j] * im) % p < p);
        }
    }
    assert(v =~= scaled_row(p, w, c, im));
}

/// A rectangular matrix has rows of equal length.
proof fn lemma_uniform(ctx: RingCtx, rows: Seq<Vec<u32>>, ncols: int)
    requires
        rectangular(ctx, rows, ncols),
    ensures
        uniform(matrix_view(rows), ncols),
{
    assert forall|i: int| 0 <= i < matrix_view(rows).len() implies (#[trigger] matrix_view(rows)[i]).len() == ncols by {
        assert(matrix_view(rows)[i] == rows[i]@);
    }
}

/// `x mod p` is congruent to `x`.
proof fn lemma_mod_sub_self(p: int, x: int)
    requires
        p > 0,
    ensures
        (x % p - x) % p == 0,
{
    vstd::arithmetic::div_mod::lemma_fundamental_div_mod(x, p);
    let q = x / p;
    assert(x % p - x == (-q) * p) by (nonlinear_arith)
        requires
            x == p * q + x % p,
    ;
    vstd::arithmetic::div_mod::lemma_mod_multiples_basic(-q, p);
}

/// `(a - y mod p) mod p` is congruent to `a - y`.
proof fn lemma_sub_mod_congruent(p: int, a: int, y: int)
    requires
        p > 0,
    ensures
        ((a - y % p) % p - (a - y)) % p == 0,
{
    vstd::arithmetic::div_mod::lemma_fundamental_div_mod(y, p);
    vstd::arithmetic::div_mod::lemma_fundamental_div_mod(a - y % p, p);
    let q1 = y / p;
    let q2 = (a - y % p) / p;
    assert((a - y % p) % p - (a - y) == (q1 - q2) * p) by (nonlinear_arith)
        requires
            y == p * q1 + y % p,
            a - y % p == p * q2 + (a - y % p) % p,
    ;
    vstd::arithmetic::div_mod::lemma_mod_multiples_basic(q1 - q2, p);
}

/// Exchanging two entries keeps the multiset of entries.
pub proof fn lemma_swap_multiset<T>(s: Seq<T>, a: int, b: int)
    requires
        0 <= a < s.len(),
        0 <= b < s.len(),
    ensures
        s.update(a, s[b]).update(b, s[a]).to_multiset() == s.to_multiset(),
{
    broadcast use {
        vstd::multiset::group_multiset_axioms,
        vstd::seq_lib::to_multiset_update,
        vstd::seq_lib::to_multiset_contains,
    };
    if a == b {
        assert(s.update(a, s[b]).update(b, s[a]) =~= s);
    } else {
        let s1 = s.update(a, s[b]);
        assert(s1[b] == s[b]);
        assert(s1.update(b, s[a]).to_multiset() =~= s.to_multiset());
    }
}

/// Exchanges the entries at `a` and `b`.
fn swap_entries<T>(v: &mut Vec<T>, a: usize, b: usize)
    requires
        a <= b < old(v)@.len(),
    ensures
        final(v)@ == old(v)@.update(a as int, old(v)@[b as int]).update(b as int, old(v)@[a as int]),
{
    if a == b {
        proof {
            assert(old(v)@.update(a as int, old(v)@[b as int]).update(b as int, old(v)@[a as int]) =~= old(v)@);
        }
        return;
    }
    let ghost s = v@;
    let y = v.remove(b);
    let x = v.remove(a);
    v.insert(a, y);
    v.insert(b, x);
    proof {
        assert(v@ =~= s.update(a as int, s[b as int]).update(b as int, s[a as int]));
    }
}

/// Dense Gaussian elimination over the coefficient field.
///
/// Pivots are chosen by scanning columns left to right; each pivot row is scaled to a
/// leading `1` and the pivot column is cleared in every other row. Columns are kept; the
/// row metadata follows the row swaps.
pub fn row_reduce_dense(ctx: &RingCtx, data: DenseMatrixData<u32, Monomial>) -> (r: Result<ReducedMatrixData<u32, Monomial>, F4Error>)
    requires
        ctx.wf(),
        data.rows@.len() == data.row_meta@.len(),
        data.rows@.len() > 0 ==> rectangular(*ctx, data.rows@, data.rows@[0]@.len() as int),
    ensures
        r matches Ok(out) && {
            &&& out.rows@.len() == data.rows@.len()
            &&& out.row_meta@.len() == data.row_meta@.len()
            &&& out.row_meta@.to_multiset() == data.row_meta@.to_multiset()
            &&& out.columns == data.columns
            &&& data.rows@.len() > 0 ==> rectangular(*ctx, out.rows@, data.rows@[0]@.len() as int)
            &&& data.rows@.len() > 0 ==> is_rref(matrix_view(out.rows@), data.rows@[0]@.len() as int)
            &&& row_equivalent(ctx.field.modulus(), matrix_view(data.rows@), matrix_view(out.rows@))
            &&& data.rows@.len() == 0 ==> out.row_meta@ == data.row_meta@
            &&& data.rows@.len() > 0 ==> out.row_meta@ == labels_after(ctx.field.modulus(), matrix_view(data.rows@), data.row_meta@, 0, 0, data.rows@[0]@.len() as int)
        },
{
    let ghost meta0 = data.row_meta@;
    let DenseMatrixData { rows, columns, row_meta } = data;
    let mut rows = rows;
    let mut row_meta = row_meta;
    let ghost input = matrix_view(rows@);
    if rows.len() == 0 {
        proof {
            assert(matrix_view(Seq::<Vec<u32>>::empty()) =~= input);
            lemma_equiv_refl(ctx.field.modulus(), input);
        }
        return Ok(ReducedMatrixData { rows: Vec::new(), columns, row_meta });
    }
    let nrows = rows.len();
    let ncols = rows[0].len();
    let ghost mut pivots: Seq<int> = Seq::empty();
    let mut pivot_row: usize = 0;
    let mut pivot_col: usize = 0;
    let ghost p = ctx.field.modulus();
    proof {
        lemma_equiv_refl(p, input);
        assert(uniform(input, ncols as int));
    }
    while pivot_col < ncols && pivot_row < nrows
        invariant
            ctx.wf(),
            p == ctx.field.modulus(),
            uniform(input, ncols as int),
            row_equivalent(p, input, matrix_view(rows@)),
            rows@.len() == nrows,
            row_meta@.len() == nrows,
            row_meta@.to_multiset() == meta0.to_multiset(),
            nrows > 0,
            pivot_col <= ncols,
            pivot_row <= nrows,
            pivots.len() == pivot_row,
            rectangular(*ctx, rows@, ncols as int),
            forall|i: int, j: int| 0 <= i < j < pivots.len() ==> #[trigger] pivots[i] < #[trigger] pivots[j],
            forall|i: int|
                0 <= i < pivots.len() ==> 0 <= #[trigger] pivots[i] < pivot_col && rows@[i]@[pivots[i]] == 1 && zero_before(rows@[i]@, pivots[i]),
            forall|i: int, k: int| 0 <= i < pivots.len() && 0 <= k < nrows && k != i ==> #[trigger] rows@[k]@[#[trigger] pivots[i]] == 0,
            forall|k: int| pivot_row <= k < nrows ==> zero_before(#[trigger] rows@[k]@, pivot_col as int),
            ncols == input[0].len(),
            labels_after(p, input, meta0, 0, 0, ncols as int) == labels_after(p, matrix_view(rows@), row_meta@, pivot_row as int, pivot_col as int, ncols as int),
        decreases ncols - pivot_col,
    {
        let ghost mv0 = matrix_view(rows@);
        let ghost meta_start = row_meta@;
        let mut found: usize = pivot_row;
        while found < nrows && rows[found][pivot_col] == 0
            invariant
                rows@.len() == nrows,
                pivot_row <= found <= nrows,
                pivot_col < ncols,
                rectangular(*ctx, rows@, ncols as int),
                forall|k: int| pivot_row <= k < found ==> #[trigger] rows@[k]@[pivot_col as int] == 0,
            decreases nrows - found,
        {
            found += 1;
        }
        proof {
            assert forall|k: int| pivot_row <= k < found implies #[trigger] mv0[k][pivot_col as int] == 0 by {
                assert(mv0[k] == rows@[k]@);
            }
            if found < nrows {
                assert(mv0[found as int] == rows@[found as int]@);
            }
            lemma_first_nonzero(mv0, pivot_col as int, pivot_row as int, found as int);
        }
        if found == nrows {
            proof {
                assert forall|k: int| pivot_row <= k < nrows implies zero_before(#[trigger] rows@[k]@, pivot_col + 1) by {
                    assert(zero_before(rows@[k]@, pivot_col as int));
                }
            }
            pivot_col += 1;
        } else {
            let ghost before_swap = rows@;
            swap_entries(&mut rows, pivot_row, found);
            let ghost meta_before = row_meta@;
            swap_entries(&mut row_meta, pivot_row, found);
            proof {
                lemma_swap_multiset(meta_before, pivot_row as int, found as int);
                let mb = matrix_view(before_swap);
                lemma_swap_equiv(p, mb, pivot_row as int, found as int);
                assert(matrix_view(rows@) =~= mb.update(pivot_row as int, mb[found as int]).update(found as int, mb[pivot_row as int]));
                lemma_uniform(*ctx, before_swap, ncols as int);
                lemma_uniform(*ctx, rows@, ncols as int);
                lemma_equiv_trans(p, input, mb, matrix_view(rows@), ncols as int);
                assert forall|k: int| pivot_row <= k < nrows implies zero_before(#[trigger] rows@[k]@, pivot_col as int) by {
                    if k == pivot_row {
                        assert(rows@[k] == before_swap[found as int]);
                    } else if k == found {
                        assert(rows@[k] == before_swap[pivot_row as int]);
                    } else {
                        assert(rows@[k] == before_swap[k]);
                    }
                }
                assert forall|i: int, k: int| 0 <= i < pivots.len() && 0 <= k < nrows && k != i implies #[trigger] rows@[k]@[#[trigger] pivots[i]] == 0 by {
                    if k == pivot_row {
                        assert(rows@[k] == before_swap[found as int]);
                    } else if k == found {
                        assert(rows@[k] == before_swap[pivot_row as int]);
                    } else {
                        assert(rows@[k] == before_swap[k]);
                    }
                }
                assert forall|i: int| 0 <= i < pivots.len() implies rows@[i] == before_swap[i] by {}
            }
            let inv = match ctx.field.try_inv(rows[pivot_row][pivot_col]) {
                Some(x) => x,
                None => return Err(F4Error::RowReductionInvariant),
            };
            let ghost before_scale = rows@;
            let mut c: usize = pivot_col;
            while c < ncols
                invariant
                    ctx.wf(),
                    rows@.len() == nrows,
                    pivot_row < nrows,
                    pivot_col <= c <= ncols,
                    before_scale.len() == nrows,
                    ctx.field.is_elem(inv),
                    rectangular(*ctx, rows@, ncols as int),
                    forall|k: int| 0 <= k < nrows && k != pivot_row ==> rows@[k] == before_scale[k],
                    rows@[pivot_row as int]@.len() == ncols,
                    forall|j: int| 0 <= j < pivot_col ==> #[trigger] rows@[pivot_row as int]@[j] == before_scale[pivot_row as int]@[j],
                    forall|j: int| pivot_col <= j < c ==> #[trigger] rows@[pivot_row as int]@[j] == (before_scale[pivot_row as int]@[j] * inv) % ctx.field.modulus(),
                    forall|j: int| c <= j < ncols ==> #[trigger] rows@[pivot_row as int]@[j] == before_scale[pivot_row as int]@[j],
                decreases ncols - c,
            {
                let v = ctx.field.mul(rows[pivot_row][c], inv);
                let ghost rows_before = rows@;
                rows[pivot_row][c] = v;
                proof {
                    assert forall|i: int| 0 <= i < rows@.len() implies (#[trigger] rows@[i])@.len() == ncols && forall|cc: int| 0 <= cc < ncols ==> ctx.field.is_elem(#[trigger] rows@[i]@[cc]) by {
                        if i != pivot_row {
                            assert(rows@[i] == rows_before[i]);
                        }
                    }
                }
                c += 1;
            }
            let ghost before_elim = rows@;
            proof {
                assert(rows@[pivot_row as int]@[pivot_col as int] == 1);
                let ms = matrix_view(before_scale);
                let w = rows@[pivot_row as int]@;
                let lc = before_scale[pivot_row as int]@[pivot_col as int] as int;
                assert((inv * lc) % p == 1) by {
                    assert(lc * inv == inv * lc) by (nonlinear_arith);
                }
                assert forall|c: int| 0 <= c < w.len() implies (w[c] - inv * ms[pivot_row as int][c]) % p == 0 by {
                    let b = ms[pivot_row as int][c] as int;
                    if c < pivot_col {
                        assert(zero_before(before_scale[pivot_row as int]@, pivot_col as int));
                        assert(b == 0);
                        assert(w[c] == 0);
                        assert(inv * 0 == 0) by (nonlinear_arith);
                        assert(0int % p == 0);
                    } else {
                        assert(w[c] == (b * inv) % p);
                        assert(b * inv == inv * b) by (nonlinear_arith);
                        lemma_mod_sub_self(p, inv * b);
                    }
                }
                lemma_scale_equiv(p, ms, pivot_row as int, w, inv as int, lc);
                assert(matrix_view(rows@) =~= ms.update(pivot_row as int, w));
                lemma_uniform(*ctx, before_scale, ncols as int);
                lemma_uniform(*ctx, rows@, ncols as int);
                lemma_equiv_trans(p, input, ms, matrix_view(rows@), ncols as int);
            }
            let ghost s_view = matrix_view(before_scale);
            let ghost t_view = matrix_view(before_elim);
            proof {
                assert(s_view =~= mv0.update(pivot_row as int, mv0[found as int]).update(found as int, mv0[pivot_row as int]));
                assert(s_view[pivot_row as int] == before_scale[pivot_row as int]@);
                assert(t_view[pivot_row as int] == before_elim[pivot_row as int]@);
                lemma_scaled_by_inverse(p, s_view[pivot_row as int], pivot_col as int, s_view[pivot_row as int][pivot_col as int] as int, inv as int, t_view[pivot_row as int]);
                assert forall|k: int| 0 <= k < nrows && k != pivot_row implies #[trigger] t_view[k] == s_view[k] by {
                    assert(before_elim[k] == before_scale[k]);
                }
                assert(t_view =~= s_view.update(pivot_row as int, scaled_row(p, s_view[pivot_row as int], pivot_col as int, inverse_mod(p, s_view[pivot_row as int][pivot_col as int] as int))));
                assert(cleared(p, t_view, pivot_row as int, pivot_col as int) == pivot_step(p, mv0, pivot_row as int, pivot_col as int, found as int));
            }
            let mut r: usize = 0;
            while r < nrows
                invariant
                    ctx.wf(),
                    rows@.len() == nrows,
                    pivot_row < nrows,
                    pivot_col < ncols,
                    r <= nrows,
                    before_elim.len() == nrows,
                    rectangular(*ctx, rows@, ncols as int),
                    rows@[pivot_row as int] == before_elim[pivot_row as int],
                    rows@[pivot_row as int]@[pivot_col as int] == 1,
                    zero_before(rows@[pivot_row as int]@, pivot_col as int),
                    forall|k: int| r <= k < nrows ==> rows@[k] == before_elim[k],
                    forall|k: int| 0 <= k < r && k != pivot_row ==> #[trigger] rows@[k]@[pivot_col as int] == 0,
                    forall|k: int, j: int| 0 <= k < r && 0 <= j < pivot_col ==> #[trigger] rows@[k]@[j] == before_elim[k]@[j],
                    p == ctx.field.modulus(),
                    uniform(input, ncols as int),
                    row_equivalent(p, input, matrix_view(rows@)),
                    t_view == matrix_view(before_elim),
                    forall|k: int| 0 <= k < r ==> #[trigger] rows@[k]@ == cleared(p, t_view, pivot_row as int, pivot_col as int)[k],
                decreases nrows - r,
            {
                let ghost rows_it = rows@;
                if r != pivot_row && rows[r][pivot_col] != 0 {
                    let factor = rows[r][pivot_col];
                    let ghost row_start = rows@[r as int]@;
                    let ghost rows_mid = rows@;
                    let mut c: usize = pivot_col;
                    while c < ncols
                        invariant
                            ctx.wf(),
                            rows@.len() == nrows,
                            r < nrows,
                            r != pivot_row,
                            pivot_row < nrows,
                            pivot_col <= c <= ncols,
                            ctx.field.is_elem(factor),
                            row_start.len() == ncols,
                            row_start[pivot_col as int] == factor,
                            rectangular(*ctx, rows@, ncols as int),
                            rows_mid.len() == nrows,
                            forall|k: int| 0 <= k < nrows && k != r ==> rows@[k] == rows_mid[k],
                            rows@[pivot_row as int] == before_elim[pivot_row as int],
                            rows@[pivot_row as int]@[pivot_col as int] == 1,
                            forall|j: int| 0 <= j < pivot_col ==> #[trigger] rows@[r as int]@[j] == row_start[j],
                            c > pivot_col ==> rows@[r as int]@[pivot_col as int] == 0,
                            forall|j: int| c <= j < ncols ==> #[trigger] rows@[r as int]@[j] == row_start[j],
                            forall|j: int| pivot_col <= j < c ==> #[trigger] rows@[r as int]@[j] == (row_start[j] - (factor * before_elim[pivot_row as int]@[j]) % ctx.field.modulus()) % ctx.field.modulus(),
                        decreases ncols - c,
                    {
                        let sub = ctx.field.mul(factor, rows[pivot_row][c]);
                        let v = ctx.field.sub(rows[r][c], sub);
                        proof {
                            if c == pivot_col {
                                vstd::arithmetic::div_mod::lemma_small_mod(factor as nat, ctx.field.modulus() as nat);
                                vstd::arithmetic::div_mod::lemma_small_mod(0, ctx.field.modulus() as nat);
                                assert(factor * 1 == factor);
                                assert(sub == factor);
                                assert(rows@[r as int]@[c as int] == factor);
                                assert(v == 0);
                            }
                        }
                        let ghost rows_before = rows@;
                        rows[r][c] = v;
                        proof {
                            assert forall|i: int| 0 <= i < rows@.len() implies (#[trigger] rows@[i])@.len() == ncols && forall|cc: int| 0 <= cc < ncols ==> ctx.field.is_elem(#[trigger] rows@[i]@[cc]) by {
                                if i != r {
                                    assert(rows@[i] == rows_before[i]);
                                }
                            }
                        }
                        c += 1;
                    }
                    proof {
                        assert(row_start == t_view[r as int]);
                        assert(before_elim[pivot_row as int]@ == t_view[pivot_row as int]);
                        assert(rows@[r as int]@ =~= eliminated_row(p, t_view[r as int], t_view[pivot_row as int], pivot_col as int, factor as int));
                        assert(rows@[r as int]@[pivot_col as int] == 0);
                        assert forall|j: int| 0 <= j < pivot_col implies #[trigger] rows@[r as int]@[j] == before_elim[r as int]@[j] by {
                            assert(rows@[r as int]@[j] == row_start[j]);
                        }
                        let mm = matrix_view(rows_mid);
                        let w = rows@[r as int]@;
                        let pv = before_elim[pivot_row as int]@;
                        assert(mm[r as int] == row_start);
                        assert(mm[pivot_row as int] == pv);
                        assert forall|c: int| 0 <= c < w.len() implies (w[c] - (mm[r as int][c] - factor * mm[pivot_row as int][c])) % p == 0 by {
                            let a = row_start[c] as int;
                            let b = pv[c] as int;
                            if c < pivot_col {
                                assert(zero_before(pv, pivot_col as int));
                                assert(b == 0);
                                assert(factor * b == 0) by (nonlinear_arith) requires b == 0;
                                assert(w[c] == a);
                                assert(0int % p == 0);
                            } else {
                                lemma_sub_mod_congruent(p, a, factor * b);
                            }
                        }
                        lemma_elim_equiv(p, mm, r as int, pivot_row as int, w, factor as int);
                        assert(matrix_view(rows@) =~= mm.update(r as int, w));
                        lemma_uniform(*ctx, rows_mid, ncols as int);
                        lemma_uniform(*ctx, rows@, ncols as int);
                        lemma_equiv_trans(p, input, mm, matrix_view(rows@), ncols as int);
                    }
                }
                proof {
                    assert forall|k: int| 0 <= k < r + 1 implies #[trigger] rows@[k]@ == cleared(p, t_view, pivot_row as int, pivot_col as int)[k] by {
                        if k < r {
                            assert(rows@[k] == rows_it[k]);
                        } else if rows@[k] == rows_it[k] {
                            assert(rows_it[k] == before_elim[k]);
                        }
                    }
                    assert forall|k: int| 0 <= k < r + 1 && k != pivot_row implies #[trigger] rows@[k]@[pivot_col as int] == 0 by {
                        if k < r {
                            assert(rows@[k] == rows_it[k]);
                        }
                    }
                    assert forall|k: int, j: int| 0 <= k < r + 1 && 0 <= j < pivot_col implies #[trigger] rows@[k]@[j] == before_elim[k]@[j] by {
                        if k < r {
                            assert(rows@[k] == rows_it[k]);
                            assert(rows_it[k]@[j] == before_elim[k]@[j]);
                        } else {
                            if rows@[k] == rows_it[k] {
                                assert(rows_it[k] == before_elim[k]);
                            }
                        }
                    }
                    assert forall|k: int| r + 1 <= k < nrows implies rows@[k] == before_elim[k] by {
                        assert(rows@[k] == rows_it[k]);
                    }
                }
                r += 1;
            }
            proof {
                assert(matrix_view(rows@) =~= pivot_step(p, mv0, pivot_row as int, pivot_col as int, found as int)) by {
                    assert forall|k: int| 0 <= k < nrows implies #[trigger] matrix_view(rows@)[k] == cleared(p, t_view, pivot_row as int, pivot_col as int)[k] by {
                        assert(rows@[k]@ == cleared(p, t_view, pivot_row as int, pivot_col as int)[k]);
                    }
                }
                assert(row_meta@ == meta_start.update(pivot_row as int, meta_start[found as int]).update(found as int, meta_start[pivot_row as int]));
            }
            proof {
                let f = rows@;
                let sw = before_scale;
                assert forall|k: int, j: int| 0 <= k < nrows && 0 <= j < pivot_col implies #[trigger] f[k]@[j] == sw[k]@[j] by {
                    if k == pivot_row {
                        assert(f[k] == before_elim[k]);
                        assert(zero_before(sw[k]@, pivot_col as int));
                        assert(sw[k]@[j] == 0);
                    } else {
                        assert(f[k]@[j] == before_elim[k]@[j]);
                        assert(before_elim[k] == sw[k]);
                    }
                }
                let new_pivots = pivots.push(pivot_col as int);
                assert forall|i: int| 0 <= i < new_pivots.len() implies 0 <= #[trigger] new_pivots[i] < pivot_col + 1 && f[i]@[new_pivots[i]] == 1 && zero_before(f[i]@, new_pivots[i]) by {
                    if i < pivots.len() {
                        assert(new_pivots[i] == pivots[i]);
                        assert(sw[i] == before_swap[i]);
                        assert(f[i]@[pivots[i]] == sw[i]@[pivots[i]]);
                        assert forall|j: int| 0 <= j < pivots[i] implies #[trigger] f[i]@[j] == 0 by {
                            assert(f[i]@[j] == sw[i]@[j]);
                            assert(zero_before(before_swap[i]@, pivots[i]));
                        }
                    } else {
                        assert(new_pivots[i] == pivot_col);
                        assert(f[pivot_row as int] == before_elim[pivot_row as int]);
                    }
                }
                assert forall|i: int, k: int| 0 <= i < new_pivots.len() && 0 <= k < nrows && k != i implies #[trigger] f[k]@[#[trigger] new_pivots[i]] == 0 by {
                    if i < pivots.len() {
                        assert(new_pivots[i] == pivots[i]);
                        assert(f[k]@[pivots[i]] == sw[k]@[pivots[i]]);
                        if k == pivot_row {
                            assert(sw[k] == before_swap[found as int]);
                            assert(before_swap[found as int]@[pivots[i]] == 0);
                        } else if k == found {
                            assert(sw[k] == before_swap[pivot_row as int]);
                            assert(before_swap[pivot_row as int]@[pivots[i]] == 0);
                        } else {
                            assert(sw[k] == before_swap[k]);
                        }
                    } else {
                        assert(new_pivots[i] == pivot_col);
                    }
                }
                assert forall|a: int, b: int| 0 <= a < b < new_pivots.len() implies #[trigger] new_pivots[a] < #[trigger] new_pivots[b] by {
                    if b < pivots.len() {
                        assert(new_pivots[a] == pivots[a] && new_pivots[b] == pivots[b]);
                    } else {
                        assert(new_pivots[a] == pivots[a]);
                    }
                }
                assert forall|k: int| pivot_row + 1 <= k < nrows implies zero_before(#[trigger] f[k]@, pivot_col + 1) by {
                    assert forall|j: int| 0 <= j < pivot_col + 1 implies #[trigger] f[k]@[j] == 0 by {
                        if j < pivot_col {
                            assert(f[k]@[j] == sw[k]@[j]);
                            assert(zero_before(sw[k]@, pivot_col as int));
                        }
                    }
                }
                pivots = new_pivots;
            }
            pivot_row += 1;
            pivot_col += 1;
        }
    }
    proof {
        assert(rref_with(matrix_view(rows@), ncols as int, pivots)) by {
            let mv = matrix_view(rows@);
            assert forall|k: int| pivots.len() <= k < mv.len() implies zero_before(#[trigger] mv[k], ncols as int) by {
                assert(mv[k] == rows@[k]@);
            }
            assert forall|i: int| 0 <= i < pivots.len() implies 0 <= #[trigger] pivots[i] < ncols && mv[i][pivots[i]] == 1 && zero_before(mv[i], pivots[i]) by {
                assert(mv[i] == rows@[i]@);
            }
            assert forall|i: int, k: int| 0 <= i < pivots.len() && 0 <= k < mv.len() && k != i implies #[trigger] mv[k][#[trigger] pivots[i]] == 0 by {
                assert(mv[k] == rows@[k]@);
            }
        }
    }
    Ok(ReducedMatrixData { rows, columns, row_meta })
}

/// A column where every row with a coefficient not divisible by `p` is zero gets a
/// combination divisible by `p`.
proof fn lemma_lin_vanishes(p: int, coeffs: Seq<int>, rows: Seq<Seq<u32>>, c: int, n: int)
    requires
        p > 0,
        0 <= n <= rows.len(),
        n <= coeffs.len(),
        forall|k: int| 0 <= k < n ==> #[trigger] rows[k][c] == 0 || coeffs[k] % p == 0,
    ensures
        lin(coeffs, rows, c, n) % p == 0,
    decreases n,
{
    if n == 0 {
        assert(0int % p == 0);
    } else {
        lemma_lin_vanishes(p, coeffs, rows, c, n - 1);
        let prev = lin(coeffs, rows, c, n - 1);
        let a = coeffs[n - 1];
        let r = rows[n - 1][c] as int;
        if r == 0 {
            assert(a * r == 0) by (nonlinear_arith)
                requires
                    r == 0,
            ;
            assert(prev + a * r == prev);
        } else {
            crate::ideal::lemma_mod_mul_zero(p, r, a);
            assert(r * a == a * r) by (nonlinear_arith);
            crate::ideal::lemma_mod_add_zero(p, prev, a * r);
        }
    }
}

/// At a pivot column, the combination of reduced row echelon rows is the coefficient of
/// that pivot's row.
proof fn lemma_lin_pivot(coeffs: Seq<int>, rows: Seq<Seq<u32>>, ncols: int, pivots: Seq<int>, i: int, n: int)
    requires
        rref_with(rows, ncols, pivots),
        0 <= i < pivots.len(),
        0 <= n <= rows.len(),
        n <= coeffs.len(),
    ensures
        lin(coeffs, rows, pivots[i], n) == if i < n { coeffs[i] } else { 0 },
    decreases n,
{
    if n > 0 {
        lemma_lin_pivot(coeffs, rows, ncols, pivots, i, n - 1);
        let k = n - 1;
        if k == i {
            assert(rows[i][pivots[i]] == 1);
        } else {
            assert(rows[k][pivots[i]] == 0);
        }
        assert(coeffs[k] * 0 == 0) by (nonlinear_arith);
        assert(coeffs[k] * 1 == coeffs[k]) by (nonlinear_arith);
    }
}

/// The first index below `n` whose coefficient is not divisible by `p`.
proof fn first_nonzero_coeff(coeffs: Seq<int>, p: int, n: int, k: int) -> (i: int)
    requires
        0 <= k <= n,
        forall|j: int| 0 <= j < k ==> #[trigger] coeffs[j] % p == 0,
        exists|j: int| k <= j < n && #[trigger] coeffs[j] % p != 0,
    ensures
        k <= i < n,
        coeffs[i] % p != 0,
        forall|j: int| 0 <= j < i ==> #[trigger] coeffs[j] % p == 0,
    decreases n - k,
{
    if coeffs[k] % p != 0 {
        k
    } else {
        first_nonzero_coeff(coeffs, p, n, k + 1)
    }
}

/// A field element congruent to 0 is 0.
proof fn lemma_elem_zero(p: int, x: int, d: int)
    requires
        p > 0,
        0 <= x < p,
        (x - d) % p == 0,
        d % p == 0,
    ensures
        x == 0,
{
    crate::ideal::lemma_mod_add_zero(p, x - d, d);
    assert(x - d + d == x);
    vstd::arithmetic::div_mod::lemma_small_mod(x as nat, p as nat);
}

/// The leading column of any nonzero vector in the row space of a reduced row echelon
/// matrix is one of its pivot columns.
pub proof fn lemma_rref_leading_pivot(p: int, rows: Seq<Seq<u32>>, ncols: int, pivots: Seq<int>, v: Seq<u32>, c0: int)
    requires
        p > 0,
        rref_with(rows, ncols, pivots),
        uniform(rows, ncols),
        v.len() == ncols,
        forall|c: int| 0 <= c < ncols ==> #[trigger] v[c] < p,
        crate::f4::matrix::span::in_span(p, rows, v),
        0 <= c0 < ncols,
        v[c0] != 0,
        zero_before(v, c0),
    ensures
        exists|i: int| 0 <= i < pivots.len() && pivots[i] == c0,
{
    let coeffs = choose|coeffs: Seq<int>| combo_of(p, rows, v, coeffs);
    assert(combo_of(p, rows, v, coeffs));
    let r = rows.len() as int;
    let np = pivots.len() as int;
    if exists|j: int| 0 <= j < np && #[trigger] coeffs[j] % p != 0 {
        let i0 = first_nonzero_coeff(coeffs, p, np, 0);
        let pv = pivots[i0];
        assert forall|c: int| 0 <= c < pv implies #[trigger] v[c] == 0 by {
            assert forall|k: int| 0 <= k < r implies #[trigger] rows[k][c] == 0 || coeffs[k] % p == 0 by {
                if k < np {
                    if k == i0 {
                        assert(zero_before(rows[i0], pv));
                    } else if k > i0 {
                        assert(pivots[i0] < pivots[k]);
                        assert(zero_before(rows[k], pivots[k]));
                    }
                } else {
                    assert(zero_before(rows[k], ncols));
                }
            }
            lemma_lin_vanishes(p, coeffs, rows, c, r);
            lemma_elem_zero(p, v[c] as int, lin(coeffs, rows, c, r));
        }
        lemma_lin_pivot(coeffs, rows, ncols, pivots, i0, r);
        assert(v[pv] != 0) by {
            if v[pv] == 0 {
                assert((v[pv] - coeffs[i0]) % p == 0);
                crate::ideal::lemma_mod_add_zero(p, 0, v[pv] - coeffs[i0]);
                assert(0 - (v[pv] - coeffs[i0]) == coeffs[i0]);
            }
        }
        if c0 < pv {
            assert(v[c0] == 0);
        } else if c0 > pv {
            assert(v[pv] == 0);
        }
    } else {
        assert forall|k: int| 0 <= k < r implies #[trigger] rows[k][c0] == 0 || coeffs[k] % p == 0 by {
            if k >= np {
                assert(zero_before(rows[k], ncols));
            }
        }
        lemma_lin_vanishes(p, coeffs, rows, c0, r);
        lemma_elem_zero(p, v[c0] as int, lin(coeffs, rows, c0, r));
    }
}
} // verus!
