//! Dense F4 matrices from symbolic rows.

use vstd::prelude::*;

use crate::f4::error::F4Error;
use crate::f4::matrix::types::{ColumnBasis, DenseMatrixData, MatrixRowMeta};
use crate::f4::symbolic::materialize::all_wf;
use crate::monomial::Monomial;
use crate::order::{compare, lemma_compare_equal, lemma_compare_flip, lemma_compare_trans, spec_gt, MonomialOrder, OrderRel};
use crate::polynomial::{coeff_sum, lemma_coeff_sum_wf, poly_wf, Polynomial};
use crate::ring::RingCtx;

verus! {

/// Every monomial that occurs in one of the polynomials.
pub open spec fn support(rows: Seq<Polynomial>) -> Set<Seq<u32>> {
    Set::new(|m: Seq<u32>| exists|i: int, t: int| 0 <= i < rows.len() && 0 <= t < rows[i]@.len() && (#[trigger] rows[i]@[t]).mono@ == m)
}

/// Monomials that occur in the first `i` polynomials, or in the first `t` terms of
/// polynomial `i`.
pub open spec fn support_upto(rows: Seq<Polynomial>, i: int, t: int) -> Set<Seq<u32>> {
    Set::new(|m: Seq<u32>| exists|a: int, b: int| 0 <= a < rows.len() && 0 <= b < rows[a]@.len() && (a < i || (a == i && b < t)) && (#[trigger] rows[a]@[b]).mono@ == m)
}

/// Views of a list of monomials.
pub open spec fn column_views(cols: Seq<Monomial>) -> Seq<Seq<u32>> {
    Seq::new(cols.len(), |k: int| cols[k]@)
}

/// Columns are strictly decreasing under `o`, and each has `n` variables.
pub open spec fn strictly_decreasing(o: MonomialOrder, cols: Seq<Seq<u32>>, n: nat) -> bool {
    &&& forall|k: int| 0 <= k < cols.len() ==> (#[trigger] cols[k]).len() == n
    &&& forall|a: int, b: int| 0 <= a < b < cols.len() ==> spec_gt(o, #[trigger] cols[a], #[trigger] cols[b])
}

/// Position of `m` among the columns, found by scan.
fn column_position(columns: &Vec<Monomial>, m: &Monomial) -> (r: Option<usize>)
    ensures
        r matches Some(k) ==> k < columns@.len() && columns@[k as int]@ == m@,
        r is None ==> !column_views(columns@).contains(m@),
{
    let mut k: usize = 0;
    while k < columns.len()
        invariant
            k <= columns@.len(),
            forall|j: int| 0 <= j < k ==> columns@[j]@ != m@,
        decreases columns@.len() - k,
    {
        if columns[k].same(m) {
            return Some(k);
        }
        k += 1;
    }
    assert forall|j: int| 0 <= j < column_views(columns@).len() implies column_views(columns@)[j] != m@ by {
        assert(column_views(columns@)[j] == columns@[j]@);
    }
    None
}

/// Inserts `m` at its place in a strictly decreasing column list that does not hold it.
fn insert_column(o: MonomialOrder, columns: &mut Vec<Monomial>, m: Monomial, n: Ghost<nat>)
    requires
        strictly_decreasing(o, column_views(old(columns)@), n@),
        m@.len() == n@,
        !column_views(old(columns)@).contains(m@),
    ensures
        strictly_decreasing(o, column_views(final(columns)@), n@),
        column_views(final(columns)@).to_set() == column_views(old(columns)@).to_set().insert(m@),
{
    let ghost old_cols = column_views(columns@);
    let mut k: usize = 0;
    proof {
        assert forall|j: int| 0 <= j < columns@.len() implies (#[trigger] columns@[j])@.len() == n@ by {
            assert(old_cols[j] == columns@[j]@);
        }
    }
    while k < columns.len() && compare(o, &columns[k], &m) == OrderRel::Greater
        invariant
            k <= columns@.len(),
            column_views(columns@) == old_cols,
            strictly_decreasing(o, old_cols, n@),
            m@.len() == n@,
            forall|j: int| 0 <= j < columns@.len() ==> (#[trigger] columns@[j])@.len() == n@,
            forall|j: int| 0 <= j < k ==> spec_gt(o, #[trigger] old_cols[j], m@),
        decreases columns@.len() - k,
    {
        proof {
            assert(old_cols[k as int] == columns@[k as int]@);
        }
        k += 1;
    }
    let ghost mv = m@;
    proof {
        if k < old_cols.len() {
            assert(old_cols[k as int] == columns@[k as int]@);
            assert(old_cols[k as int] != mv);
            lemma_compare_equal(o, old_cols[k as int], mv);
            lemma_compare_flip(o, old_cols[k as int], mv);
            assert(spec_gt(o, mv, old_cols[k as int]));
        }
    }
    columns.insert(k, m);
    proof {
        let new_cols = column_views(columns@);
        assert(new_cols =~= old_cols.insert(k as int, mv));
        assert forall|a: int, b: int| 0 <= a < b < new_cols.len() implies spec_gt(o, #[trigger] new_cols[a], #[trigger] new_cols[b]) by {
            if b < k {
                assert(new_cols[a] == old_cols[a] && new_cols[b] == old_cols[b]);
            } else if b == k {
                assert(new_cols[a] == old_cols[a]);
            } else if a < k {
                assert(new_cols[a] == old_cols[a] && new_cols[b] == old_cols[b - 1]);
                assert(spec_gt(o, old_cols[a], mv));
                if b - 1 > k {
                    assert(spec_gt(o, old_cols[k as int], old_cols[b - 1]));
                    lemma_compare_trans(o, mv, old_cols[k as int], old_cols[b - 1]);
                }
                lemma_compare_trans(o, old_cols[a], mv, old_cols[b - 1]);
            } else if a == k {
                assert(new_cols[b] == old_cols[b - 1]);
                if b - 1 > k {
                    assert(spec_gt(o, old_cols[k as int], old_cols[b - 1]));
                    lemma_compare_trans(o, mv, old_cols[k as int], old_cols[b - 1]);
                }
            } else {
                assert(new_cols[a] == old_cols[a - 1] && new_cols[b] == old_cols[b - 1]);
            }
        }
        assert forall|j: int| 0 <= j < new_cols.len() implies (#[trigger] new_cols[j]).len() == n@ by {
            if j < k {
                assert(new_cols[j] == old_cols[j]);
            } else if j > k {
                assert(new_cols[j] == old_cols[j - 1]);
            }
        }
        assert(new_cols.to_set() =~= old_cols.to_set().insert(mv)) by {
            assert forall|x: Seq<u32>| new_cols.to_set().contains(x) implies old_cols.to_set().insert(mv).contains(x) by {
                let j = choose|j: int| 0 <= j < new_cols.len() && new_cols[j] == x;
                if j < k {
                    assert(old_cols[j] == x);
                } else if j > k {
                    assert(old_cols[j - 1] == x);
                }
            }
            assert forall|x: Seq<u32>| old_cols.to_set().insert(mv).contains(x) implies new_cols.to_set().contains(x) by {
                if x == mv {
                    assert(new_cols[k as int] == x);
                } else {
                    let j = choose|j: int| 0 <= j < old_cols.len() && old_cols[j] == x;
                    if j < k {
                        assert(new_cols[j] == x);
                    } else {
                        assert(new_cols[j + 1] == x);
                    }
                }
            }
        }
    }
}

/// The distinct monomials of all rows, largest first.
fn collect_columns(ctx: &RingCtx, rows: &[Polynomial]) -> (r: ColumnBasis<Monomial>)
    requires
        ctx.wf(),
        all_wf(*ctx, rows@),
    ensures
        strictly_decreasing(ctx.order, column_views(r.monomials@), ctx.nvars as nat),
        column_views(r.monomials@).to_set() == support(rows@),
{
    let mut monomials: Vec<Monomial> = Vec::new();
    let ghost n = ctx.nvars as nat;
    proof {
        assert(column_views(monomials@).to_set() =~= support_upto(rows@, 0, 0));
    }
    let mut i: usize = 0;
    while i < rows.len()
        invariant
            i <= rows@.len(),
            all_wf(*ctx, rows@),
            n == ctx.nvars,
            strictly_decreasing(ctx.order, column_views(monomials@), n),
            column_views(monomials@).to_set() == support_upto(rows@, i as int, 0),
        decreases rows@.len() - i,
    {
        let terms = rows[i].terms();
        let mut t: usize = 0;
        while t < terms.len()
            invariant
                i < rows@.len(),
                terms@ == rows@[i as int]@,
                t <= terms@.len(),
                all_wf(*ctx, rows@),
                n == ctx.nvars,
                strictly_decreasing(ctx.order, column_views(monomials@), n),
                column_views(monomials@).to_set() == support_upto(rows@, i as int, t as int),
            decreases terms@.len() - t,
        {
            let m = &terms[t].mono;
            let ghost before = column_views(monomials@).to_set();
            proof {
                assert(poly_wf(*ctx, rows@[i as int]@));
            }
            match column_position(&monomials, m) {
                Some(k) => {
                    proof {
                        assert(column_views(monomials@)[k as int] == m@);
                        assert(before.contains(m@));
                    }
                },
                None => {
                    insert_column(ctx.order, &mut monomials, m.duplicate(), Ghost(n));
                },
            }
            proof {
                assert(column_views(monomials@).to_set() =~= support_upto(rows@, i as int, t + 1)) by {
                    assert forall|x: Seq<u32>| support_upto(rows@, i as int, t + 1).contains(x) implies column_views(monomials@).to_set().contains(x) by {
                        let (a, b) = choose|a: int, b: int| 0 <= a < rows@.len() && 0 <= b < rows@[a]@.len() && (a < i || (a == i && b < t + 1)) && (#[trigger] rows@[a]@[b]).mono@ == x;
                        if !(a == i && b == t) {
                            assert(support_upto(rows@, i as int, t as int).contains(x));
                        }
                    }
                    assert forall|x: Seq<u32>| column_views(monomials@).to_set().contains(x) implies support_upto(rows@, i as int, t + 1).contains(x) by {
                        if x == m@ {
                            assert(rows@[i as int]@[t as int].mono@ == x);
                        } else {
                            assert(before.contains(x));
                            let (a, b) = choose|a: int, b: int| 0 <= a < rows@.len() && 0 <= b < rows@[a]@.len() && (a < i || (a == i && b < t)) && (#[trigger] rows@[a]@[b]).mono@ == x;
                            assert(rows@[a]@[b].mono@ == x);
                        }
                    }
                }
            }
            t += 1;
        }
        proof {
            assert(support_upto(rows@, i as int, terms@.len() as int) =~= support_upto(rows@, i + 1, 0)) by {
                assert forall|x: Seq<u32>| support_upto(rows@, i + 1, 0).contains(x) implies support_upto(rows@, i as int, terms@.len() as int).contains(x) by {
                    let (a, b) = choose|a: int, b: int| 0 <= a < rows@.len() && 0 <= b < rows@[a]@.len() && (a < i + 1 || (a == i + 1 && b < 0)) && (#[trigger] rows@[a]@[b]).mono@ == x;
                    assert(rows@[a]@[b].mono@ == x);
                }
                assert forall|x: Seq<u32>| support_upto(rows@, i as int, terms@.len() as int).contains(x) implies support_upto(rows@, i + 1, 0).contains(x) by {
                    let (a, b) = choose|a: int, b: int| 0 <= a < rows@.len() && 0 <= b < rows@[a]@.len() && (a < i || (a == i && b < terms@.len())) && (#[trigger] rows@[a]@[b]).mono@ == x;
                    assert(rows@[a]@[b].mono@ == x);
                }
            }
        }
        i += 1;
    }
    proof {
        assert(support_upto(rows@, rows@.len() as int, 0) =~= support(rows@)) by {
            assert forall|x: Seq<u32>| support(rows@).contains(x) implies support_upto(rows@, rows@.len() as int, 0).contains(x) by {
                let (a, b) = choose|a: int, b: int| 0 <= a < rows@.len() && 0 <= b < rows@[a]@.len() && (#[trigger] rows@[a]@[b]).mono@ == x;
                assert(rows@[a]@[b].mono@ == x);
            }
            assert forall|x: Seq<u32>| support_upto(rows@, rows@.len() as int, 0).contains(x) implies support(rows@).contains(x) by {
                let (a, b) = choose|a: int, b: int| 0 <= a < rows@.len() && 0 <= b < rows@[a]@.len() && (a < rows@.len() || (a == rows@.len() && b < 0)) && (#[trigger] rows@[a]@[b]).mono@ == x;
                assert(rows@[a]@[b].mono@ == x);
            }
        }
    }
    ColumnBasis { monomials }
}

/// The dense coefficient row of `poly` over `columns`.
fn encode_row(ctx: &RingCtx, poly: &Polynomial, columns: &ColumnBasis<Monomial>) -> (r: Result<Vec<u32>, F4Error>)
    requires
        ctx.wf(),
        poly_wf(*ctx, poly@),
        column_views(columns.monomials@).no_duplicates(),
        forall|t: int| 0 <= t < poly@.len() ==> column_views(columns.monomials@).contains(#[trigger] poly@[t].mono@),
    ensures
        r matches Ok(row) && row@.len() == columns.monomials@.len() && forall|c: int|
            0 <= c < row@.len() ==> (#[trigger] row@[c]) as int == coeff_sum(poly@, columns.monomials@[c]@),
{
    let cols = &columns.monomials;
    let ghost cv = column_views(cols@);
    let mut row: Vec<u32> = Vec::new();
    let mut c: usize = 0;
    while c < cols.len()
        invariant
            c <= cols@.len(),
            row@.len() == c,
            forall|k: int| 0 <= k < c ==> #[trigger] row@[k] == 0,
        decreases cols@.len() - c,
    {
        row.push(0);
        c += 1;
    }
    let terms = poly.terms();
    let mut t: usize = 0;
    while t < terms.len()
        invariant
            terms@ == poly@,
            poly_wf(*ctx, poly@),
            t <= terms@.len(),
            cv == column_views(cols@),
            cv.no_duplicates(),
            forall|x: int| 0 <= x < poly@.len() ==> cv.contains(#[trigger] poly@[x].mono@),
            row@.len() == cols@.len(),
            forall|k: int| 0 <= k < row@.len() ==> {
                ||| (exists|x: int| 0 <= x < t && #[trigger] poly@[x].mono@ == cols@[k]@ && row@[k] == poly@[x].coeff)
                ||| ((forall|x: int| 0 <= x < t ==> #[trigger] poly@[x].mono@ != cols@[k]@) && row@[k] == 0)
            },
        decreases terms@.len() - t,
    {
        let term = &terms[t];
        let k = match column_position(cols, &term.mono) {
            Some(k) => k,
            None => {
                proof {
                    assert(cv.contains(poly@[t as int].mono@));
                }
                return Err(F4Error::MatrixBuildInvariant);
            },
        };
        let ghost row0 = row@;
        row.set(k, term.coeff);
        proof {
            assert forall|kk: int| 0 <= kk < row@.len() implies {
                ||| (exists|x: int| 0 <= x < t + 1 && #[trigger] poly@[x].mono@ == cols@[kk]@ && row@[kk] == poly@[x].coeff)
                ||| ((forall|x: int| 0 <= x < t + 1 ==> #[trigger] poly@[x].mono@ != cols@[kk]@) && row@[kk] == 0)
            } by {
                if kk == k {
                    assert(poly@[t as int].mono@ == cols@[kk]@);
                } else {
                    assert(cv[kk] != cv[k as int]);
                    assert(cols@[kk]@ != poly@[t as int].mono@);
                    assert(row@[kk] == row0[kk]);
                }
            }
        }
        t += 1;
    }
    proof {
        assert forall|k: int| 0 <= k < row@.len() implies (#[trigger] row@[k]) as int == coeff_sum(poly@, cols@[k]@) by {
            lemma_coeff_sum_wf(*ctx, poly@, cols@[k]@);
        }
    }
    Ok(row)
}

/// Builds the dense coefficient matrix of `rows`: one column per distinct monomial, the
/// largest first, and for each row its coefficient in every column. The metadata is kept
/// as given.
pub fn build_dense_matrix(ctx: &RingCtx, rows: &[Polynomial], row_meta: Vec<MatrixRowMeta<Monomial>>) -> (r: Result<DenseMatrixData<u32, Monomial>, F4Error>)
    requires
        ctx.wf(),
        all_wf(*ctx, rows@),
    ensures
        r matches Ok(m) && {
            &&& strictly_decreasing(ctx.order, column_views(m.columns.monomials@), ctx.nvars as nat)
            &&& column_views(m.columns.monomials@).to_set() == support(rows@)
            &&& m.rows@.len() == rows@.len()
            &&& m.row_meta == row_meta
            &&& forall|i: int| 0 <= i < rows@.len() ==> (#[trigger] m.rows@[i])@.len() == m.columns.monomials@.len() && forall|c: int|
                0 <= c < m.columns.monomials@.len() ==> (#[trigger] m.rows@[i]@[c]) as int == coeff_sum(rows@[i]@, m.columns.monomials@[c]@)
        },
{
    let columns = collect_columns(ctx, rows);
    let ghost cv = column_views(columns.monomials@);
    proof {
        assert(cv.no_duplicates()) by {
            assert forall|a: int, b: int| 0 <= a < cv.len() && 0 <= b < cv.len() && a != b implies cv[a] != cv[b] by {
                if a < b {
                    assert(spec_gt(ctx.order, cv[a], cv[b]));
                    lemma_compare_equal(ctx.order, cv[a], cv[b]);
                } else {
                    assert(spec_gt(ctx.order, cv[b], cv[a]));
                    lemma_compare_equal(ctx.order, cv[b], cv[a]);
                }
            }
        }
    }
    let mut dense: Vec<Vec<u32>> = Vec::new();
    let mut i: usize = 0;
    while i < rows.len()
        invariant
            ctx.wf(),
            all_wf(*ctx, rows@),
            i <= rows@.len(),
            dense@.len() == i,
            cv == column_views(columns.monomials@),
            cv.no_duplicates(),
            cv.to_set() == support(rows@),
            forall|a: int| 0 <= a < i ==> (#[trigger] dense@[a])@.len() == columns.monomials@.len() && forall|c: int|
                0 <= c < columns.monomials@.len() ==> (#[trigger] dense@[a]@[c]) as int == coeff_sum(rows@[a]@, columns.monomials@[c]@),
        decreases rows@.len() - i,
    {
        proof {
            assert forall|t: int| 0 <= t < rows@[i as int]@.len() implies cv.contains(#[trigger] rows@[i as int]@[t].mono@) by {
                assert(support(rows@).contains(rows@[i as int]@[t].mono@));
                assert(cv.to_set().contains(rows@[i as int]@[t].mono@));
            }
        }
        let encoded = match encode_row(ctx, &rows[i], &columns) {
            Ok(row) => row,
            Err(e) => return Err(e),
        };
        dense.push(encoded);
        i += 1;
    }
    Ok(DenseMatrixData { rows: dense, columns, row_meta })
}

} // verus!
