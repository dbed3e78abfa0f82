//! Materialization of symbolic products.

use vstd::prelude::*;

use crate::f4::error::F4Error;
use crate::f4::state::BatchHistory;
use crate::f4::symbolic::types::{ProductSource, UnevaluatedProduct};
use crate::monomial::{mul_fits, spec_mul, MonomialError};
use crate::polynomial::{poly_wf, Polynomial, PolynomialError, Term};
use crate::ring::RingCtx;

verus! {

/// The row a source refers to, if it exists.
pub open spec fn source_row(basis: Seq<Polynomial>, history: Seq<BatchHistory<Polynomial>>, s: ProductSource) -> Option<Polynomial> {
    match s {
        ProductSource::Basis(i) => if i < basis.len() {
            Some(basis[i as int])
        } else {
            None
        },
        ProductSource::HistoryReducedRow { batch_index, row_index } => if batch_index < history.len()
            && row_index < history[batch_index as int].f_j_tilde@.len() {
            Some(history[batch_index as int].f_j_tilde@[row_index as int])
        } else {
            None
        },
    }
}

/// `row` is `src` with every monomial multiplied by `t`.
pub open spec fn is_multiple(row: Seq<Term>, src: Seq<Term>, t: Seq<u32>) -> bool {
    &&& row.len() == src.len()
    &&& forall|i: int| 0 <= i < src.len() ==> (#[trigger] row[i]).coeff == src[i].coeff && row[i].mono@ == spec_mul(src[i].mono@, t)
}

/// Every polynomial of `s` is canonical for `ctx`.
pub open spec fn all_wf(ctx: RingCtx, s: Seq<Polynomial>) -> bool {
    forall|i: int| 0 <= i < s.len() ==> poly_wf(ctx, (#[trigger] s[i])@)
}

/// Every reduced history row is canonical for `ctx`.
pub open spec fn history_wf(ctx: RingCtx, history: Seq<BatchHistory<Polynomial>>) -> bool {
    forall|b: int| 0 <= b < history.len() ==> all_wf(ctx, (#[trigger] history[b]).f_j_tilde@)
}

/// The product can be materialized: its source exists, its multiplier has the ring's
/// variable count, and no exponent overflows.
pub open spec fn materializable(ctx: RingCtx, basis: Seq<Polynomial>, history: Seq<BatchHistory<Polynomial>>, p: (ProductSource, Seq<u32>)) -> bool {
    &&& source_row(basis, history, p.0) is Some
    &&& p.1.len() == ctx.nvars
    &&& forall|i: int| 0 <= i < source_row(basis, history, p.0).unwrap()@.len() ==> mul_fits(
        (#[trigger] source_row(basis, history, p.0).unwrap()@[i]).mono@,
        p.1,
    )
}

/// Materializes an unevaluated product: the source row multiplied by the multiplier.
pub fn materialize_product(
    ctx: &RingCtx,
    product: &UnevaluatedProduct,
    basis: &[Polynomial],
    history: &[BatchHistory<Polynomial>],
) -> (r: Result<Polynomial, F4Error>)
    requires
        ctx.wf(),
        all_wf(*ctx, basis@),
        history_wf(*ctx, history@),
    ensures
        r is Ok <==> materializable(*ctx, basis@, history@, product@),
        r matches Ok(q) ==> poly_wf(*ctx, q@) && is_multiple(q@, source_row(basis@, history@, product.source).unwrap()@, product.multiplier@),
        source_row(basis@, history@, product.source) is None ==> (match product.source {
            ProductSource::Basis(index) => r == Err::<Polynomial, F4Error>(F4Error::MissingBasisPolynomial { index }),
            ProductSource::HistoryReducedRow { batch_index, row_index } => r == Err::<Polynomial, F4Error>(F4Error::MissingHistoryRow { batch_index, row_index }),
        }),
        source_row(basis@, history@, product.source) is Some && product.multiplier@.len() != ctx.nvars ==> r == Err::<Polynomial, F4Error>(F4Error::Polynomial(PolynomialError::VariableCountMismatch)),
        source_row(basis@, history@, product.source) is Some && product.multiplier@.len() == ctx.nvars && r is Err ==> r == Err::<Polynomial, F4Error>(F4Error::Polynomial(PolynomialError::Monomial(MonomialError::ExponentOverflow))),
{
    let base = match resolve_product_source(product.source, basis, history) {
        Ok(b) => b,
        Err(e) => return Err(e),
    };
    if product.multiplier.n_vars() != ctx.nvars {
        return Err(F4Error::Polynomial(PolynomialError::VariableCountMismatch));
    }
    match base.mul_monomial(ctx, &product.multiplier) {
        Ok(row) => Ok(row),
        Err(e) => Err(F4Error::Polynomial(e)),
    }
}

fn resolve_product_source<'a>(source: ProductSource, basis: &'a [Polynomial], history: &'a [BatchHistory<Polynomial>]) -> (r: Result<&'a Polynomial, F4Error>)
    ensures
        r is Ok <==> source_row(basis@, history@, source) is Some,
        r matches Ok(p) ==> source_row(basis@, history@, source) == Some(*p),
        source_row(basis@, history@, source) is None ==> (match source {
            ProductSource::Basis(index) => r == Err::<&Polynomial, F4Error>(F4Error::MissingBasisPolynomial { index }),
            ProductSource::HistoryReducedRow { batch_index, row_index } => r == Err::<&Polynomial, F4Error>(F4Error::MissingHistoryRow { batch_index, row_index }),
        }),
{
    match source {
        ProductSource::Basis(index) => {
            if index < basis.len() {
                Ok(&basis[index])
            } else {
                Err(F4Error::MissingBasisPolynomial { index })
            }
        },
        ProductSource::HistoryReducedRow { batch_index, row_index } => {
            if batch_index < history.len() && row_index < history[batch_index].f_j_tilde.len() {
                Ok(&history[batch_index].f_j_tilde[row_index])
            } else {
                Err(F4Error::MissingHistoryRow { batch_index, row_index })
            }
        },
    }
}

} // verus!
