//! Errors of the F4 engine.

use vstd::prelude::*;

use crate::monomial::MonomialError;
use crate::polynomial::PolynomialError;
use crate::post::error::PostError;

verus! {

/// Errors reported by the F4 engine and its phases.
#[derive(Debug, Clone, Copy, PartialEq, Eq, Structural)]
pub enum F4Error {
    /// `batch_size` is zero.
    InvalidBatchSize,
    /// A polynomial term has no column in the matrix.
    MatrixBuildInvariant,
    /// A pivot could not be inverted during row reduction.
    RowReductionInvariant,
    /// A product refers to a basis polynomial that does not exist.
    MissingBasisPolynomial { index: usize },
    /// A product refers to a history row that does not exist.
    MissingHistoryRow { batch_index: usize, row_index: usize },
    /// Symbolic preprocessing reached an inconsistent state.
    SymbolicInvariant,
    /// Monomial arithmetic failed.
    Monomial(MonomialError),
    /// Polynomial arithmetic failed.
    Polynomial(PolynomialError),
    /// Basis post-processing failed.
    Post(PostError),
}

} // verus!
