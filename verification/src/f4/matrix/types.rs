//! Matrix data types for F4.

use vstd::prelude::*;

use crate::f4::symbolic::types::SymbolicRowKind;

verus! {

/// Ordered columns of an F4 coefficient matrix.
#[derive(Debug, Clone)]
pub struct ColumnBasis<M> {
    /// Matrix columns in descending monomial order: earlier columns are larger monomials.
    pub monomials: Vec<M>,
}

impl<M> ColumnBasis<M> {
    /// Number of columns.
    pub fn len(&self) -> (n: usize)
        ensures
            n == self.monomials@.len(),
    {
        self.monomials.len()
    }

    /// Whether there is no column.
    pub fn is_empty(&self) -> (b: bool)
        ensures
            b == (self.monomials@.len() == 0),
    {
        self.monomials.len() == 0
    }
}

/// Metadata attached to one matrix row.
#[derive(Debug, Clone)]
pub struct MatrixRowMeta<M> {
    /// Index of the basis polynomial the row was materialized from.
    pub source_basis_index: usize,
    /// Monomial multiplier used to materialize the row.
    pub multiplier: M,
    /// Role of the symbolic row.
    pub kind: SymbolicRowKind,
}

/// Dense coefficient matrix of an F4 batch.
#[derive(Debug, Clone)]
pub struct DenseMatrixData<C, M> {
    /// Dense coefficient rows.
    pub rows: Vec<Vec<C>>,
    /// Ordered matrix columns.
    pub columns: ColumnBasis<M>,
    /// Per-row metadata aligned with `rows`.
    pub row_meta: Vec<MatrixRowMeta<M>>,
}

impl<C, M> DenseMatrixData<C, M> {
    /// Number of rows.
    pub fn nrows(&self) -> (n: usize)
        ensures
            n == self.rows@.len(),
    {
        self.rows.len()
    }

    /// Number of columns.
    pub fn ncols(&self) -> (n: usize)
        ensures
            n == self.columns.monomials@.len(),
    {
        self.columns.len()
    }

    /// Whether the matrix has no row or no column.
    pub fn is_empty(&self) -> (b: bool)
        ensures
            b == (self.rows@.len() == 0 || self.columns.monomials@.len() == 0),
    {
        self.rows.len() == 0 || self.columns.is_empty()
    }
}

/// Dense matrix after row reduction.
#[derive(Debug, Clone)]
pub struct ReducedMatrixData<C, M> {
    /// Reduced coefficient rows.
    pub rows: Vec<Vec<C>>,
    /// Ordered matrix columns.
    pub columns: ColumnBasis<M>,
    /// Per-row metadata, carried through the row swaps.
    pub row_meta: Vec<MatrixRowMeta<M>>,
}

impl<C, M> ReducedMatrixData<C, M> {
    /// Number of rows.
    pub fn nrows(&self) -> (n: usize)
        ensures
            n == self.rows@.len(),
    {
        self.rows.len()
    }

    /// Number of columns.
    pub fn ncols(&self) -> (n: usize)
        ensures
            n == self.columns.monomials@.len(),
    {
        self.columns.len()
    }

    /// Whether the matrix has no row or no column.
    pub fn is_empty(&self) -> (b: bool)
        ensures
            b == (self.rows@.len() == 0 || self.columns.monomials@.len() == 0),
    {
        self.rows.len() == 0 || self.columns.is_empty()
    }
}

} // verus!
