//! Symbolic product and row types.

use vstd::prelude::*;

use crate::monomial::Monomial;

verus! {

/// Source row referenced by an unevaluated product.
#[derive(Debug, Clone, Copy, PartialEq, Eq, Structural, PartialOrd, Ord, Hash)]
pub enum ProductSource {
    /// A polynomial of the current basis.
    Basis(usize),
    /// A reduced row of a previous F4 batch.
    HistoryReducedRow {
        /// Index of the batch in the history.
        batch_index: usize,
        /// Index of the row among that batch's reduced rows.
        row_index: usize,
    },
}

/// Position of a source in the order in which F4 creates rows: basis polynomials come
/// first, then the reduced rows of batch `0`, `1`, ... .
pub open spec fn source_rank(s: ProductSource) -> int {
    match s {
        ProductSource::Basis(_) => 0,
        ProductSource::HistoryReducedRow { batch_index, .. } => batch_index + 1,
    }
}

/// Role of a symbolic row in a batch.
#[derive(Debug, Clone, Copy, PartialEq, Eq, Structural)]
pub enum SymbolicRowKind {
    /// A simplified initial product of the batch.
    InitialSeed,
    /// A top reducer added by the closure.
    TopReducerClosure,
    /// The left multiple of a critical pair.
    PairLeft,
    /// The right multiple of a critical pair.
    PairRight,
}

/// Unevaluated product of a monomial multiplier and a source row.
///
/// Products stay unevaluated during symbolic preprocessing so that `Simplify` can rewrite
/// them before materialization.
#[derive(Debug, Clone, PartialEq, Eq, Hash)]
pub struct UnevaluatedProduct {
    /// Monomial multiplier.
    pub multiplier: Monomial,
    /// The row that is multiplied.
    pub source: ProductSource,
}

impl View for UnevaluatedProduct {
    type V = (ProductSource, Seq<u32>);

    open spec fn view(&self) -> (ProductSource, Seq<u32>) {
        (self.source, self.multiplier@)
    }
}

impl UnevaluatedProduct {
    /// Creates an unevaluated product from a source row and multiplier.
    pub fn new(source: ProductSource, multiplier: Monomial) -> (r: UnevaluatedProduct)
        ensures
            r.source == source,
            r.multiplier == multiplier,
    {
        UnevaluatedProduct { multiplier, source }
    }

    /// Creates a product whose source is a basis element.
    pub fn from_basis(basis_index: usize, multiplier: Monomial) -> (r: UnevaluatedProduct)
        ensures
            r.source == ProductSource::Basis(basis_index),
            r.multiplier == multiplier,
    {
        UnevaluatedProduct { multiplier, source: ProductSource::Basis(basis_index) }
    }

    /// Creates a product whose source is a reduced history row.
    pub fn from_history_reduced_row(batch_index: usize, row_index: usize, multiplier: Monomial) -> (r: UnevaluatedProduct)
        ensures
            r.source == (ProductSource::HistoryReducedRow { batch_index, row_index }),
            r.multiplier == multiplier,
    {
        UnevaluatedProduct { multiplier, source: ProductSource::HistoryReducedRow { batch_index, row_index } }
    }

    /// An equal copy of this product.
    pub fn duplicate(&self) -> (r: UnevaluatedProduct)
        ensures
            r@ == self@,
    {
        UnevaluatedProduct { multiplier: self.multiplier.duplicate(), source: self.source }
    }

    /// Whether two products have the same source and multiplier.
    pub fn same(&self, other: &UnevaluatedProduct) -> (b: bool)
        ensures
            b == (self@ == other@),
    {
        self.source == other.source && self.multiplier.same(&other.multiplier)
    }
}

/// Materialized symbolic row with the product it came from.
#[derive(Debug, Clone)]
pub struct SymbolicRow<P> {
    /// Unevaluated product that produced this row.
    pub product: UnevaluatedProduct,
    /// Materialized row.
    pub polynomial: P,
}

impl<P> SymbolicRow<P> {
    /// Creates a symbolic row from a product and its materialized row.
    pub fn new(product: UnevaluatedProduct, polynomial: P) -> (r: SymbolicRow<P>)
        ensures
            r.product == product,
            r.polynomial == polynomial,
    {
        SymbolicRow { product, polynomial }
    }

    /// Splits the row into its product and polynomial.
    pub fn into_parts(self) -> (r: (UnevaluatedProduct, P))
        ensures
            r.0 == self.product,
            r.1 == self.polynomial,
    {
        (self.product, self.polynomial)
    }
}

/// Output of symbolic preprocessing for one F4 batch.
#[derive(Debug, Clone)]
pub struct SymbolicPreprocessOutput<P> {
    /// Materialized symbolic rows.
    pub rows: Vec<SymbolicRow<P>>,
    /// Leading monomials of the nonzero symbolic rows.
    pub symbolic_heads: Vec<Monomial>,
}

impl<P> SymbolicPreprocessOutput<P> {
    /// Creates symbolic preprocessing output from rows and row heads.
    pub fn new(rows: Vec<SymbolicRow<P>>, symbolic_heads: Vec<Monomial>) -> (r: SymbolicPreprocessOutput<P>)
        ensures
            r.rows == rows,
            r.symbolic_heads == symbolic_heads,
    {
        SymbolicPreprocessOutput { rows, symbolic_heads }
    }

    /// Number of symbolic rows.
    pub fn len(&self) -> (n: usize)
        ensures
            n == self.rows@.len(),
    {
        self.rows.len()
    }

    /// Whether no symbolic row was produced.
    pub fn is_empty(&self) -> (b: bool)
        ensures
            b == (self.rows@.len() == 0),
    {
        self.rows.len() == 0
    }

    /// Splits the output into the rows, their products and the row heads, in row order.
    pub fn into_rows_parts(self) -> (r: (Vec<P>, Vec<UnevaluatedProduct>, Vec<Monomial>))
        ensures
            r.0@.len() == self.rows@.len(),
            r.1@.len() == self.rows@.len(),
            forall|i: int| 0 <= i < self.rows@.len() ==> r.0@[i] == (#[trigger] self.rows@[i]).polynomial && r.1@[i] == self.rows@[i].product,
            r.2@ == self.symbolic_heads@,
    {
        let SymbolicPreprocessOutput { rows, symbolic_heads } = self;
        let ghost all = rows@;
        let mut rest = rows;
        let mut polynomials: Vec<P> = Vec::new();
        let mut products: Vec<UnevaluatedProduct> = Vec::new();
        while rest.len() > 0
            invariant
                polynomials@.len() == products@.len(),
                polynomials@.len() + rest@.len() == all.len(),
                rest@ == all.subrange(polynomials@.len() as int, all.len() as int),
                forall|i: int| 0 <= i < polynomials@.len() ==> polynomials@[i] == (#[trigger] all[i]).polynomial && products@[i] == all[i].product,
            decreases rest@.len(),
        {
            let ghost k = polynomials@.len();
            let row = rest.remove(0);
            assert(row == all[k as int]);
            let (product, polynomial) = row.into_parts();
            products.push(product);
            polynomials.push(polynomial);
            assert(rest@ =~= all.subrange(polynomials@.len() as int, all.len() as int));
        }
        (polynomials, products, symbolic_heads)
    }
}

} // verus!
