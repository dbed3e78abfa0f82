//! State kept by the F4 engine across batches.

use vstd::prelude::*;

use crate::f4::pairs::pending::PendingPairs;
use crate::f4::simplify::index::{aligned_len, batch_rules, SimplifyIndex};
use crate::f4::symbolic::types::UnevaluatedProduct;
use crate::monomial::Monomial;
use crate::polynomial::Polynomial;

verus! {

/// Compact symbolic history of one processed F4 batch.
///
/// It keeps what symbolic simplification needs without the materialized row set.
#[derive(Debug, Clone)]
pub struct BatchHistory<P> {
    /// Products the batch's symbolic rows were built from.
    pub f_j_products: Vec<UnevaluatedProduct>,
    /// Leading monomials of the symbolic rows, aligned with `f_j_products`.
    pub f_j_heads: Vec<Monomial>,
    /// Reduced rows produced by the batch's matrix reduction.
    pub f_j_tilde: Vec<P>,
}

impl<P> BatchHistory<P> {
    /// Creates a batch-history record; `f_j_products` and `f_j_heads` must have the same
    /// length.
    pub fn new(f_j_products: Vec<UnevaluatedProduct>, f_j_heads: Vec<Monomial>, f_j_tilde: Vec<P>) -> (r: BatchHistory<P>)
        requires
            f_j_products@.len() == f_j_heads@.len(),
        ensures
            r.f_j_products == f_j_products,
            r.f_j_heads == f_j_heads,
            r.f_j_tilde == f_j_tilde,
    {
        BatchHistory { f_j_products, f_j_heads, f_j_tilde }
    }

    /// Number of symbolic products stored for this batch.
    pub fn product_len(&self) -> (n: usize)
        ensures
            n == self.f_j_products@.len(),
    {
        self.f_j_products.len()
    }

    /// Number of reduced rows stored for this batch.
    pub fn reduced_len(&self) -> (n: usize)
        ensures
            n == self.f_j_tilde@.len(),
    {
        self.f_j_tilde.len()
    }

    /// Whether the batch stores neither products nor reduced rows.
    pub fn is_empty(&self) -> (b: bool)
        ensures
            b == (self.f_j_products@.len() == 0 && self.f_j_tilde@.len() == 0),
    {
        self.f_j_products.len() == 0 && self.f_j_tilde.len() == 0
    }
}

/// Mutable state of the F4 main loop.
#[derive(Debug)]
pub struct F4State {
    /// Current basis.
    pub basis: Vec<Polynomial>,
    /// Critical pairs waiting to be processed.
    pub pending: PendingPairs,
    /// Per-batch symbolic history used by `Simplify`.
    pub history: Vec<BatchHistory<Polynomial>>,
    /// Simplification rules learned from `history`.
    pub simplify_index: SimplifyIndex,
    /// Number of iterations started so far.
    pub iteration: usize,
}

impl F4State {
    /// Creates an empty state.
    pub fn new() -> (r: F4State)
        ensures
            r.basis@.len() == 0,
            r.pending.spec_pairs().len() == 0,
            r.history@.len() == 0,
            r.simplify_index.rules_view().len() == 0,
            r.iteration == 0,
    {
        F4State {
            basis: Vec::new(),
            pending: PendingPairs::new(),
            history: Vec::new(),
            simplify_index: SimplifyIndex::new(),
            iteration: 0,
        }
    }

    /// Whether no critical pair remains.
    pub fn is_done(&self) -> (b: bool)
        ensures
            b == (self.pending.spec_pairs().len() == 0),
    {
        self.pending.is_empty()
    }

    /// Number of iterations started so far.
    pub fn iteration(&self) -> (r: usize)
        ensures
            r == self.iteration,
    {
        self.iteration
    }

    /// Advances the iteration counter.
    pub fn advance_iteration(&mut self)
        requires
            old(self).iteration < usize::MAX,
        ensures
            final(self).iteration == old(self).iteration + 1,
            final(self).basis == old(self).basis,
            final(self).pending == old(self).pending,
            final(self).history == old(self).history,
            final(self).simplify_index == old(self).simplify_index,
    {
        self.iteration = self.iteration + 1;
    }

    /// Stores one processed batch and adds its rules to the simplification index.
    pub fn push_history(&mut self, products: Vec<UnevaluatedProduct>, heads: Vec<Monomial>, reduced_rows: Vec<Polynomial>)
        requires
            products@.len() == heads@.len(),
        ensures
            final(self).history@ == old(self).history@.push(BatchHistory { f_j_products: products, f_j_heads: heads, f_j_tilde: reduced_rows }),
            final(self).simplify_index.rules_view() == old(self).simplify_index.rules_view() + batch_rules(
                old(self).history@.len() as usize,
                BatchHistory { f_j_products: products, f_j_heads: heads, f_j_tilde: reduced_rows },
                aligned_len(BatchHistory { f_j_products: products, f_j_heads: heads, f_j_tilde: reduced_rows }),
            ),
            final(self).basis == old(self).basis,
            final(self).pending == old(self).pending,
            final(self).iteration == old(self).iteration,
    {
        let batch_index = self.history.len();
        let batch = BatchHistory::new(products, heads, reduced_rows);
        self.simplify_index.extend_with_batch(batch_index, &batch);
        self.history.push(batch);
    }

    /// Compact counters for logs and tests.
    pub fn debug_counts(&self) -> (r: F4StateDebugCounts)
        ensures
            r.iteration == self.iteration,
            r.basis_len == self.basis@.len(),
            r.history_len == self.history@.len(),
            r.pending_len == self.pending.spec_pairs().len(),
    {
        F4StateDebugCounts {
            iteration: self.iteration,
            basis_len: self.basis.len(),
            history_len: self.history.len(),
            pending_len: self.pending.len(),
        }
    }
}

impl Default for F4State {
    fn default() -> (r: F4State)
        ensures
            r.basis@.len() == 0,
            r.pending.spec_pairs().len() == 0,
            r.history@.len() == 0,
            r.simplify_index.rules_view().len() == 0,
            r.iteration == 0,
    {
        F4State::new()
    }
}

/// Compact counters of an [`F4State`].
#[derive(Debug, Clone, Copy, PartialEq, Eq, Structural)]
pub struct F4StateDebugCounts {
    /// Current iteration counter.
    pub iteration: usize,
    /// Number of basis elements.
    pub basis_len: usize,
    /// Number of stored batch-history records.
    pub history_len: usize,
    /// Number of pending critical pairs.
    pub pending_len: usize,
}

} // verus!
