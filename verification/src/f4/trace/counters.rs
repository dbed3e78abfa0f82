//! F4 trace counters.

use vstd::prelude::*;

verus! {

/// Counters and accumulated times of an F4 run; times are in nanoseconds.
#[derive(Debug, Clone, Copy, PartialEq, Eq, Structural)]
pub struct F4TraceCounters {
    /// Iteration number of the last started iteration.
    pub iterations: usize,
    /// Number of nonempty batches selected.
    pub selected_batches: usize,
    /// Number of critical pairs selected.
    pub selected_pairs: usize,
    /// Symbolic rows built.
    pub symbolic_rows_total: usize,
    /// Rows out of matrix reduction.
    pub reduced_rows_total: usize,
    /// Rows extracted as new basis candidates.
    pub extracted_total: usize,
    /// Polynomials inserted into the basis.
    pub inserted_total: usize,
    /// Extracted rows skipped because they were zero.
    pub skipped_zero_extracted_total: usize,
    /// Current basis length.
    pub gb_len: usize,
    /// Current number of pending pairs.
    pub queue_len: usize,
    /// Largest number of pending pairs seen.
    pub max_queue_len: usize,
    /// Time spent selecting pairs.
    pub t_selection: u128,
    /// Time spent building the initial products.
    pub t_build_ld: u128,
    /// Time spent in symbolic preprocessing.
    pub t_symbolic: u128,
    /// Time spent in matrix reduction.
    pub t_reduction: u128,
    /// Time spent extracting rows.
    pub t_extraction: u128,
    /// Time spent normalizing extracted rows.
    pub t_normalize_extracted: u128,
    /// Time spent inserting rows and updating pairs.
    pub t_insert_update: u128,
    /// Time spent post-processing the basis.
    pub t_post_process: u128,
    /// Time spent in the main loop.
    pub t_main_loop: u128,
    /// Total run time.
    pub t_total_run: u128,
}

impl Default for F4TraceCounters {
    fn default() -> (r: F4TraceCounters)
        ensures
            r == F4TraceCounters::zeroed(),
    {
        F4TraceCounters {
            iterations: 0,
            selected_batches: 0,
            selected_pairs: 0,
            symbolic_rows_total: 0,
            reduced_rows_total: 0,
            extracted_total: 0,
            inserted_total: 0,
            skipped_zero_extracted_total: 0,
            gb_len: 0,
            queue_len: 0,
            max_queue_len: 0,
            t_selection: 0,
            t_build_ld: 0,
            t_symbolic: 0,
            t_reduction: 0,
            t_extraction: 0,
            t_normalize_extracted: 0,
            t_insert_update: 0,
            t_post_process: 0,
            t_main_loop: 0,
            t_total_run: 0,
        }
    }
}

impl F4TraceCounters {
    /// All counters and times zero.
    pub open spec fn zeroed() -> F4TraceCounters {
        F4TraceCounters {
            iterations: 0,
            selected_batches: 0,
            selected_pairs: 0,
            symbolic_rows_total: 0,
            reduced_rows_total: 0,
            extracted_total: 0,
            inserted_total: 0,
            skipped_zero_extracted_total: 0,
            gb_len: 0,
            queue_len: 0,
            max_queue_len: 0,
            t_selection: 0,
            t_build_ld: 0,
            t_symbolic: 0,
            t_reduction: 0,
            t_extraction: 0,
            t_normalize_extracted: 0,
            t_insert_update: 0,
            t_post_process: 0,
            t_main_loop: 0,
            t_total_run: 0,
        }
    }
}

} // verus!
