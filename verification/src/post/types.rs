//! Statistics of basis post-processing.

use vstd::prelude::*;

verus! {

/// Sizes and counts recorded while a basis is interreduced; `elapsed` is in nanoseconds.
#[derive(Debug, Clone, Copy, PartialEq, Eq, Structural)]
pub struct PostReduceStats {
    /// Input length.
    pub input_len: usize,
    /// Length after removing zero polynomials.
    pub after_remove_zero_len: usize,
    /// Length after minimization.
    pub after_minimize_len: usize,
    /// Length after the reverse interreduction.
    pub after_reverse_len: usize,
    /// Final length.
    pub final_len: usize,
    /// Elements changed by the reverse interreduction.
    pub reverse_changed: usize,
    /// Passes of the selective cleanup.
    pub selective_passes: usize,
    /// Elements changed by the selective cleanup.
    pub selective_changed: usize,
    /// Reduction violations left after the reverse interreduction.
    pub initial_violations_after_reverse: usize,
    /// Reduction violations at the end.
    pub final_violations: usize,
    /// Elapsed time.
    pub elapsed: u128,
}

impl Default for PostReduceStats {
    fn default() -> (r: PostReduceStats)
        ensures
            r == (PostReduceStats {
                input_len: 0,
                after_remove_zero_len: 0,
                after_minimize_len: 0,
                after_reverse_len: 0,
                final_len: 0,
                reverse_changed: 0,
                selective_passes: 0,
                selective_changed: 0,
                initial_violations_after_reverse: 0,
                final_violations: 0,
                elapsed: 0,
            }),
    {
        PostReduceStats {
            input_len: 0,
            after_remove_zero_len: 0,
            after_minimize_len: 0,
            after_reverse_len: 0,
            final_len: 0,
            reverse_changed: 0,
            selective_passes: 0,
            selective_changed: 0,
            initial_violations_after_reverse: 0,
            final_violations: 0,
            elapsed: 0,
        }
    }
}

} // verus!
