//! F4 trace snapshots.

use vstd::prelude::*;

use crate::trace::MemorySnapshot;

verus! {

/// State of an F4 run used for progress and summary reports.
#[derive(Debug, Clone, Copy, PartialEq, Eq, Structural)]
pub struct F4TraceSnapshot {
    /// Basis length.
    pub gb_len: usize,
    /// Number of pending pairs.
    pub queue_len: usize,
    /// Memory use, when sampled.
    pub memory: Option<MemorySnapshot>,
}

impl Default for F4TraceSnapshot {
    fn default() -> (r: F4TraceSnapshot)
        ensures
            r.gb_len == 0,
            r.queue_len == 0,
            r.memory is None,
    {
        F4TraceSnapshot { gb_len: 0, queue_len: 0, memory: None }
    }
}

} // verus!
