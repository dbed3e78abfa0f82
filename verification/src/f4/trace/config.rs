//! F4 tracing configuration.

use vstd::prelude::*;

use crate::trace::{TraceConfig, TraceLevel, TraceReportMode};

verus! {

/// Configuration of the F4 tracer.
#[derive(Debug, Clone, Copy, PartialEq, Eq, Structural)]
pub struct F4TraceConfig {
    /// Shared tracing configuration.
    pub core: TraceConfig,
    /// A progress line is printed every `progress_every` iterations; `0` disables it.
    pub progress_every: usize,
    /// Print a line for each insertion.
    pub print_on_insert: bool,
    /// Print a line for each selected batch.
    pub print_each_batch: bool,
    /// Print per-batch timings.
    pub print_batch_timings: bool,
    /// Print per-phase summaries.
    pub print_phase_summary: bool,
    /// Print the symbolic and linear breakdown.
    pub print_breakdown: bool,
    /// Sample memory with each progress line.
    pub sample_memory_on_progress: bool,
    /// Sample memory with the summary.
    pub sample_memory_on_summary: bool,
}

impl Default for F4TraceConfig {
    fn default() -> (r: F4TraceConfig)
        ensures
            r.core == (TraceConfig { level: TraceLevel::Off, report_mode: TraceReportMode::Silent }),
            r.progress_every == 50,
            !r.print_on_insert,
            !r.print_each_batch,
            !r.print_batch_timings,
            !r.print_phase_summary,
            !r.print_breakdown,
            !r.sample_memory_on_progress,
            !r.sample_memory_on_summary,
    {
        F4TraceConfig {
            core: TraceConfig::default(),
            progress_every: 50,
            print_on_insert: false,
            print_each_batch: false,
            print_batch_timings: false,
            print_phase_summary: false,
            print_breakdown: false,
            sample_memory_on_progress: false,
            sample_memory_on_summary: false,
        }
    }
}

} // verus!
