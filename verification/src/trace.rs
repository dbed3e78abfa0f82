//! Shared tracing configuration.

use vstd::prelude::*;

verus! {

/// Largest duration in nanoseconds: `u64::MAX` seconds and `999_999_999` nanoseconds.
pub const MAX_DURATION_NANOS: u128 = 18_446_744_073_709_551_615_999_999_999;

/// How much detail traces print while running.
#[derive(Debug, Clone, Copy, PartialEq, Eq, Structural)]
pub enum TraceLevel {
    /// No running output.
    Off,
    /// Timing lines.
    Timings,
    /// Timing lines and state snapshots.
    Snapshots,
    /// Everything.
    Verbose,
}

/// What is reported when a run finishes.
#[derive(Debug, Clone, Copy, PartialEq, Eq, Structural)]
pub enum TraceReportMode {
    /// Nothing.
    Silent,
    /// A summary.
    Summary,
    /// A detailed report.
    Verbose,
}

/// Tracing configuration shared by the engines.
#[derive(Debug, Clone, Copy, PartialEq, Eq, Structural)]
pub struct TraceConfig {
    /// Running output level.
    pub level: TraceLevel,
    /// Final report mode.
    pub report_mode: TraceReportMode,
}

impl Default for TraceConfig {
    fn default() -> (r: TraceConfig)
        ensures
            r.level == TraceLevel::Off,
            r.report_mode == TraceReportMode::Silent,
    {
        TraceConfig { level: TraceLevel::Off, report_mode: TraceReportMode::Silent }
    }
}

/// Resident memory of the process at one moment.
#[derive(Debug, Clone, Copy, PartialEq, Eq, Structural)]
pub struct MemorySnapshot {
    /// Resident set size in bytes.
    pub rss_bytes: u64,
}

} // verus!
