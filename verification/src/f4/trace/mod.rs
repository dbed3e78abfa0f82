//! Tracing of F4 runs: configuration, counters, snapshots and timing buckets.

pub mod config;
pub mod counters;
pub mod snapshot;
pub mod timings;
pub mod tracer;

pub use config::F4TraceConfig;
pub use counters::F4TraceCounters;
pub use snapshot::F4TraceSnapshot;
pub use timings::{WhileKind, WhileTimes};
pub use tracer::{F4Tracer, FinishReport};
