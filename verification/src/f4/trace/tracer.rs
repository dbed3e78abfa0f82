//! Counting tracer of an F4 run.
//!
//! The tracer keeps counters and times; each event method returns whether the event's
//! line is to be printed, and the caller prints it.

use vstd::prelude::*;

use crate::f4::trace::config::F4TraceConfig;
use crate::f4::trace::counters::F4TraceCounters;
use crate::trace::{TraceLevel, TraceReportMode, MAX_DURATION_NANOS};

verus! {

/// The configuration asks for running output.
pub open spec fn verboseish(config: F4TraceConfig) -> bool {
    config.core.level == TraceLevel::Timings || config.core.level == TraceLevel::Snapshots || config.core.level == TraceLevel::Verbose
}

/// A progress line is due at `iteration`.
pub open spec fn progress_due(config: F4TraceConfig, iteration: usize) -> bool {
    verboseish(config) && config.progress_every > 0 && iteration > 0 && iteration % config.progress_every == 0
}

/// Which final reports are due.
#[derive(Debug, Clone, Copy, PartialEq, Eq, Structural)]
pub struct FinishReport {
    /// The counter summary is due.
    pub summary: bool,
    /// The timing summary is due.
    pub timings: bool,
}

/// Tracer of an F4 run: configuration and counters.
#[derive(Debug)]
pub struct F4Tracer {
    config: F4TraceConfig,
    counters: F4TraceCounters,
}

impl F4Tracer {
    /// The configuration.
    pub closed spec fn spec_config(&self) -> F4TraceConfig {
        self.config
    }

    /// The counters.
    pub closed spec fn spec_counters(&self) -> F4TraceCounters {
        self.counters
    }

    /// Creates a tracer with zero counters.
    pub fn new(config: F4TraceConfig) -> (r: F4Tracer)
        ensures
            r.spec_config() == config,
            r.spec_counters() == F4TraceCounters::zeroed(),
    {
        F4Tracer { config, counters: F4TraceCounters::default() }
    }

    /// The configuration.
    pub fn config(&self) -> (r: &F4TraceConfig)
        ensures
            *r == self.spec_config(),
    {
        &self.config
    }

    /// The counters.
    pub fn counters(&self) -> (r: &F4TraceCounters)
        ensures
            *r == self.spec_counters(),
    {
        &self.counters
    }

    /// Records the initial basis length; returns whether the init line is due.
    pub fn on_init_complete(&mut self, initial_basis_len: usize) -> (print: bool)
        ensures
            final(self).spec_config() == old(self).spec_config(),
            final(self).spec_counters() == (F4TraceCounters { gb_len: initial_basis_len, ..old(self).spec_counters() }),
            print == verboseish(old(self).spec_config()),
    {
        self.counters.gb_len = initial_basis_len;
        self.is_verboseish()
    }

    /// Records the basis length.
    pub fn set_gb_len(&mut self, n: usize)
        ensures
            final(self).spec_config() == old(self).spec_config(),
            final(self).spec_counters() == (F4TraceCounters { gb_len: n, ..old(self).spec_counters() }),
    {
        self.counters.gb_len = n;
    }

    /// Records the queue length and raises its maximum.
    pub fn set_queue_len(&mut self, n: usize)
        ensures
            final(self).spec_config() == old(self).spec_config(),
            final(self).spec_counters() == (F4TraceCounters {
                queue_len: n,
                max_queue_len: if old(self).spec_counters().max_queue_len < n { n } else { old(self).spec_counters().max_queue_len },
                ..old(self).spec_counters()
            }),
    {
        self.counters.queue_len = n;
        if self.counters.max_queue_len < n {
            self.counters.max_queue_len = n;
        }
    }

    /// Records the start of `iteration`; returns whether a progress line is due.
    pub fn on_iteration_start(&mut self, iteration: usize) -> (print: bool)
        ensures
            final(self).spec_config() == old(self).spec_config(),
            final(self).spec_counters() == (F4TraceCounters { iterations: iteration, ..old(self).spec_counters() }),
            print == progress_due(old(self).spec_config(), iteration),
    {
        self.counters.iterations = iteration;
        self.should_print_progress(iteration)
    }

    /// Records a selected batch of `count` pairs; an empty batch is not counted. Returns
    /// whether the batch line is due.
    pub fn on_pairs_selected(&mut self, count: usize) -> (print: bool)
        requires
            count > 0 ==> old(self).spec_counters().selected_batches < usize::MAX,
            count > 0 ==> old(self).spec_counters().selected_pairs + count <= usize::MAX,
        ensures
            final(self).spec_config() == old(self).spec_config(),
            count == 0 ==> final(self).spec_counters() == old(self).spec_counters() && !print,
            count > 0 ==> final(self).spec_counters() == (F4TraceCounters {
                selected_batches: (old(self).spec_counters().selected_batches + 1) as usize,
                selected_pairs: (old(self).spec_counters().selected_pairs + count) as usize,
                ..old(self).spec_counters()
            }),
            count > 0 ==> print == (old(self).spec_config().print_each_batch && verboseish(old(self).spec_config())),
    {
        if count == 0 {
            return false;
        }
        self.counters.selected_batches = self.counters.selected_batches + 1;
        self.counters.selected_pairs = self.counters.selected_pairs + count;
        self.config.print_each_batch && self.is_verboseish()
    }

    /// Adds `row_count` symbolic rows; returns whether the breakdown line is due.
    pub fn on_symbolic_complete(&mut self, row_count: usize) -> (print: bool)
        requires
            old(self).spec_counters().symbolic_rows_total + row_count <= usize::MAX,
        ensures
            final(self).spec_config() == old(self).spec_config(),
            final(self).spec_counters() == (F4TraceCounters {
                symbolic_rows_total: (old(self).spec_counters().symbolic_rows_total + row_count) as usize,
                ..old(self).spec_counters()
            }),
            print == (old(self).spec_config().print_breakdown && verboseish(old(self).spec_config())),
    {
        self.counters.symbolic_rows_total = self.counters.symbolic_rows_total + row_count;
        self.config.print_breakdown && self.is_verboseish()
    }

    /// Adds `row_count` reduced rows; returns whether the breakdown line is due.
    pub fn on_reduction_complete(&mut self, row_count: usize) -> (print: bool)
        requires
            old(self).spec_counters().reduced_rows_total + row_count <= usize::MAX,
        ensures
            final(self).spec_config() == old(self).spec_config(),
            final(self).spec_counters() == (F4TraceCounters {
                reduced_rows_total: (old(self).spec_counters().reduced_rows_total + row_count) as usize,
                ..old(self).spec_counters()
            }),
            print == (old(self).spec_config().print_breakdown && verboseish(old(self).spec_config())),
    {
        self.counters.reduced_rows_total = self.counters.reduced_rows_total + row_count;
        self.config.print_breakdown && self.is_verboseish()
    }

    /// Adds `extracted` extracted rows; returns whether the phase line is due.
    pub fn on_rows_extracted(&mut self, extracted: usize) -> (print: bool)
        requires
            old(self).spec_counters().extracted_total + extracted <= usize::MAX,
        ensures
            final(self).spec_config() == old(self).spec_config(),
            final(self).spec_counters() == (F4TraceCounters {
                extracted_total: (old(self).spec_counters().extracted_total + extracted) as usize,
                ..old(self).spec_counters()
            }),
            print == (old(self).spec_config().print_phase_summary && verboseish(old(self).spec_config())),
    {
        self.counters.extracted_total = self.counters.extracted_total + extracted;
        self.config.print_phase_summary && self.is_verboseish()
    }

    /// Adds `count` insertions; returns whether the insertion line is due.
    pub fn on_inserted(&mut self, count: usize) -> (print: bool)
        requires
            old(self).spec_counters().inserted_total + count <= usize::MAX,
        ensures
            final(self).spec_config() == old(self).spec_config(),
            final(self).spec_counters() == (F4TraceCounters {
                inserted_total: (old(self).spec_counters().inserted_total + count) as usize,
                ..old(self).spec_counters()
            }),
            print == (old(self).spec_config().print_on_insert && verboseish(old(self).spec_config())),
    {
        self.counters.inserted_total = self.counters.inserted_total + count;
        self.config.print_on_insert && self.is_verboseish()
    }

    /// Adds `count` skipped zero rows.
    pub fn on_skipped_zero_extracted(&mut self, count: usize)
        requires
            old(self).spec_counters().skipped_zero_extracted_total + count <= usize::MAX,
        ensures
            final(self).spec_config() == old(self).spec_config(),
            final(self).spec_counters() == (F4TraceCounters {
                skipped_zero_extracted_total: (old(self).spec_counters().skipped_zero_extracted_total + count) as usize,
                ..old(self).spec_counters()
            }),
    {
        self.counters.skipped_zero_extracted_total = self.counters.skipped_zero_extracted_total + count;
    }

    /// Adds to the selection time.
    pub fn add_selection_time(&mut self, dt: u128)
        requires
            old(self).spec_counters().t_selection + dt <= MAX_DURATION_NANOS,
        ensures
            final(self).spec_config() == old(self).spec_config(),
            final(self).spec_counters() == (F4TraceCounters { t_selection: (old(self).spec_counters().t_selection + dt) as u128, ..old(self).spec_counters() }),
    {
        self.counters.t_selection = self.counters.t_selection + dt;
    }

    /// Adds to the initial-product time.
    pub fn add_build_ld_time(&mut self, dt: u128)
        requires
            old(self).spec_counters().t_build_ld + dt <= MAX_DURATION_NANOS,
        ensures
            final(self).spec_config() == old(self).spec_config(),
            final(self).spec_counters() == (F4TraceCounters { t_build_ld: (old(self).spec_counters().t_build_ld + dt) as u128, ..old(self).spec_counters() }),
    {
        self.counters.t_build_ld = self.counters.t_build_ld + dt;
    }

    /// Adds to the symbolic preprocessing time.
    pub fn add_symbolic_time(&mut self, dt: u128)
        requires
            old(self).spec_counters().t_symbolic + dt <= MAX_DURATION_NANOS,
        ensures
            final(self).spec_config() == old(self).spec_config(),
            final(self).spec_counters() == (F4TraceCounters { t_symbolic: (old(self).spec_counters().t_symbolic + dt) as u128, ..old(self).spec_counters() }),
    {
        self.counters.t_symbolic = self.counters.t_symbolic + dt;
    }

    /// Adds to the reduction time.
    pub fn add_reduction_time(&mut self, dt: u128)
        requires
            old(self).spec_counters().t_reduction + dt <= MAX_DURATION_NANOS,
        ensures
            final(self).spec_config() == old(self).spec_config(),
            final(self).spec_counters() == (F4TraceCounters { t_reduction: (old(self).spec_counters().t_reduction + dt) as u128, ..old(self).spec_counters() }),
    {
        self.counters.t_reduction = self.counters.t_reduction + dt;
    }

    /// Adds to the extraction time.
    pub fn add_extraction_time(&mut self, dt: u128)
        requires
            old(self).spec_counters().t_extraction + dt <= MAX_DURATION_NANOS,
        ensures
            final(self).spec_config() == old(self).spec_config(),
            final(self).spec_counters() == (F4TraceCounters { t_extraction: (old(self).spec_counters().t_extraction + dt) as u128, ..old(self).spec_counters() }),
    {
        self.counters.t_extraction = self.counters.t_extraction + dt;
    }

    /// Adds to the time spent normalizing extracted rows.
    pub fn add_normalize_extracted_time(&mut self, dt: u128)
        requires
            old(self).spec_counters().t_normalize_extracted + dt <= MAX_DURATION_NANOS,
        ensures
            final(self).spec_config() == old(self).spec_config(),
            final(self).spec_counters() == (F4TraceCounters {
                t_normalize_extracted: (old(self).spec_counters().t_normalize_extracted + dt) as u128,
                ..old(self).spec_counters()
            }),
    {
        self.counters.t_normalize_extracted = self.counters.t_normalize_extracted + dt;
    }

    /// Adds to the insertion and update time.
    pub fn add_insert_update_time(&mut self, dt: u128)
        requires
            old(self).spec_counters().t_insert_update + dt <= MAX_DURATION_NANOS,
        ensures
            final(self).spec_config() == old(self).spec_config(),
            final(self).spec_counters() == (F4TraceCounters { t_insert_update: (old(self).spec_counters().t_insert_update + dt) as u128, ..old(self).spec_counters() }),
    {
        self.counters.t_insert_update = self.counters.t_insert_update + dt;
    }

    /// Adds to the post-processing time.
    pub fn add_post_process_time(&mut self, dt: u128)
        requires
            old(self).spec_counters().t_post_process + dt <= MAX_DURATION_NANOS,
        ensures
            final(self).spec_config() == old(self).spec_config(),
            final(self).spec_counters() == (F4TraceCounters { t_post_process: (old(self).spec_counters().t_post_process + dt) as u128, ..old(self).spec_counters() }),
    {
        self.counters.t_post_process = self.counters.t_post_process + dt;
    }

    /// Adds to the main-loop time.
    pub fn add_main_loop_time(&mut self, dt: u128)
        requires
            old(self).spec_counters().t_main_loop + dt <= MAX_DURATION_NANOS,
        ensures
            final(self).spec_config() == old(self).spec_config(),
            final(self).spec_counters() == (F4TraceCounters { t_main_loop: (old(self).spec_counters().t_main_loop + dt) as u128, ..old(self).spec_counters() }),
    {
        self.counters.t_main_loop = self.counters.t_main_loop + dt;
    }

    /// Sets the total run time.
    pub fn set_total_run_time(&mut self, dt: u128)
        ensures
            final(self).spec_config() == old(self).spec_config(),
            final(self).spec_counters() == (F4TraceCounters { t_total_run: dt, ..old(self).spec_counters() }),
    {
        self.counters.t_total_run = dt;
    }

    /// Whether the per-iteration timing line is due.
    pub fn on_iteration_timing(&self) -> (print: bool)
        ensures
            print == (self.spec_config().print_batch_timings && verboseish(self.spec_config())),
    {
        self.config.print_batch_timings && self.is_verboseish()
    }

    /// Which final reports are due: the summary unless the report mode is silent, and the
    /// timing summary with it when batch timings or the breakdown are enabled.
    pub fn on_finish(&mut self) -> (r: FinishReport)
        ensures
            *final(self) == *old(self),
            r.summary == (old(self).spec_config().core.report_mode != TraceReportMode::Silent),
            r.timings == (r.summary && (old(self).spec_config().print_batch_timings || old(self).spec_config().print_breakdown)),
    {
        match self.config.core.report_mode {
            TraceReportMode::Silent => FinishReport { summary: false, timings: false },
            TraceReportMode::Summary | TraceReportMode::Verbose => FinishReport {
                summary: true,
                timings: self.config.print_batch_timings || self.config.print_breakdown,
            },
        }
    }

    fn should_print_progress(&self, iteration: usize) -> (b: bool)
        ensures
            b == progress_due(self.spec_config(), iteration),
    {
        if !self.is_verboseish() {
            return false;
        }
        let every = self.config.progress_every;
        every > 0 && iteration > 0 && iteration % every == 0
    }

    fn is_verboseish(&self) -> (b: bool)
        ensures
            b == verboseish(self.spec_config()),
    {
        match self.config.core.level {
            TraceLevel::Timings | TraceLevel::Snapshots | TraceLevel::Verbose => true,
            TraceLevel::Off => false,
        }
    }
}

} // verus!
