//! Gröbner basis post-processing: minimization, interreduction and their checks.

use vstd::prelude::*;

pub mod cleanup;
pub mod error;
pub mod minimize;
pub mod outcome;
pub mod reduction;
pub mod tail;
pub mod types;
pub mod validate;

pub use error::PostError;
pub use minimize::{make_monic_in_place, minimize_in_place};
pub use types::PostReduceStats;
pub use reduction::{reduce_in_place, reverse_tail_interreduce, selective_tail_cleanup};

verus! {

/// Requested level of Gröbner basis post-processing.
#[derive(Debug, Clone, Copy, PartialEq, Eq, Structural)]
pub enum BasisPostOptionsKind {
    /// Leave the basis as computed.
    Unchanged,
    /// Reduce to a minimal basis.
    Minimal,
    /// Reduce to the reduced (monic, interreduced) basis.
    Reduced,
}

} // verus!
