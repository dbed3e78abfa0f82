//! Shared types and basis-level specifications for F4.

use vstd::prelude::*;

use crate::monomial::{exp_sum, spec_lcm};
use crate::polynomial::Polynomial;

verus! {

/// Whether the F4 main loop continues or is finished.
#[derive(Debug, Clone, Copy, PartialEq, Eq, Structural)]
pub enum IterationOutcome {
    /// More pairs remain to be processed.
    Progress,
    /// No pair was selected; the loop is finished.
    Done,
}

/// `p` is not the zero polynomial.
pub open spec fn is_nonzero(p: Polynomial) -> bool {
    p@.len() > 0
}

/// Leading monomial of a nonzero polynomial.
pub open spec fn lm(p: Polynomial) -> Seq<u32> {
    p@[0].mono@
}

/// Building the critical pair of `basis[i]` and `basis[j]` fails.
pub open spec fn pair_fails(basis: Seq<Polynomial>, i: int, j: int) -> bool {
    &&& i != j
    &&& is_nonzero(basis[i])
    &&& is_nonzero(basis[j])
    &&& (lm(basis[i]).len() != lm(basis[j]).len() || exp_sum(spec_lcm(lm(basis[i]), lm(basis[j])))
        > u32::MAX)
}

/// A critical pair exists for `basis[i]` and `basis[j]`.
pub open spec fn pair_exists(basis: Seq<Polynomial>, i: int, j: int) -> bool {
    &&& i != j
    &&& is_nonzero(basis[i])
    &&& is_nonzero(basis[j])
    &&& !pair_fails(basis, i, j)
}

} // verus!
