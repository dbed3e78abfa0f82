//! Errors of Gröbner basis post-processing.

use vstd::prelude::*;

use crate::polynomial::PolynomialError;
use crate::reduce::ReduceError;

verus! {

/// Errors that can occur during Gröbner basis post-processing.
#[derive(Debug, Clone, Copy, PartialEq, Eq, Structural)]
pub enum PostError {
    /// Polynomial arithmetic failed.
    Poly(PolynomialError),
    /// Reducing one basis element by the others failed.
    Reduce(ReduceError),
    /// A division by zero was attempted.
    DivByZero,
    /// An internal invariant of minimization or reduction does not hold.
    InvariantViolation,
    /// Tail reduction changed a leading monomial.
    LeadingMonomialChangedDuringReduction,
    /// A zero polynomial reached a step that needs a leading term.
    ZeroPolynomialInReduction,
}

} // verus!
