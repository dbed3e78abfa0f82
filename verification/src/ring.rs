//! Polynomial ring context: coefficient field, monomial order and variable count.

use vstd::prelude::*;

use crate::field::PrimeField;
use crate::order::MonomialOrder;

verus! {

/// Context of a polynomial ring `F_p[x_0, ..., x_{n-1}]` with a monomial order.
#[derive(Debug, Clone, Copy, PartialEq, Eq, Structural)]
pub struct RingCtx {
    /// Coefficient field.
    pub field: PrimeField,
    /// Monomial order.
    pub order: MonomialOrder,
    /// Number of variables.
    pub nvars: usize,
}

impl RingCtx {
    /// Ring invariant: the coefficient field is a prime field.
    pub open spec fn wf(&self) -> bool {
        self.field.wf()
    }

    /// Builds a ring context over `Z/pZ`; `None` when `p` is not prime.
    pub fn new(p: u32, order: MonomialOrder, nvars: usize) -> (r: Option<RingCtx>)
        ensures
            r is None <==> !crate::field::is_prime(p as int),
            r matches Some(c) ==> c.wf() && c.field.modulus() == p && c.order == order && c.nvars
                == nvars,
    {
        match PrimeField::prime(p) {
            Some(field) => Some(RingCtx { field, order, nvars }),
            None => None,
        }
    }
}

} // verus!
