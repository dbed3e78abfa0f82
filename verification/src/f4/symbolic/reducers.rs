//! Top-reducer lookup for symbolic preprocessing.

use vstd::prelude::*;

use crate::f4::error::F4Error;
use crate::f4::symbolic::types::{ProductSource, UnevaluatedProduct};
use crate::f4::types::{is_nonzero, lm};
use crate::monomial::{checked_div_exact, divides, spec_divides, spec_quotient, Monomial};
use crate::polynomial::Polynomial;

verus! {

/// The leading monomial of `p` divides `m`.
pub open spec fn reduces(p: Polynomial, m: Seq<u32>) -> bool {
    is_nonzero(p) && spec_divides(lm(p), m)
}

/// First index at or after `k` whose polynomial top-reduces `m`, or `-1`.
pub open spec fn first_reducer(basis: Seq<Polynomial>, m: Seq<u32>, k: int) -> int
    decreases basis.len() - k,
{
    if k < 0 || k >= basis.len() {
        -1
    } else if reduces(basis[k], m) {
        k
    } else {
        first_reducer(basis, m, k + 1)
    }
}

/// The product `(m / LM(g_i)) * g_i` for the first basis element `g_i` that top-reduces
/// `m`, as a source and a multiplier.
pub open spec fn top_reducer(basis: Seq<Polynomial>, m: Seq<u32>) -> Option<(ProductSource, Seq<u32>)> {
    let i = first_reducer(basis, m, 0);
    if i < 0 {
        None
    } else {
        Some((ProductSource::Basis(i as usize), spec_quotient(lm(basis[i]), m)))
    }
}

pub proof fn lemma_first_reducer(basis: Seq<Polynomial>, m: Seq<u32>, k: int)
    requires
        0 <= k,
    ensures
        first_reducer(basis, m, k) == -1 || (k <= first_reducer(basis, m, k) < basis.len() && reduces(basis[first_reducer(basis, m, k)], m)),
        forall|j: int| k <= j < basis.len() && (first_reducer(basis, m, k) == -1 || j < first_reducer(basis, m, k)) ==> !reduces(#[trigger] basis[j], m),
    decreases basis.len() - k,
{
    if k < basis.len() && !reduces(basis[k], m) {
        lemma_first_reducer(basis, m, k + 1);
    }
}

/// Finds the first basis index whose leading monomial divides `monomial`, with the
/// multiplier that aligns that leading monomial with `monomial`.
pub fn find_top_reducer_index(monomial: &Monomial, basis: &[Polynomial]) -> (r: Result<Option<(usize, Monomial)>, F4Error>)
    ensures
        r is Ok,
        r matches Ok(None) ==> top_reducer(basis@, monomial@) is None,
        r matches Ok(Some(found)) ==> top_reducer(basis@, monomial@) == Some((ProductSource::Basis(found.0), found.1@)),
        r matches Ok(Some(found)) ==> found.0 < basis@.len() && reduces(basis@[found.0 as int], monomial@),
{
    let mut i: usize = 0;
    while i < basis.len()
        invariant
            i <= basis@.len(),
            first_reducer(basis@, monomial@, 0) == first_reducer(basis@, monomial@, i as int),
        decreases basis@.len() - i,
    {
        match basis[i].leading_mono() {
            Some(lead) => {
                if divides(lead, monomial) {
                    let multiplier = match checked_div_exact(lead, monomial) {
                        Ok(q) => q,
                        Err(e) => return Err(F4Error::Monomial(e)),
                    };
                    return Ok(Some((i, multiplier)));
                }
            },
            None => {},
        }
        i += 1;
    }
    Ok(None)
}

/// Finds the first basis element that top-reduces `monomial` and returns the aligned
/// product `m * g_i` with `m * LM(g_i) == monomial`.
pub fn find_top_reducer_product(monomial: &Monomial, basis: &[Polynomial]) -> (r: Result<Option<UnevaluatedProduct>, F4Error>)
    ensures
        r is Ok,
        r matches Ok(None) ==> top_reducer(basis@, monomial@) is None,
        r matches Ok(Some(p)) ==> top_reducer(basis@, monomial@) == Some(p@),
{
    match find_top_reducer_index(monomial, basis) {
        Ok(Some((basis_index, multiplier))) => Ok(Some(UnevaluatedProduct::from_basis(basis_index, multiplier))),
        Ok(None) => Ok(None),
        Err(e) => Err(e),
    }
}

} // verus!
