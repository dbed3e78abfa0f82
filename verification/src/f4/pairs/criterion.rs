//! Critical-pair filtering criteria.

use vstd::prelude::*;

use crate::f4::pairs::critical_pair::CriticalPair;
use crate::f4::types::{is_nonzero, lm};
use crate::monomial::{gcd_is_one, spec_coprime};
use crate::polynomial::Polynomial;

verus! {

/// Decides whether a constructed critical pair should remain pending.
pub trait PairCriterion {
    /// Whether the pair of basis indices `i`, `j` is kept.
    spec fn spec_allows(&self, basis: Seq<Polynomial>, i: int, j: int) -> bool;

    /// Returns `true` when `pair` should be kept.
    fn allows(&self, basis: &[Polynomial], pair: &CriticalPair) -> (b: bool)
        requires
            pair.spec_i() < basis@.len(),
            pair.spec_j() < basis@.len(),
        ensures
            b == self.spec_allows(basis@, pair.spec_i() as int, pair.spec_j() as int),
    ;
}

/// Criterion that keeps every critical pair.
#[derive(Debug, Default, Clone, Copy)]
pub struct NoCriterion;

impl PairCriterion for NoCriterion {
    open spec fn spec_allows(&self, basis: Seq<Polynomial>, i: int, j: int) -> bool {
        true
    }

    fn allows(&self, basis: &[Polynomial], pair: &CriticalPair) -> (b: bool) {
        true
    }
}

/// Buchberger product criterion: pairs whose leading monomials are coprime are discarded.
#[derive(Debug, Default, Clone, Copy)]
pub struct ProductCriterion;

impl PairCriterion for ProductCriterion {
    open spec fn spec_allows(&self, basis: Seq<Polynomial>, i: int, j: int) -> bool {
        &&& is_nonzero(basis[i])
        &&& is_nonzero(basis[j])
        &&& !spec_coprime(lm(basis[i]), lm(basis[j]))
    }

    fn allows(&self, basis: &[Polynomial], pair: &CriticalPair) -> (b: bool)
        ensures
            b <==> is_nonzero(basis@[pair.spec_i() as int]) && is_nonzero(basis@[pair.spec_j() as int]) && exists|v: int|
                0 <= v < lm(basis@[pair.spec_i() as int]).len() && v < lm(basis@[pair.spec_j() as int]).len()
                    && #[trigger] lm(basis@[pair.spec_i() as int])[v] > 0 && lm(basis@[pair.spec_j() as int])[v] > 0,
    {
        proof {
            lemma_product_criterion(basis@, pair.spec_i() as int, pair.spec_j() as int);
        }
        let lm_i = match basis[pair.i()].leading_mono() {
            Some(m) => m,
            None => return false,
        };
        let lm_j = match basis[pair.j()].leading_mono() {
            Some(m) => m,
            None => return false,
        };
        !gcd_is_one(lm_i, lm_j)
    }
}

/// The product criterion keeps a pair of nonzero elements exactly when their leading
/// monomials share a variable, that is, are not coprime; a pair with a zero element is
/// dropped.
pub proof fn lemma_product_criterion(basis: Seq<Polynomial>, i: int, j: int)
    ensures
        ProductCriterion.spec_allows(basis, i, j) <==> is_nonzero(basis[i]) && is_nonzero(basis[j]) && exists|v: int|
            0 <= v < lm(basis[i]).len() && v < lm(basis[j]).len() && #[trigger] lm(basis[i])[v] > 0 && lm(basis[j])[v] > 0,
{
    let a = lm(basis[i]);
    let b = lm(basis[j]);
    if exists|v: int| 0 <= v < a.len() && v < b.len() && #[trigger] a[v] > 0 && b[v] > 0 {
        let v = choose|v: int| 0 <= v < a.len() && v < b.len() && #[trigger] a[v] > 0 && b[v] > 0;
        assert(!spec_coprime(a, b));
    }
    if !spec_coprime(a, b) {
        let v = choose|v: int| !(0 <= v < a.len() && v < b.len() ==> a[v] == 0 || b[v] == 0);
        assert(a[v] > 0 && b[v] > 0);
    }
}

} // verus!
