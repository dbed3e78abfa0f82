//! Critical pairs of basis elements.

use vstd::prelude::*;

use crate::monomial::{
    checked_lcm, checked_lcm_degree, checked_quotient, exp_sum, spec_lcm, spec_mul, spec_quotient,
    Monomial, MonomialError,
};

verus! {

/// One critical pair `{f_i, f_j}` with `i < j`, the least common multiple of the
/// leading monomials, its total degree and the multipliers `t_i`, `t_j` with
/// `t_i * LM(f_i) = t_j * LM(f_j) = lcm`.
#[derive(Debug, Clone, PartialEq, Eq)]
pub struct CriticalPair {
    i: usize,
    j: usize,
    lcm: Monomial,
    degree: u32,
    ti: Monomial,
    tj: Monomial,
}

/// One side of a critical pair: a basis index and its multiplier.
#[derive(Debug, Clone, Copy, PartialEq, Eq)]
pub struct PairSide<'a> {
    /// Index of the basis polynomial.
    pub basis_index: usize,
    /// Monomial multiplier used on that basis polynomial.
    pub multiplier: &'a Monomial,
}

/// The critical pair built from leading monomials `lm_i` (at index `i`) and `lm_j` (at `j`),
/// with `i < j`.
pub open spec fn is_pair_of(p: CriticalPair, i: int, j: int, lm_i: Seq<u32>, lm_j: Seq<u32>) -> bool {
    &&& p.spec_i() == i
    &&& p.spec_j() == j
    &&& p.spec_lcm() == spec_lcm(lm_i, lm_j)
    &&& p.spec_degree() == exp_sum(spec_lcm(lm_i, lm_j))
    &&& p.spec_ti() == spec_quotient(lm_i, spec_lcm(lm_i, lm_j))
    &&& p.spec_tj() == spec_quotient(lm_j, spec_lcm(lm_i, lm_j))
}

impl CriticalPair {
    pub closed spec fn spec_i(&self) -> usize {
        self.i
    }

    pub closed spec fn spec_j(&self) -> usize {
        self.j
    }

    pub closed spec fn spec_lcm(&self) -> Seq<u32> {
        self.lcm@
    }

    pub closed spec fn spec_degree(&self) -> u32 {
        self.degree
    }

    pub closed spec fn spec_ti(&self) -> Seq<u32> {
        self.ti@
    }

    pub closed spec fn spec_tj(&self) -> Seq<u32> {
        self.tj@
    }

    /// Normalized key `(i, j)` with `i < j`.
    pub open spec fn key(&self) -> (usize, usize) {
        (self.spec_i(), self.spec_j())
    }

    pub fn i(&self) -> (r: usize)
        ensures
            r == self.spec_i(),
    {
        self.i
    }

    pub fn j(&self) -> (r: usize)
        ensures
            r == self.spec_j(),
    {
        self.j
    }

    pub fn indices(&self) -> (r: (usize, usize))
        ensures
            r == self.key(),
    {
        (self.i, self.j)
    }

    pub fn lcm(&self) -> (r: &Monomial)
        ensures
            r@ == self.spec_lcm(),
    {
        &self.lcm
    }

    pub fn degree(&self) -> (r: u32)
        ensures
            r == self.spec_degree(),
    {
        self.degree
    }

    pub fn ti(&self) -> (r: &Monomial)
        ensures
            r@ == self.spec_ti(),
    {
        &self.ti
    }

    pub fn tj(&self) -> (r: &Monomial)
        ensures
            r@ == self.spec_tj(),
    {
        &self.tj
    }

    pub fn multipliers(&self) -> (r: (&Monomial, &Monomial))
        ensures
            r.0@ == self.spec_ti(),
            r.1@ == self.spec_tj(),
    {
        (&self.ti, &self.tj)
    }

    /// The side `(i, t_i)`.
    pub fn left(&self) -> (r: PairSide<'_>)
        ensures
            r.basis_index == self.spec_i(),
            r.multiplier@ == self.spec_ti(),
    {
        PairSide { basis_index: self.i, multiplier: &self.ti }
    }

    /// The side `(j, t_j)`.
    pub fn right(&self) -> (r: PairSide<'_>)
        ensures
            r.basis_index == self.spec_j(),
            r.multiplier@ == self.spec_tj(),
    {
        PairSide { basis_index: self.j, multiplier: &self.tj }
    }

    /// Both sides, left first.
    pub fn sides(&self) -> (r: [PairSide<'_>; 2])
        ensures
            r[0].basis_index == self.spec_i(),
            r[0].multiplier@ == self.spec_ti(),
            r[1].basis_index == self.spec_j(),
            r[1].multiplier@ == self.spec_tj(),
    {
        [self.left(), self.right()]
    }

    /// A copy of this pair.
    pub fn duplicate(&self) -> (r: CriticalPair)
        ensures
            r.spec_i() == self.spec_i(),
            r.spec_j() == self.spec_j(),
            r.spec_lcm() == self.spec_lcm(),
            r.spec_degree() == self.spec_degree(),
            r.spec_ti() == self.spec_ti(),
            r.spec_tj() == self.spec_tj(),
    {
        CriticalPair {
            i: self.i,
            j: self.j,
            lcm: self.lcm.duplicate(),
            degree: self.degree,
            ti: self.ti.duplicate(),
            tj: self.tj.duplicate(),
        }
    }

    /// Builds the critical pair of two basis elements from their indices and leading
    /// monomials. Indices are normalized so that the stored pair has `i < j`.
    pub fn from_lms(i: usize, j: usize, lm_i: &Monomial, lm_j: &Monomial) -> (r: Result<CriticalPair, MonomialError>)
        requires
            i != j,
        ensures
            lm_i@.len() != lm_j@.len() ==> r == Err::<CriticalPair, MonomialError>(MonomialError::VariableCountMismatch),
            lm_i@.len() == lm_j@.len() && exp_sum(spec_lcm(lm_i@, lm_j@)) > u32::MAX ==> r == Err::<CriticalPair, MonomialError>(MonomialError::ExponentOverflow),
            lm_i@.len() == lm_j@.len() && exp_sum(spec_lcm(lm_i@, lm_j@)) <= u32::MAX ==> (r matches Ok(p) && (if i < j {
                is_pair_of(p, i as int, j as int, lm_i@, lm_j@)
            } else {
                is_pair_of(p, j as int, i as int, lm_j@, lm_i@)
            })),
    {
        let (i, j, lm_i, lm_j) = if i < j {
            (i, j, lm_i, lm_j)
        } else {
            (j, i, lm_j, lm_i)
        };
        proof {
            if lm_i@.len() == lm_j@.len() {
                assert(spec_lcm(lm_i@, lm_j@) =~= spec_lcm(lm_j@, lm_i@));
            }
            crate::monomial::lemma_exp_sum_nonneg(spec_lcm(lm_i@, lm_j@));
        }
        let lcm = checked_lcm(lm_i, lm_j)?;
        proof {
            assert(crate::monomial::spec_divides(lm_i@, lcm@));
            assert(crate::monomial::spec_divides(lm_j@, lcm@));
        }
        let degree = checked_lcm_degree(lm_i, lm_j)?;
        let ti = match checked_quotient(lm_i, &lcm)? {
            Some(q) => q,
            None => return Err(MonomialError::NotDivisible),
        };
        let tj = match checked_quotient(lm_j, &lcm)? {
            Some(q) => q,
            None => return Err(MonomialError::NotDivisible),
        };
        Ok(CriticalPair { i, j, lcm, degree, ti, tj })
    }
}

/// The multipliers of a critical pair align both leading monomials on the lcm.
pub proof fn lemma_pair_multipliers_align(p: CriticalPair, i: int, j: int, lm_i: Seq<u32>, lm_j: Seq<u32>)
    requires
        lm_i.len() == lm_j.len(),
        is_pair_of(p, i, j, lm_i, lm_j),
    ensures
        spec_mul(lm_i, p.spec_ti()) == p.spec_lcm(),
        spec_mul(lm_j, p.spec_tj()) == p.spec_lcm(),
{
    assert(spec_mul(lm_i, p.spec_ti()) =~= p.spec_lcm());
    assert(spec_mul(lm_j, p.spec_tj()) =~= p.spec_lcm());
}

} // verus!
