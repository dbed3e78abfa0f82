//! Checks that a basis is minimal and tail-reduced.

use vstd::prelude::*;

use crate::f4::types::{is_nonzero, lm};
use crate::monomial::{divides, spec_divides, Monomial};
use crate::polynomial::Polynomial;
use crate::post::error::PostError;

verus! {

/// A tail term of `basis[i]` that the leading monomial of `basis[j]` divides.
#[derive(Debug, Clone, PartialEq, Eq)]
pub struct ReductionViolation {
    /// Index of the element whose tail is not reduced.
    pub i: usize,
    /// Index of the element whose leading monomial divides the tail term.
    pub j: usize,
    /// The reducible tail monomial.
    pub bad_term: Monomial,
}

/// No nonzero element's leading monomial divides the leading monomial of another.
pub open spec fn is_minimal(basis: Seq<Polynomial>) -> bool {
    forall|i: int, j: int|
        0 <= i < basis.len() && 0 <= j < basis.len() && i != j && is_nonzero(basis[i]) && is_nonzero(basis[j]) ==> !spec_divides(
            lm(#[trigger] basis[j]),
            lm(#[trigger] basis[i]),
        )
}

/// Term `t >= 1` of `basis[i]` is divisible by the leading monomial of `basis[j]`, `j != i`.
pub open spec fn is_violation(basis: Seq<Polynomial>, i: int, t: int, j: int) -> bool {
    &&& 0 <= i < basis.len()
    &&& 0 <= j < basis.len()
    &&& i != j
    &&& is_nonzero(basis[j])
    &&& 1 <= t < basis[i]@.len()
    &&& spec_divides(lm(basis[j]), basis[i]@[t].mono@)
}

/// `v` records a violation of `basis`.
pub open spec fn violation_ok(basis: Seq<Polynomial>, v: ReductionViolation) -> bool {
    exists|t: int| #[trigger] is_violation(basis, v.i as int, t, v.j as int) && basis[v.i as int]@[t].mono@ == v.bad_term@
}

/// The violation `(i, t, j)` is recorded in `out`.
pub open spec fn covered(out: Seq<ReductionViolation>, basis: Seq<Polynomial>, i: int, t: int, j: int) -> bool {
    exists|k: int| 0 <= k < out.len() && (#[trigger] out[k]).i == i && out[k].j == j && out[k].bad_term@ == basis[i]@[t].mono@
}

/// No tail term of any element is divisible by another element's leading monomial.
pub open spec fn tails_reduced(basis: Seq<Polynomial>) -> bool {
    forall|i: int, t: int, j: int| !#[trigger] is_violation(basis, i, t, j)
}

/// Checks that no leading monomial is divisible by another one.
pub fn assert_minimal_leading_monomials(basis: &[Polynomial]) -> (r: Result<(), PostError>)
    ensures
        r is Ok <==> is_minimal(basis@),
        r is Err ==> r == Err::<(), PostError>(PostError::InvariantViolation),
{
    let n = basis.len();
    let mut i: usize = 0;
    while i < n
        invariant
            n == basis@.len(),
            i <= n,
            forall|a: int, b: int|
                0 <= a < i && 0 <= b < n && a != b && is_nonzero(basis@[a]) && is_nonzero(basis@[b]) ==> !spec_divides(
                    lm(#[trigger] basis@[b]),
                    lm(#[trigger] basis@[a]),
                ),
        decreases n - i,
    {
        match basis[i].leading_mono() {
            Some(lmi) => {
                let mut j: usize = 0;
                while j < n
                    invariant
                        n == basis@.len(),
                        i < n,
                        is_nonzero(basis@[i as int]),
                        *lmi == basis@[i as int]@[0].mono,
                        j <= n,
                        forall|b: int| 0 <= b < j && b != i && is_nonzero(basis@[b]) ==> !spec_divides(lm(#[trigger] basis@[b]), lm(basis@[i as int])),
                    decreases n - j,
                {
                    if j != i {
                        match basis[j].leading_mono() {
                            Some(lmj) => {
                                if divides(lmj, lmi) {
                                    return Err(PostError::InvariantViolation);
                                }
                            },
                            None => {},
                        }
                    }
                    j += 1;
                }
            },
            None => {},
        }
        i += 1;
    }
    Ok(())
}

/// Lists every reducible tail term, scanning elements, then their tail terms, then the
/// possible divisors, in index order.
pub fn find_reduction_violations(basis: &[Polynomial]) -> (r: Vec<ReductionViolation>)
    ensures
        forall|k: int| 0 <= k < r@.len() ==> violation_ok(basis@, #[trigger] r@[k]),
        forall|i: int, t: int, j: int| #[trigger] is_violation(basis@, i, t, j) ==> covered(r@, basis@, i, t, j),
        r@.len() == 0 <==> tails_reduced(basis@),
{
    let n = basis.len();
    let mut out: Vec<ReductionViolation> = Vec::new();
    let mut i: usize = 0;
    while i < n
        invariant
            n == basis@.len(),
            i <= n,
            forall|k: int| 0 <= k < out@.len() ==> violation_ok(basis@, #[trigger] out@[k]),
            forall|a: int, t: int, j: int| a < i && #[trigger] is_violation(basis@, a, t, j) ==> covered(out@, basis@, a, t, j),
        decreases n - i,
    {
        let terms = basis[i].terms();
        let mut t: usize = 1;
        while t < terms.len()
            invariant
                n == basis@.len(),
                i < n,
                terms@ == basis@[i as int]@,
                1 <= t,
                t <= terms@.len() || terms@.len() == 0,
                forall|k: int| 0 <= k < out@.len() ==> violation_ok(basis@, #[trigger] out@[k]),
                forall|a: int, tt: int, j: int| (a < i || (a == i && tt < t)) && #[trigger] is_violation(basis@, a, tt, j) ==> covered(out@, basis@, a, tt, j),
            decreases terms@.len() - t,
        {
            let mono = &terms[t].mono;
            let mut j: usize = 0;
            while j < n
                invariant
                    n == basis@.len(),
                    i < n,
                    terms@ == basis@[i as int]@,
                    1 <= t < terms@.len(),
                    *mono == terms@[t as int].mono,
                    j <= n,
                    forall|k: int| 0 <= k < out@.len() ==> violation_ok(basis@, #[trigger] out@[k]),
                    forall|a: int, tt: int, jj: int| (a < i || (a == i && tt < t) || (a == i && tt == t && jj < j)) && #[trigger] is_violation(basis@, a, tt, jj) ==> covered(out@, basis@, a, tt, jj),
                decreases n - j,
            {
                if j != i {
                    match basis[j].leading_mono() {
                        Some(lmj) => {
                            if divides(lmj, mono) {
                                let ghost out0 = out@;
                                out.push(ReductionViolation { i, j, bad_term: mono.duplicate() });
                                proof {
                                    assert(is_violation(basis@, i as int, t as int, j as int));
                                    assert forall|k: int| 0 <= k < out@.len() implies violation_ok(basis@, #[trigger] out@[k]) by {
                                        if k < out0.len() {
                                            assert(out@[k] == out0[k]);
                                        } else {
                                            assert(is_violation(basis@, out@[k].i as int, t as int, out@[k].j as int));
                                            assert(basis@[out@[k].i as int]@[t as int].mono@ == out@[k].bad_term@);
                                        }
                                    }
                                    assert forall|a: int, tt: int, jj: int| (a < i || (a == i && tt < t) || (a == i && tt == t && jj < j + 1)) && #[trigger] is_violation(basis@, a, tt, jj) implies covered(out@, basis@, a, tt, jj) by {
                                        if a == i && tt == t && jj == j {
                                            assert(out@[out0.len() as int].i == a);
                                        } else {
                                            assert(covered(out0, basis@, a, tt, jj));
                                            let k = choose|k: int| 0 <= k < out0.len() && (#[trigger] out0[k]).i == a && out0[k].j == jj && out0[k].bad_term@ == basis@[a]@[tt].mono@;
                                            assert(out@[k] == out0[k]);
                                        }
                                    }
                                }
                            }
                        },
                        None => {},
                    }
                }
                j += 1;
            }
            t += 1;
        }
        i += 1;
    }
    proof {
        if out@.len() > 0 {
            assert(violation_ok(basis@, out@[0]));
            let tt = choose|tt: int| #[trigger] is_violation(basis@, out@[0].i as int, tt, out@[0].j as int) && basis@[out@[0].i as int]@[tt].mono@ == out@[0].bad_term@;
            assert(!tails_reduced(basis@));
        }
        if !tails_reduced(basis@) {
            let (a, tt, jj) = choose|a: int, tt: int, jj: int| #[trigger] is_violation(basis@, a, tt, jj);
            assert(a < n);
            assert(covered(out@, basis@, a, tt, jj));
        }
    }
    out
}

/// Checks that every tail is reduced against all other leading monomials.
pub fn assert_fully_reduced_basis(basis: &[Polynomial]) -> (r: Result<(), PostError>)
    ensures
        r is Ok <==> tails_reduced(basis@),
        r is Err ==> r == Err::<(), PostError>(PostError::InvariantViolation),
{
    let violations = find_reduction_violations(basis);
    if violations.len() == 0 {
        return Ok(());
    }
    Err(PostError::InvariantViolation)
}

} // verus!
