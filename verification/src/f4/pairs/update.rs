//! Pending-pair updates after basis insertion.

use vstd::prelude::*;

use crate::f4::error::F4Error;
use crate::f4::pairs::criterion::PairCriterion;
use crate::f4::pairs::critical_pair::is_pair_of;
use crate::f4::pairs::pending::{add_pairs_with_new_basis_element, admissible, has_key, PendingPairs};
use crate::f4::types::{is_nonzero, lm, pair_fails};
use crate::monomial::MonomialError;
use crate::polynomial::Polynomial;

verus! {

/// Appends `polynomial` to the basis and inserts the admissible critical pairs it forms with
/// every older basis element.
pub fn update_with_polynomial<C: PairCriterion>(
    basis: &mut Vec<Polynomial>,
    pending: &mut PendingPairs,
    polynomial: Polynomial,
    criterion: &C,
) -> (r: Result<(), F4Error>)
    ensures
        final(basis)@ == old(basis)@.push(polynomial),
        r is Err <==> exists|o: int| 0 <= o < old(basis)@.len() && pair_fails(final(basis)@, o, old(basis)@.len() as int),
        r matches Err(e) ==> e is Monomial,
        (forall|o: int| 0 <= o < old(basis)@.len() && is_nonzero(#[trigger] old(basis)@[o]) ==> lm(old(basis)@[o]).len() == lm(polynomial).len())
            ==> (r matches Err(e) ==> e == F4Error::Monomial(MonomialError::ExponentOverflow)),
        r is Ok ==> {
            let n = old(basis)@.len();
            &&& final(pending).spec_pairs().subrange(0, old(pending).spec_pairs().len() as int) == old(pending).spec_pairs()
            &&& old(pending).spec_pairs().len() <= final(pending).spec_pairs().len()
            &&& forall|a: int| old(pending).spec_pairs().len() <= a < final(pending).spec_pairs().len() ==> {
                let p = #[trigger] final(pending).spec_pairs()[a];
                &&& p.spec_j() == n
                &&& admissible(*criterion, final(basis)@, p.spec_i() as int, n as int)
                &&& is_pair_of(p, p.spec_i() as int, n as int, lm(final(basis)@[p.spec_i() as int]), lm(polynomial))
            }
            &&& forall|o: int| admissible(*criterion, final(basis)@, o, n as int) ==> has_key(final(pending).spec_pairs(), (o as usize, n as usize))
            &&& forall|a: int, b: int| old(pending).spec_pairs().len() <= a < b < final(pending).spec_pairs().len()
                ==> (#[trigger] final(pending).spec_pairs()[a]).spec_i() < (#[trigger] final(pending).spec_pairs()[b]).spec_i()
        },
{
    let new_index = basis.len();
    let ghost b0 = basis@;
    basis.push(polynomial);
    proof {
        assert(basis@[new_index as int] == polynomial);
        assert forall|o: int| 0 <= o < new_index implies #[trigger] basis@[o] == b0[o] by {}
    }
    add_pairs_with_new_basis_element(basis.as_slice(), new_index, pending, criterion)
}

} // verus!
