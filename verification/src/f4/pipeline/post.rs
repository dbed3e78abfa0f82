//! Final post-processing of the computed basis.

use vstd::prelude::*;

use crate::f4::error::F4Error;
use crate::f4::options::F4Options;
use crate::f4::symbolic::materialize::all_wf;
use crate::f4::types::lm;
use crate::ideal::{ideal_within, same_ideal};
use crate::post::minimize::{minimize_in_place, monic_of, nonzero_polys, survivors};
use crate::order::MonomialOrder;
use crate::post::reduction::{all_nonzero, degrees_fit, interreduced_of, minimized_of, reduce_in_place, reverse_results};
use crate::post::cleanup::{cleanup_gives_up, cleanup_overflows, cleanup_reaches};
use crate::post::outcome::{reduce_gives_up, reduce_overflows, reduce_succeeds};
use crate::division::same_reducers;
use crate::post::validate::{is_minimal, tails_reduced};
use crate::post::{BasisPostOptionsKind, PostError};
use crate::monomial::MonomialError;
use crate::polynomial::{Polynomial, PolynomialError};
use crate::reduce::ReduceError;
use crate::ring::RingCtx;

verus! {

/// Applies the post-processing that `opts.post` asks for: none, minimization (drop the
/// elements whose leading monomial another element's divides, make the rest monic), or full
/// interreduction to the reduced basis.
pub fn post_process_basis(ctx: &RingCtx, basis: Vec<Polynomial>, opts: &F4Options) -> (r: Result<Vec<Polynomial>, F4Error>)
    requires
        ctx.wf(),
        all_wf(*ctx, basis@),
    ensures
        opts.post == BasisPostOptionsKind::Unchanged ==> (r matches Ok(gb) && gb == basis),
        opts.post == BasisPostOptionsKind::Minimal ==> (r matches Ok(gb) && {
            let s = survivors(nonzero_polys(basis@), nonzero_polys(basis@).len());
            &&& all_wf(*ctx, gb@)
            &&& gb@.len() == s.len()
            &&& forall|i: int| 0 <= i < gb@.len() ==> monic_of(*ctx, (#[trigger] gb@[i])@, s[i]@)
            &&& forall|i: int| 0 <= i < gb@.len() ==> (#[trigger] gb@[i])@.len() > 0 && gb@[i]@[0].coeff == 1
            &&& ideal_within(*ctx, gb@, basis@)
            &&& same_ideal(*ctx, gb@, s)
            &&& is_minimal(gb@)
        }),
        opts.post == BasisPostOptionsKind::Reduced ==> {
            &&& r matches Err(e) ==> e == F4Error::Post(PostError::Reduce(ReduceError::Polynomial(PolynomialError::Monomial(MonomialError::ExponentOverflow))))
                || e == F4Error::Post(PostError::InvariantViolation)
            &&& r matches Ok(gb) ==> exists|m: Seq<Polynomial>, out: Seq<Polynomial>| #[trigger] interreduced_of(*ctx, basis@, m, out)
                && (tails_reduced(nonzero_polys(out)) && gb@ == nonzero_polys(out)
                    || exists|h: Seq<Seq<Polynomial>>| #[trigger] cleanup_reaches(*ctx, nonzero_polys(out), h) && same_reducers(gb@, h.last()))
            &&& r == Err::<Vec<Polynomial>, F4Error>(F4Error::Post(PostError::InvariantViolation)) ==> exists|m: Seq<Polynomial>, out: Seq<Polynomial>| #[trigger] interreduced_of(*ctx, basis@, m, out)
                && exists|h: Seq<Seq<Polynomial>>| #[trigger] cleanup_gives_up(*ctx, nonzero_polys(out), h)
            &&& r == Err::<Vec<Polynomial>, F4Error>(F4Error::Post(PostError::Reduce(ReduceError::Polynomial(PolynomialError::Monomial(MonomialError::ExponentOverflow))))) ==> exists|m: Seq<Polynomial>| #[trigger] minimized_of(*ctx, basis@, m)
                && ((forall|out: Seq<Polynomial>| !#[trigger] reverse_results(*ctx, nonzero_polys(m), out))
                    || exists|out: Seq<Polynomial>, h: Seq<Seq<Polynomial>>| #[trigger] reverse_results(*ctx, nonzero_polys(m), out) && #[trigger] cleanup_overflows(*ctx, nonzero_polys(out), h))
            &&& r is Ok <==> reduce_succeeds(*ctx, basis@)
            &&& r == Err::<Vec<Polynomial>, F4Error>(F4Error::Post(PostError::InvariantViolation)) <==> reduce_gives_up(*ctx, basis@)
            &&& r == Err::<Vec<Polynomial>, F4Error>(F4Error::Post(PostError::Reduce(ReduceError::Polynomial(PolynomialError::Monomial(MonomialError::ExponentOverflow))))) <==> reduce_overflows(*ctx, basis@)
            &&& nonzero_polys(basis@).len() == 0 ==> (r matches Ok(gb) && gb@.len() == 0)
            &&& nonzero_polys(basis@).len() <= 1 ==> r is Ok
            &&& nonzero_polys(basis@).len() <= 2 ==> r != Err::<Vec<Polynomial>, F4Error>(F4Error::Post(PostError::InvariantViolation))
            &&& is_minimal(nonzero_polys(basis@)) && tails_reduced(nonzero_polys(basis@)) ==> r is Ok
            &&& ctx.order == MonomialOrder::Grevlex && degrees_fit(basis@) ==> (r matches Err(e) ==> e == F4Error::Post(PostError::InvariantViolation))
            &&& ctx.order == MonomialOrder::Grevlex && degrees_fit(basis@) && nonzero_polys(basis@).len() <= 2 ==> r is Ok
            &&& r matches Ok(gb) ==> {
                let s = survivors(nonzero_polys(basis@), nonzero_polys(basis@).len());
                &&& all_wf(*ctx, gb@)
                &&& all_nonzero(gb@)
                &&& is_minimal(gb@)
                &&& tails_reduced(gb@)
                &&& gb@.len() == s.len()
                &&& forall|k: int| 0 <= k < s.len() ==> lm(#[trigger] gb@[k]) == lm(s[k])
                &&& forall|k: int| 0 <= k < gb@.len() ==> (#[trigger] gb@[k])@[0].coeff == 1
                &&& ideal_within(*ctx, gb@, basis@)
                &&& same_ideal(*ctx, gb@, s)
            }
        },
{
    let mut gb = basis;
    match opts.post {
        BasisPostOptionsKind::Unchanged => {},
        BasisPostOptionsKind::Minimal => {
            match minimize_in_place(ctx, &mut gb) {
                Ok(()) => {},
                Err(e) => return Err(F4Error::Post(e)),
            }
        },
        BasisPostOptionsKind::Reduced => {
            match reduce_in_place(ctx, &mut gb) {
                Ok(()) => {},
                Err(e) => {
                    proof {
                        if e == PostError::InvariantViolation {
                            let (m, out) = choose|m: Seq<Polynomial>, out: Seq<Polynomial>| #[trigger] interreduced_of(*ctx, basis@, m, out)
                                && exists|h: Seq<Seq<Polynomial>>| #[trigger] cleanup_gives_up(*ctx, nonzero_polys(out), h) && same_reducers(gb@, h.last());
                            assert(interreduced_of(*ctx, basis@, m, out));
                        }
                    }
                    return Err(F4Error::Post(e));
                },
            }
        },
    }
    Ok(gb)
}

} // verus!
