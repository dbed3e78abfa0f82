//! Initialization of the F4 state from the input generators.

use vstd::prelude::*;

use crate::f4::error::F4Error;
use crate::f4::options::F4Options;
use crate::f4::pairs::criterion::ProductCriterion;
use crate::f4::pipeline::insert::{inserted, insert_new_rows, lemma_inserted_parts, lemma_inserted_wf, pairs_complete_from, pairs_sound};
use crate::f4::pipeline::iteration::state_wf;
use crate::f4::types::is_nonzero;
use crate::ideal::{element_of, in_ideal, lemma_ideal_member, lemma_ideal_zero, same_ideal};
use crate::f4::state::F4State;
use crate::f4::symbolic::materialize::all_wf;
use crate::monomial::MonomialError;
use crate::polynomial::{Polynomial, PolynomialError};
use crate::ring::RingCtx;

verus! {

/// Builds the initial F4 state: the nonzero generators, in order, form the basis, and every
/// admissible critical pair among them is pending; the history is empty and no iteration
/// has run. Generators are canonical by construction, so the input-normalization option
/// has nothing to change; a generator that is not canonical for `ctx` is refused.
pub fn initialize_state(ctx: &RingCtx, fs: Vec<Polynomial>, _opts: &F4Options, criterion: ProductCriterion) -> (r: Result<F4State, F4Error>)
    requires
        ctx.wf(),
    ensures
        r is Ok <==> inserted(*ctx, Seq::empty(), fs@) is Some,
        r matches Err(e) ==> e == F4Error::Polynomial(PolynomialError::VariableCountMismatch) || e is Monomial,
        all_wf(*ctx, fs@) ==> (r matches Err(e) ==> e == F4Error::Monomial(MonomialError::ExponentOverflow)),
        r matches Ok(state) ==> {
            &&& state.basis@ == inserted(*ctx, Seq::empty(), fs@).unwrap()
            &&& pairs_sound(state.basis@, state.pending.spec_pairs())
            &&& pairs_complete_from(state.basis@, state.pending.spec_pairs(), 0)
            &&& state.history@.len() == 0
            &&& state.simplify_index.rules_view().len() == 0
            &&& state.iteration == 0
            &&& state_wf(*ctx, state)
            &&& same_ideal(*ctx, state.basis@, fs@)
        },
{
    let ghost gens = fs@;
    let mut state = F4State::new();
    proof {
        assert(state.basis@ =~= Seq::<Polynomial>::empty());
    }
    insert_new_rows(ctx, &mut state, fs, &criterion)?;
    proof {
        assert(state.pending.spec_pairs().subrange(0, state.pending.spec_pairs().len() as int) =~= state.pending.spec_pairs());
        let b = state.basis@;
        lemma_inserted_wf(*ctx, Seq::empty(), gens);
        lemma_inserted_parts(*ctx, Seq::empty(), gens);
        assert forall|k: int| 0 <= k < b.len() implies in_ideal(*ctx, gens, (#[trigger] b[k])@) by {
            assert(element_of(gens, b[k]));
            let j = choose|j: int| 0 <= j < gens.len() && #[trigger] gens[j] == b[k];
            lemma_ideal_member(*ctx, gens, j);
        }
        assert forall|j: int| 0 <= j < gens.len() implies in_ideal(*ctx, b, (#[trigger] gens[j])@) by {
            if is_nonzero(gens[j]) {
                assert(element_of(b, gens[j]));
                let k = choose|k: int| 0 <= k < b.len() && #[trigger] b[k] == gens[j];
                lemma_ideal_member(*ctx, b, k);
            } else {
                lemma_ideal_zero(*ctx, b, gens[j]@);
            }
        }
    }
    Ok(state)
}

} // verus!
