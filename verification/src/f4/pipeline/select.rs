//! Pair selection: the batch `P_d` and its initial products `L_d`.

use vstd::prelude::*;

use crate::f4::pairs::critical_pair::{CriticalPair, PairSide};
use crate::f4::pairs::pending::lemma_dedup_distinct;
use crate::f4::pairs::selector::{lemma_split_distinct, min_degree, split_by_degree, MinDegreeSelector, PairSelector};
use crate::f4::pipeline::reduction::product_views;
use crate::f4::state::F4State;
use crate::f4::symbolic::types::{ProductSource, UnevaluatedProduct};

verus! {

/// Output of the pair-selection stage: the selected pairs `P_d`, and
/// `L_d = Left(P_d) ∪ Right(P_d)` as unevaluated products.
#[derive(Debug)]
pub struct SelectedPairBatch {
    /// The selected critical pairs.
    pub selected_pairs: Vec<CriticalPair>,
    /// Both sides of every selected pair, left side first.
    pub l_d: Vec<UnevaluatedProduct>,
}

/// The products `(i, t_i)` and `(j, t_j)` of every pair, in pair order.
pub open spec fn pair_products(pairs: Seq<CriticalPair>) -> Seq<(ProductSource, Seq<u32>)> {
    Seq::new(
        2 * pairs.len(),
        |k: int|
            if k % 2 == 0 {
                (ProductSource::Basis(pairs[k / 2].spec_i()), pairs[k / 2].spec_ti())
            } else {
                (ProductSource::Basis(pairs[k / 2].spec_j()), pairs[k / 2].spec_tj())
            },
    )
}

/// The product `multiplier * basis[basis_index]` of one pair side.
fn pair_side_to_product(side: PairSide<'_>) -> (r: UnevaluatedProduct)
    ensures
        r@ == (ProductSource::Basis(side.basis_index), side.multiplier@),
{
    UnevaluatedProduct { source: ProductSource::Basis(side.basis_index), multiplier: side.multiplier.duplicate() }
}

/// Builds `L_d = Left(P_d) ∪ Right(P_d)`: two products per pair.
pub fn build_l_d(pairs: &[CriticalPair]) -> (r: Vec<UnevaluatedProduct>)
    ensures
        product_views(r@) == pair_products(pairs@),
{
    let mut l_d: Vec<UnevaluatedProduct> = Vec::new();
    let mut i: usize = 0;
    while i < pairs.len()
        invariant
            i <= pairs@.len(),
            product_views(l_d@) == pair_products(pairs@.subrange(0, i as int)),
        decreases pairs@.len() - i,
    {
        let ghost before = l_d@;
        let left = pair_side_to_product(pairs[i].left());
        let right = pair_side_to_product(pairs[i].right());
        l_d.push(left);
        l_d.push(right);
        proof {
            let pre = pairs@.subrange(0, i as int);
            let post = pairs@.subrange(0, i + 1);
            assert(before.len() == product_views(before).len());
            assert(before.len() == 2 * i);
            assert(l_d@ == before.push(left).push(right));
            assert forall|k: int| 0 <= k < 2 * post.len() implies #[trigger] product_views(l_d@)[k] == pair_products(post)[k] by {
                if k < 2 * i {
                    assert(l_d@[k] == before[k]);
                    assert(product_views(before)[k] == pair_products(pre)[k]);
                    assert(post[k / 2] == pre[k / 2]);
                } else {
                    assert(post[k / 2] == pairs@[i as int]);
                }
            }
            assert(product_views(l_d@) =~= pair_products(post));
        }
        i += 1;
    }
    proof {
        assert(pairs@.subrange(0, pairs@.len() as int) =~= pairs@);
    }
    l_d
}

/// Selects one batch from the pending pairs: `P_d := Sel(P)` is removed from the pending set,
/// and `L_d` is built from it.
pub fn select_pairs_phase(state: &mut F4State, selector: &mut MinDegreeSelector) -> (r: SelectedPairBatch)
    ensures
        old(state).pending.spec_pairs().len() == 0 ==> r.selected_pairs@.len() == 0 && final(state).pending.spec_pairs().len() == 0,
        old(state).pending.spec_pairs().len() > 0 ==> (r.selected_pairs@, final(state).pending.spec_pairs()) == split_by_degree(
            old(state).pending.spec_pairs(),
            min_degree(old(state).pending.spec_pairs()),
            old(selector).spec_batch_size() as nat,
        ),
        product_views(r.l_d@) == pair_products(r.selected_pairs@),
        final(state).basis == old(state).basis,
        final(state).history == old(state).history,
        final(state).simplify_index == old(state).simplify_index,
        final(state).iteration == old(state).iteration,
        *final(selector) == *old(selector),
{
    let pairs = state.pending.drain_all();
    let ghost all = pairs@;
    let selection = selector.select(pairs);
    proof {
        if all.len() > 0 {
            lemma_split_distinct(all, min_degree(all), selector.spec_batch_size() as nat);
            lemma_dedup_distinct(selection.remaining@);
        } else {
            assert(selection.remaining@ =~= Seq::<CriticalPair>::empty());
        }
    }
    state.pending.replace(selection.remaining);
    let selected_pairs = selection.selected;
    let l_d = build_l_d(selected_pairs.as_slice());
    SelectedPairBatch { selected_pairs, l_d }
}

} // verus!
