//! Insertion of new rows into the basis, with the critical pairs they form.

use vstd::prelude::*;

use crate::f4::error::F4Error;
use crate::f4::pairs::criterion::ProductCriterion;
use crate::f4::pairs::critical_pair::{is_pair_of, CriticalPair};
use crate::f4::pairs::pending::{admissible, has_key, pair_key, PendingPairs};
use crate::f4::pairs::update::update_with_polynomial;
use crate::f4::state::F4State;
use crate::f4::symbolic::materialize::all_wf;
use crate::f4::types::{is_nonzero, lm, pair_fails};
use crate::ideal::element_of;
use crate::monomial::MonomialError;
use crate::polynomial::{poly_wf, Polynomial, PolynomialError};
use crate::ring::RingCtx;

verus! {

/// The basis after inserting `rows` one after the other: a zero row is skipped; `None` when a
/// row is not canonical for `ctx`, or has a leading monomial that cannot be paired with that
/// of an earlier basis element.
pub open spec fn inserted(ctx: RingCtx, basis: Seq<Polynomial>, rows: Seq<Polynomial>) -> Option<Seq<Polynomial>>
    decreases rows.len(),
{
    if rows.len() == 0 {
        Some(basis)
    } else {
        match inserted(ctx, basis, rows.drop_last()) {
            None => None,
            Some(b) => {
                let f = rows.last();
                if !is_nonzero(f) {
                    Some(b)
                } else if !poly_wf(ctx, f@) {
                    None
                } else if exists|o: int| 0 <= o < b.len() && pair_fails(b.push(f), o, b.len() as int) {
                    None
                } else {
                    Some(b.push(f))
                }
            },
        }
    }
}

/// Every pair of `pending` is an admissible pair of `basis` with its critical-pair data.
pub open spec fn pairs_sound(basis: Seq<Polynomial>, pending: Seq<CriticalPair>) -> bool {
    forall|a: int|
        0 <= a < pending.len() ==> {
            let p = #[trigger] pending[a];
            &&& admissible(ProductCriterion, basis, p.spec_i() as int, p.spec_j() as int)
            &&& is_pair_of(p, p.spec_i() as int, p.spec_j() as int, lm(basis[p.spec_i() as int]), lm(basis[p.spec_j() as int]))
        }
}

/// Every admissible pair `(o, n)` of `basis` with `n >= from` is pending.
pub open spec fn pairs_complete_from(basis: Seq<Polynomial>, pending: Seq<CriticalPair>, from: int) -> bool {
    forall|o: int, n: int| from <= n && #[trigger] admissible(ProductCriterion, basis, o, n) ==> has_key(pending, (o as usize, n as usize))
}

/// Insertion stops for good once it has failed.
proof fn lemma_inserted_none(ctx: RingCtx, basis: Seq<Polynomial>, rows: Seq<Polynomial>, k: int)
    requires
        0 <= k <= rows.len(),
        inserted(ctx, basis, rows.subrange(0, k)) is None,
    ensures
        inserted(ctx, basis, rows) is None,
    decreases rows.len() - k,
{
    if k < rows.len() {
        assert(rows.subrange(0, k + 1).drop_last() =~= rows.subrange(0, k));
        lemma_inserted_none(ctx, basis, rows, k + 1);
    } else {
        assert(rows.subrange(0, k) =~= rows);
    }
}

/// Inserting canonical rows into a canonical basis extends it and keeps it canonical.
pub proof fn lemma_inserted_wf(ctx: RingCtx, basis: Seq<Polynomial>, rows: Seq<Polynomial>)
    requires
        all_wf(ctx, basis),
        inserted(ctx, basis, rows) is Some,
    ensures
        all_wf(ctx, inserted(ctx, basis, rows).unwrap()),
        basis.len() <= inserted(ctx, basis, rows).unwrap().len(),
        forall|k: int| 0 <= k < basis.len() ==> #[trigger] inserted(ctx, basis, rows).unwrap()[k] == basis[k],
    decreases rows.len(),
{
    if rows.len() > 0 {
        lemma_inserted_wf(ctx, basis, rows.drop_last());
        let b = inserted(ctx, basis, rows.drop_last()).unwrap();
        let f = rows.last();
        if is_nonzero(f) {
            assert(inserted(ctx, basis, rows).unwrap() == b.push(f));
            assert forall|k: int| 0 <= k < b.push(f).len() implies poly_wf(ctx, (#[trigger] b.push(f)[k])@) by {
                if k < b.len() {
                    assert(b.push(f)[k] == b[k]);
                }
            }
            assert forall|k: int| 0 <= k < basis.len() implies #[trigger] b.push(f)[k] == basis[k] by {
                assert(b.push(f)[k] == b[k]);
            }
        }
    }
}

/// After a successful insertion, the rows are canonical, every element past the old basis
/// is one of the rows, and every nonzero row is an element of the new basis.
pub proof fn lemma_inserted_parts(ctx: RingCtx, basis: Seq<Polynomial>, rows: Seq<Polynomial>)
    requires
        inserted(ctx, basis, rows) is Some,
    ensures
        all_wf(ctx, rows),
        basis.len() <= inserted(ctx, basis, rows).unwrap().len(),
        forall|k: int| 0 <= k < basis.len() ==> #[trigger] inserted(ctx, basis, rows).unwrap()[k] == basis[k],
        forall|k: int| basis.len() <= k < inserted(ctx, basis, rows).unwrap().len() ==> element_of(rows, #[trigger] inserted(ctx, basis, rows).unwrap()[k]),
        forall|j: int| 0 <= j < rows.len() && is_nonzero(#[trigger] rows[j]) ==> element_of(inserted(ctx, basis, rows).unwrap(), rows[j]),
    decreases rows.len(),
{
    let nb = inserted(ctx, basis, rows).unwrap();
    if rows.len() == 0 {
        assert(nb == basis);
    } else {
        let r0 = rows.drop_last();
        lemma_inserted_parts(ctx, basis, r0);
        let b = inserted(ctx, basis, r0).unwrap();
        let f = rows.last();
        assert(rows[rows.len() - 1] == f);
        assert forall|j: int| 0 <= j < r0.len() implies #[trigger] rows[j] == r0[j] by {}
        assert(all_wf(ctx, rows)) by {
            assert forall|j: int| 0 <= j < rows.len() implies poly_wf(ctx, (#[trigger] rows[j])@) by {
                if j < r0.len() {
                    assert(rows[j] == r0[j]);
                } else if !is_nonzero(f) {
                    assert(f@.len() == 0);
                }
            }
        }
        if is_nonzero(f) {
            assert(nb == b.push(f));
            assert forall|k: int| basis.len() <= k < nb.len() implies element_of(rows, #[trigger] nb[k]) by {
                if k < b.len() {
                    assert(nb[k] == b[k]);
                    assert(element_of(r0, b[k]));
                    let j = choose|j: int| 0 <= j < r0.len() && #[trigger] r0[j] == b[k];
                    assert(rows[j] == r0[j]);
                } else {
                    assert(nb[k] == f);
                }
            }
            assert forall|j: int| 0 <= j < rows.len() && is_nonzero(#[trigger] rows[j]) implies element_of(nb, rows[j]) by {
                if j < r0.len() {
                    assert(rows[j] == r0[j]);
                    assert(element_of(b, r0[j]));
                    let k = choose|k: int| 0 <= k < b.len() && #[trigger] b[k] == r0[j];
                    assert(nb[k] == b[k]);
                } else {
                    assert(nb[b.len() as int] == f);
                }
            }
            assert forall|k: int| 0 <= k < basis.len() implies #[trigger] nb[k] == basis[k] by {
                assert(nb[k] == b[k]);
            }
        } else {
            assert(nb == b);
            assert forall|j: int| 0 <= j < rows.len() && is_nonzero(#[trigger] rows[j]) implies element_of(nb, rows[j]) by {
                assert(j < r0.len());
                assert(rows[j] == r0[j]);
            }
        }
    }
}

/// Admissibility and pair data of `(i, j)` only look at the first `j + 1` basis elements.
proof fn lemma_admissible_prefix(small: Seq<Polynomial>, big: Seq<Polynomial>, i: int, j: int)
    requires
        small.len() <= big.len(),
        forall|k: int| 0 <= k < small.len() ==> #[trigger] small[k] == big[k],
        j < small.len(),
    ensures
        admissible(ProductCriterion, small, i, j) == admissible(ProductCriterion, big, i, j),
{
    if 0 <= i < j {
        assert(small[i] == big[i] && small[j] == big[j]);
    }
}

/// Inserts the nonzero rows one after the other, each with the admissible pairs it forms with
/// the earlier basis elements.
fn insert_rows(ctx: &RingCtx, basis: &mut Vec<Polynomial>, pending: &mut PendingPairs, rows: Vec<Polynomial>, criterion: &ProductCriterion) -> (r: Result<(), F4Error>)
    requires
        ctx.wf(),
    ensures
        r is Ok <==> inserted(*ctx, old(basis)@, rows@) is Some,
        r matches Err(e) ==> e == F4Error::Polynomial(PolynomialError::VariableCountMismatch) || e is Monomial,
        all_wf(*ctx, rows@) ==> (r matches Err(e) ==> e is Monomial),
        all_wf(*ctx, rows@) && all_wf(*ctx, old(basis)@) ==> (r matches Err(e) ==> e == F4Error::Monomial(MonomialError::ExponentOverflow)),
        r is Ok ==> {
            let b = final(basis)@;
            let p = final(pending).spec_pairs();
            let n0 = old(pending).spec_pairs().len();
            &&& b == inserted(*ctx, old(basis)@, rows@).unwrap()
            &&& n0 <= p.len()
            &&& p.subrange(0, n0 as int) == old(pending).spec_pairs()
            &&& pairs_sound(b, p.subrange(n0 as int, p.len() as int))
            &&& forall|a: int| n0 <= a < p.len() ==> old(basis)@.len() <= (#[trigger] p[a]).spec_j()
            &&& pairs_complete_from(b, p, old(basis)@.len() as int)
        },
{
    let ghost all = rows@;
    let ghost b0 = basis@;
    let ghost p0 = pending.spec_pairs();
    let ghost n = all.len();
    let mut rest = rows;
    proof {
        assert(all.subrange(0, 0) =~= Seq::<Polynomial>::empty());
        assert(rest@ =~= all.subrange(0, n as int));
        assert(pending.spec_pairs().subrange(p0.len() as int, p0.len() as int) =~= Seq::<CriticalPair>::empty());
        assert(pending.spec_pairs().subrange(0, p0.len() as int) =~= p0);
    }
    while rest.len() > 0
        invariant
            ctx.wf(),
            n == all.len(),
            all == rows@,
            b0 == old(basis)@,
            rest@.len() <= n,
            rest@ == all.subrange(n - rest@.len(), n as int),
            inserted(*ctx, b0, all.subrange(0, n - rest@.len())) == Some(basis@),
            b0.len() <= basis@.len(),
            forall|k: int| 0 <= k < b0.len() ==> #[trigger] basis@[k] == b0[k],
            p0.len() <= pending.spec_pairs().len(),
            pending.spec_pairs().subrange(0, p0.len() as int) == p0,
            pairs_sound(basis@, pending.spec_pairs().subrange(p0.len() as int, pending.spec_pairs().len() as int)),
            forall|a: int| p0.len() <= a < pending.spec_pairs().len() ==> b0.len() <= (#[trigger] pending.spec_pairs()[a]).spec_j(),
            pairs_complete_from(basis@, pending.spec_pairs(), b0.len() as int),
            all_wf(*ctx, rows@) ==> all_wf(*ctx, all),
            all_wf(*ctx, rows@) && all_wf(*ctx, b0) ==> all_wf(*ctx, basis@),
        decreases rest@.len(),
    {
        let ghost done = n - rest@.len();
        let ghost bb = basis@;
        let ghost pp = pending.spec_pairs();
        let row = rest.remove(0);
        proof {
            assert(row == all[done]);
            assert(all.subrange(0, done + 1).drop_last() =~= all.subrange(0, done));
            assert(all.subrange(0, done + 1).last() == row);
            assert(rest@ =~= all.subrange(n - rest@.len(), n as int));
        }
        if row.is_zero() {
            continue;
        }
        if !row.belongs_to(ctx) {
            proof {
                if all_wf(*ctx, rows@) {
                    assert(poly_wf(*ctx, all[done]@));
                }
                assert(inserted(*ctx, b0, all.subrange(0, done + 1)) is None);
                lemma_inserted_none(*ctx, b0, all, done + 1);
                assert(inserted(*ctx, b0, all) is None);
            }
            return Err(F4Error::Polynomial(PolynomialError::VariableCountMismatch));
        }
        let ghost fr = row;
        proof {
            if all_wf(*ctx, rows@) && all_wf(*ctx, b0) {
                assert forall|o: int| 0 <= o < bb.len() && is_nonzero(#[trigger] bb[o]) implies lm(bb[o]).len() == lm(fr).len() by {
                    assert(poly_wf(*ctx, bb[o]@));
                    assert(poly_wf(*ctx, fr@));
                }
            }
        }
        match update_with_polynomial(basis, pending, row, criterion) {
            Err(e) => {
                proof {
                    lemma_inserted_none(*ctx, b0, all, done + 1);
                }
                return Err(e);
            },
            Ok(()) => {},
        }
        proof {
            let b = basis@;
            let p = pending.spec_pairs();
            assert(b == bb.push(fr));
            assert forall|k: int| 0 <= k < b0.len() implies #[trigger] b[k] == b0[k] by {
                assert(b[k] == bb[k]);
            }
            assert(p.subrange(0, p0.len() as int) =~= p0) by {
                assert forall|a: int| 0 <= a < p0.len() implies p[a] == p0[a] by {
                    assert(p.subrange(0, pp.len() as int)[a] == pp[a]);
                    assert(pp.subrange(0, p0.len() as int)[a] == p0[a]);
                }
            }
            let tail = p.subrange(p0.len() as int, p.len() as int);
            assert forall|a: int| 0 <= a < tail.len() implies {
                let q = #[trigger] tail[a];
                &&& admissible(ProductCriterion, b, q.spec_i() as int, q.spec_j() as int)
                &&& is_pair_of(q, q.spec_i() as int, q.spec_j() as int, lm(b[q.spec_i() as int]), lm(b[q.spec_j() as int]))
            } by {
                let q = tail[a];
                let ia = a + p0.len();
                assert(q == p[ia]);
                if ia < pp.len() {
                    assert(p[ia] == pp[ia]) by {
                        assert(p.subrange(0, pp.len() as int)[ia] == pp[ia]);
                    }
                    let old_tail = pp.subrange(p0.len() as int, pp.len() as int);
                    assert(old_tail[a] == q);
                    lemma_admissible_prefix(bb, b, q.spec_i() as int, q.spec_j() as int);
                    assert(b[q.spec_i() as int] == bb[q.spec_i() as int]);
                    assert(b[q.spec_j() as int] == bb[q.spec_j() as int]);
                } else {
                    assert(q.spec_j() == bb.len());
                }
            }
            assert forall|a: int| p0.len() <= a < p.len() implies b0.len() <= (#[trigger] p[a]).spec_j() by {
                if a < pp.len() {
                    assert(p.subrange(0, pp.len() as int)[a] == pp[a]);
                }
            }
            assert forall|o: int, m: int| b0.len() <= m && #[trigger] admissible(ProductCriterion, b, o, m) implies has_key(p, (o as usize, m as usize)) by {
                if m < bb.len() {
                    lemma_admissible_prefix(bb, b, o, m);
                    let w = choose|w: int| 0 <= w < pp.len() && pair_key(#[trigger] pp[w]) == (o as usize, m as usize);
                    assert(p.subrange(0, pp.len() as int)[w] == pp[w]);
                    assert(p[w] == pp[w]);
                }
            }
            assert(inserted(*ctx, b0, all.subrange(0, done + 1)) == Some(b));
            if all_wf(*ctx, rows@) && all_wf(*ctx, b0) {
                assert forall|k: int| 0 <= k < b.len() implies poly_wf(*ctx, (#[trigger] b[k])@) by {
                    if k < bb.len() {
                        assert(b[k] == bb[k]);
                    }
                }
            }
        }
    }
    proof {
        assert(all.subrange(0, n as int) =~= all);
    }
    Ok(())
}

/// Inserts the nonzero `rows` into the basis of `state`, with the admissible critical pairs
/// each forms with the earlier basis elements. Rows must be canonical for `ctx`.
pub fn insert_new_rows(ctx: &RingCtx, state: &mut F4State, rows: Vec<Polynomial>, criterion: &ProductCriterion) -> (r: Result<(), F4Error>)
    requires
        ctx.wf(),
    ensures
        r is Ok <==> inserted(*ctx, old(state).basis@, rows@) is Some,
        r matches Err(e) ==> e == F4Error::Polynomial(PolynomialError::VariableCountMismatch) || e is Monomial,
        all_wf(*ctx, rows@) ==> (r matches Err(e) ==> e is Monomial),
        all_wf(*ctx, rows@) && all_wf(*ctx, old(state).basis@) ==> (r matches Err(e) ==> e == F4Error::Monomial(MonomialError::ExponentOverflow)),
        r is Ok ==> {
            let b = final(state).basis@;
            let p = final(state).pending.spec_pairs();
            let n0 = old(state).pending.spec_pairs().len();
            &&& b == inserted(*ctx, old(state).basis@, rows@).unwrap()
            &&& n0 <= p.len()
            &&& p.subrange(0, n0 as int) == old(state).pending.spec_pairs()
            &&& pairs_sound(b, p.subrange(n0 as int, p.len() as int))
            &&& forall|a: int| n0 <= a < p.len() ==> old(state).basis@.len() <= (#[trigger] p[a]).spec_j()
            &&& pairs_complete_from(b, p, old(state).basis@.len() as int)
        },
        final(state).history == old(state).history,
        final(state).simplify_index == old(state).simplify_index,
        final(state).iteration == old(state).iteration,
{
    insert_rows(ctx, &mut state.basis, &mut state.pending, rows, criterion)
}

} // verus!
