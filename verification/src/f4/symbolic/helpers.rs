//! Reducer index and helper routines for symbolic preprocessing.

use vstd::prelude::*;

use crate::f4::error::F4Error;
use crate::f4::symbolic::materialize::{all_wf, is_multiple};
use crate::f4::symbolic::preprocess::mono_views;
use crate::f4::symbolic::worklist::row_monos;
use crate::f4::types::{is_nonzero, lm};
use crate::monomial::{checked_quotient, exp_sum, mul_fits, spec_divides, spec_quotient, Monomial};
use crate::polynomial::{poly_wf, Polynomial, PolynomialError};
use crate::ring::RingCtx;

verus! {

/// Degree key of a monomial: its total degree, or `u32::MAX` when that overflows.
pub open spec fn degree_key(m: Seq<u32>) -> u32 {
    if exp_sum(m) <= u32::MAX {
        exp_sum(m) as u32
    } else {
        u32::MAX
    }
}

/// Basis reducers grouped by the total degree of their leading monomial.
#[derive(Debug)]
pub struct ReducerIndex {
    by_degree: Vec<(u32, Vec<(usize, Monomial)>)>,
}

impl ReducerIndex {
    /// Buckets: a degree and its `(basis index, leading monomial)` entries.
    pub closed spec fn buckets(&self) -> Seq<(u32, Seq<(usize, Seq<u32>)>)> {
        bucket_views(self.by_degree@)
    }

    #[verifier::type_invariant]
    spec fn inv(&self) -> bool {
        buckets_sorted(self.buckets())
    }

    /// Whether the index holds no bucket.
    pub fn is_empty(&self) -> (b: bool)
        ensures
            b == (self.buckets().len() == 0),
    {
        self.by_degree.len() == 0
    }
}

/// Views of stored buckets.
pub open spec fn bucket_views(v: Seq<(u32, Vec<(usize, Monomial)>)>) -> Seq<(u32, Seq<(usize, Seq<u32>)>)> {
    Seq::new(v.len(), |b: int| (v[b].0, Seq::new(v[b].1@.len(), |k: int| (v[b].1@[k].0, v[b].1@[k].1@))))
}

/// Buckets have strictly increasing degrees.
pub open spec fn buckets_sorted(bs: Seq<(u32, Seq<(usize, Seq<u32>)>)>) -> bool {
    forall|a: int, b: int| 0 <= a < b < bs.len() ==> (#[trigger] bs[a]).0 < (#[trigger] bs[b]).0
}

/// Entry `k` of bucket `b` exists.
pub open spec fn has_entry(bs: Seq<(u32, Seq<(usize, Seq<u32>)>)>, b: int, k: int) -> bool {
    0 <= b < bs.len() && 0 <= k < bs[b].1.len()
}

/// Every entry is a nonzero basis element with its leading monomial, in the bucket of its
/// degree key, and every nonzero basis element has an entry.
pub open spec fn indexes(bs: Seq<(u32, Seq<(usize, Seq<u32>)>)>, basis: Seq<Polynomial>) -> bool {
    &&& buckets_sorted(bs)
    &&& forall|b: int, k: int| #[trigger] has_entry(bs, b, k) ==> {
        let (i, m) = bs[b].1[k];
        &&& i < basis.len()
        &&& is_nonzero(basis[i as int])
        &&& m == lm(basis[i as int])
        &&& bs[b].0 == degree_key(m)
    }
    &&& forall|i: int| 0 <= i < basis.len() && is_nonzero(#[trigger] basis[i]) ==> exists|b: int, k: int| #[trigger] has_entry(bs, b, k) && bs[b].1[k].0 == i
}

/// Builds the reducer index of the nonzero basis elements.
pub fn build_reducer_index(gb: &[Polynomial]) -> (r: ReducerIndex)
    ensures
        indexes(r.buckets(), gb@),
{
    let by_degree: Vec<(u32, Vec<(usize, Monomial)>)> = Vec::new();
    proof {
        assert(bucket_views(by_degree@) =~= Seq::<(u32, Seq<(usize, Seq<u32>)>)>::empty());
    }
    let mut index = ReducerIndex { by_degree };
    let mut i: usize = 0;
    proof {
        assert(index.buckets() =~= Seq::<(u32, Seq<(usize, Seq<u32>)>)>::empty());
    }
    while i < gb.len()
        invariant
            i <= gb@.len(),
            buckets_sorted(index.buckets()),
            forall|b: int, k: int| #[trigger] has_entry(index.buckets(), b, k) ==> {
                let (x, m) = index.buckets()[b].1[k];
                &&& x < i
                &&& is_nonzero(gb@[x as int])
                &&& m == lm(gb@[x as int])
                &&& index.buckets()[b].0 == degree_key(m)
            },
            forall|x: int| 0 <= x < i && is_nonzero(#[trigger] gb@[x]) ==> exists|b: int, k: int| #[trigger] has_entry(index.buckets(), b, k) && index.buckets()[b].1[k].0 == x,
        decreases gb@.len() - i,
    {
        match gb[i].leading_mono() {
            Some(m) => {
                let deg = match m.total_degree() {
                    Some(d) => d,
                    None => u32::MAX,
                };
                index.insert_entry(deg, i, m.duplicate());
            },
            None => {},
        }
        i += 1;
    }
    index
}

impl ReducerIndex {
    fn insert_entry(&mut self, deg: u32, i: usize, m: Monomial)
        ensures
            buckets_sorted(final(self).buckets()),
            forall|b: int, k: int| #[trigger] has_entry(final(self).buckets(), b, k) ==> final(self).buckets()[b].1[k] == (i, m@) && final(self).buckets()[b].0 == deg || exists|b2: int, k2: int| #[trigger] has_entry(old(self).buckets(), b2, k2) && old(self).buckets()[b2].1[k2] == final(self).buckets()[b].1[k] && old(self).buckets()[b2].0 == final(self).buckets()[b].0,
            forall|b2: int, k2: int| #[trigger] has_entry(old(self).buckets(), b2, k2) ==> exists|b: int, k: int| #[trigger] has_entry(final(self).buckets(), b, k) && final(self).buckets()[b].1[k] == old(self).buckets()[b2].1[k2],
            exists|b: int, k: int| #[trigger] has_entry(final(self).buckets(), b, k) && final(self).buckets()[b].1[k] == (i, m@) && final(self).buckets()[b].0 == deg,
    {
        let ghost old_bs = self.buckets();
        proof {
            use_type_invariant(&*self);
        }
        let mut pos: usize = 0;
        while pos < self.by_degree.len() && self.by_degree[pos].0 < deg
            invariant
                pos <= self.by_degree@.len(),
                self.buckets() == old_bs,
                buckets_sorted(old_bs),
                forall|b: int| 0 <= b < pos ==> (#[trigger] old_bs[b]).0 < deg,
            decreases self.by_degree@.len() - pos,
        {
            pos += 1;
        }
        if pos < self.by_degree.len() && self.by_degree[pos].0 == deg {
            let mut by_degree = Vec::new();
            std::mem::swap(&mut by_degree, &mut self.by_degree);
            let (d, mut bucket) = by_degree.remove(pos);
            let ghost b0 = bucket@;
            bucket.push((i, m));
            by_degree.insert(pos, (d, bucket));
            let ghost nb = bucket_views(by_degree@);
            proof {
                assert(nb.len() == old_bs.len());
                assert forall|b: int| 0 <= b < nb.len() && b != pos implies nb[b] == old_bs[b] by {}
                assert(nb[pos as int].1 =~= old_bs[pos as int].1.push((i, m@)));
                assert forall|a: int, b: int| 0 <= a < b < nb.len() implies (#[trigger] nb[a]).0 < (#[trigger] nb[b]).0 by {
                    assert(nb[a].0 == old_bs[a].0 && nb[b].0 == old_bs[b].0);
                }
                assert forall|b: int, k: int| #[trigger] has_entry(nb, b, k) implies nb[b].1[k] == (i, m@) && nb[b].0 == deg || exists|b2: int, k2: int| #[trigger] has_entry(old_bs, b2, k2) && old_bs[b2].1[k2] == nb[b].1[k] && old_bs[b2].0 == nb[b].0 by {
                    if b != pos || k < old_bs[b].1.len() {
                        assert(has_entry(old_bs, b, k));
                        assert(old_bs[b].1[k] == nb[b].1[k]);
                    }
                }
                assert forall|b2: int, k2: int| #[trigger] has_entry(old_bs, b2, k2) implies exists|b: int, k: int| #[trigger] has_entry(nb, b, k) && nb[b].1[k] == old_bs[b2].1[k2] by {
                    assert(has_entry(nb, b2, k2));
                    assert(nb[b2].1[k2] == old_bs[b2].1[k2]);
                }
                assert(has_entry(nb, pos as int, b0.len() as int));
                assert(nb[pos as int].1[b0.len() as int] == (i, m@));
            }
            self.by_degree = by_degree;
            assert(self.buckets() == nb);
        } else {
            let mut bucket: Vec<(usize, Monomial)> = Vec::new();
            bucket.push((i, m));
            let mut by_degree = Vec::new();
            std::mem::swap(&mut by_degree, &mut self.by_degree);
            by_degree.insert(pos, (deg, bucket));
            let ghost nb = bucket_views(by_degree@);
            proof {
                assert(nb.len() == old_bs.len() + 1);
                assert forall|b: int| 0 <= b < pos implies nb[b] == old_bs[b] by {}
                assert forall|b: int| pos < b < nb.len() implies nb[b] == old_bs[b - 1] by {}
                assert(nb[pos as int].0 == deg);
                assert(nb[pos as int].1 =~= seq![(i, m@)]);
                assert forall|a: int, b: int| 0 <= a < b < nb.len() implies (#[trigger] nb[a]).0 < (#[trigger] nb[b]).0 by {
                    if b < pos {
                    } else if b == pos {
                    } else if a < pos {
                        assert(old_bs[a].0 < deg);
                        if b - 1 > pos {
                            assert(old_bs[pos as int].0 < old_bs[b - 1].0);
                        }
                    } else if a == pos {
                        if b - 1 > pos {
                            assert(old_bs[pos as int].0 < old_bs[b - 1].0);
                        }
                    } else {
                    }
                }
                assert forall|b: int, k: int| #[trigger] has_entry(nb, b, k) implies nb[b].1[k] == (i, m@) && nb[b].0 == deg || exists|b2: int, k2: int| #[trigger] has_entry(old_bs, b2, k2) && old_bs[b2].1[k2] == nb[b].1[k] && old_bs[b2].0 == nb[b].0 by {
                    if b < pos {
                        assert(has_entry(old_bs, b, k));
                    } else if b > pos {
                        assert(has_entry(old_bs, b - 1, k));
                    }
                }
                assert forall|b2: int, k2: int| #[trigger] has_entry(old_bs, b2, k2) implies exists|b: int, k: int| #[trigger] has_entry(nb, b, k) && nb[b].1[k] == old_bs[b2].1[k2] by {
                    if b2 < pos {
                        assert(has_entry(nb, b2, k2));
                    } else {
                        assert(has_entry(nb, b2 + 1, k2));
                    }
                }
                assert(has_entry(nb, pos as int, 0));
            }
            self.by_degree = by_degree;
            assert(self.buckets() == nb);
        }
    }
}

/// Entry `(b, k)` comes before entry `(b2, k2)` in the scan order.
pub open spec fn scanned_before(b: int, k: int, b2: int, k2: int) -> bool {
    b < b2 || (b == b2 && k < k2)
}

/// Finds a reducer of `target`: scanning the buckets of degree at most the degree key of
/// `target`, by increasing degree and then in insertion order, the first entry whose
/// leading monomial divides `target`, with the quotient.
pub fn find_any_reducer_indexed(reducers: &ReducerIndex, target: &Monomial) -> (r: Result<Option<(usize, Monomial)>, F4Error>)
    ensures
        r is Err ==> r == Err::<Option<(usize, Monomial)>, F4Error>(F4Error::SymbolicInvariant) && exists|b: int, k: int|
            #[trigger] has_entry(reducers.buckets(), b, k) && reducers.buckets()[b].1[k].1.len() != target@.len(),
        r matches Ok(Some(found)) ==> exists|b: int, k: int| #[trigger] has_entry(reducers.buckets(), b, k)
            && reducers.buckets()[b].0 <= degree_key(target@)
            && reducers.buckets()[b].1[k].0 == found.0
            && spec_divides(reducers.buckets()[b].1[k].1, target@)
            && found.1@ == spec_quotient(reducers.buckets()[b].1[k].1, target@)
            && forall|b2: int, k2: int| #[trigger] has_entry(reducers.buckets(), b2, k2) && scanned_before(b2, k2, b, k) ==> !spec_divides(reducers.buckets()[b2].1[k2].1, target@),
        r matches Ok(None) ==> forall|b: int, k: int| #[trigger] has_entry(reducers.buckets(), b, k) && reducers.buckets()[b].0 <= degree_key(target@) ==> !spec_divides(reducers.buckets()[b].1[k].1, target@),
{
    let target_degree = match target.total_degree() {
        Some(d) => d,
        None => u32::MAX,
    };
    let ghost bs = reducers.buckets();
    proof {
        use_type_invariant(reducers);
    }
    let mut b: usize = 0;
    while b < reducers.by_degree.len()
        invariant
            bs == reducers.buckets(),
            buckets_sorted(bs),
            target_degree == degree_key(target@),
            b <= bs.len(),
            forall|b2: int, k2: int| #[trigger] has_entry(bs, b2, k2) && b2 < b ==> bs[b2].0 <= target_degree && !spec_divides(bs[b2].1[k2].1, target@),
        decreases bs.len() - b,
    {
        let (deg, bucket) = &reducers.by_degree[b];
        if *deg > target_degree {
            proof {
                assert forall|b2: int, k2: int| #[trigger] has_entry(bs, b2, k2) && bs[b2].0 <= degree_key(target@) implies !spec_divides(bs[b2].1[k2].1, target@) by {
                    if b2 >= b {
                        if b2 > b {
                            assert(bs[b as int].0 < bs[b2].0);
                        }
                    }
                }
            }
            return Ok(None);
        }
        let mut k: usize = 0;
        while k < bucket.len()
            invariant
                bs == reducers.buckets(),
                b < bs.len(),
                *bucket == reducers.by_degree@[b as int].1,
                bs[b as int].0 <= target_degree,
                target_degree == degree_key(target@),
                k <= bucket@.len(),
                forall|b2: int, k2: int| #[trigger] has_entry(bs, b2, k2) && (b2 < b || (b2 == b && k2 < k)) ==> !spec_divides(bs[b2].1[k2].1, target@),
            decreases bucket@.len() - k,
        {
            let (idx, lm) = &bucket[k];
            proof {
                assert(has_entry(bs, b as int, k as int));
                assert(bs[b as int].1[k as int] == (*idx, lm@));
            }
            match checked_quotient(lm, target) {
                Err(_) => return Err(F4Error::SymbolicInvariant),
                Ok(Some(q)) => return Ok(Some((*idx, q))),
                Ok(None) => {},
            }
            k += 1;
        }
        b += 1;
    }
    Ok(None)
}

/// Pushes to `pending_terms` every monomial of `poly` not yet in `seen_terms`, recording it
/// there.
pub fn enqueue_support_terms(poly: &Polynomial, seen_terms: &mut Vec<Monomial>, pending_terms: &mut Vec<Monomial>)
    ensures
        mono_views(final(seen_terms)@).to_set() == mono_views(old(seen_terms)@).to_set() + row_monos(*poly).to_set(),
        final(pending_terms)@.subrange(0, old(pending_terms)@.len() as int) == old(pending_terms)@,
        forall|k: int| old(pending_terms)@.len() <= k < final(pending_terms)@.len() ==> {
            let m = (#[trigger] final(pending_terms)@[k])@;
            &&& row_monos(*poly).contains(m)
            &&& !mono_views(old(seen_terms)@).contains(m)
        },
{
    let ghost seen0 = seen_terms@;
    let ghost pend0 = pending_terms@;
    let ghost rm = row_monos(*poly);
    let terms = poly.terms();
    let mut t: usize = 0;
    while t < terms.len()
        invariant
            terms@ == poly@,
            rm == row_monos(*poly),
            t <= terms@.len(),
            mono_views(seen_terms@).to_set() == mono_views(seen0).to_set() + rm.subrange(0, t as int).to_set(),
            pending_terms@.subrange(0, pend0.len() as int) == pend0,
            pend0.len() <= pending_terms@.len(),
            forall|k: int| pend0.len() <= k < pending_terms@.len() ==> {
                let x = (#[trigger] pending_terms@[k])@;
                &&& rm.contains(x)
                &&& !mono_views(seen0).contains(x)
            },
        decreases terms@.len() - t,
    {
        let m = &terms[t].mono;
        let ghost seen1 = seen_terms@;
        let ghost pend1 = pending_terms@;
        proof {
            assert(rm.subrange(0, t + 1) =~= rm.subrange(0, t as int).push(m@));
            assert(rm[t as int] == m@);
            assert(rm.contains(m@));
        }
        let mut found = false;
        let mut s: usize = 0;
        while s < seen_terms.len()
            invariant
                s <= seen_terms@.len(),
                found <==> exists|x: int| 0 <= x < s && seen_terms@[x]@ == m@,
            decreases seen_terms@.len() - s,
        {
            if seen_terms[s].same(m) {
                found = true;
            }
            s += 1;
        }
        proof {
            if found {
                let w = choose|x: int| 0 <= x < s && seen_terms@[x]@ == m@;
                assert(mono_views(seen1)[w] == m@);
            } else {
                assert forall|x: int| 0 <= x < mono_views(seen1).len() implies mono_views(seen1)[x] != m@ by {
                    assert(mono_views(seen1)[x] == seen1[x]@);
                }
            }
            assert(found <==> mono_views(seen1).contains(m@));
        }
        if !found {
            seen_terms.push(m.duplicate());
            pending_terms.push(m.duplicate());
            proof {
                assert(mono_views(seen_terms@) =~= mono_views(seen1).push(m@));
                assert(!mono_views(seen0).contains(m@)) by {
                    if mono_views(seen0).contains(m@) {
                        assert(mono_views(seen0).to_set().contains(m@));
                        assert(mono_views(seen1).to_set().contains(m@));
                    }
                }
                assert forall|k: int| pend0.len() <= k < pending_terms@.len() implies {
                    let x = (#[trigger] pending_terms@[k])@;
                    &&& rm.contains(x)
                    &&& !mono_views(seen0).contains(x)
                } by {
                    if k < pend1.len() {
                        assert(pending_terms@[k] == pend1[k]);
                    }
                }
                assert(pending_terms@.subrange(0, pend0.len() as int) =~= pend1.subrange(0, pend0.len() as int));
            }
        }
        proof {
            rm.subrange(0, t as int).lemma_push_to_set_commute(m@);
            mono_views(seen1).lemma_push_to_set_commute(m@);
            assert(rm.subrange(0, t + 1).to_set() == rm.subrange(0, t as int).to_set().insert(m@));
            if found {
                assert(mono_views(seen1).to_set().contains(m@));
                assert(mono_views(seen_terms@).to_set() =~= mono_views(seen0).to_set() + rm.subrange(0, t + 1).to_set());
            } else {
                assert(mono_views(seen_terms@).to_set() == mono_views(seen1).to_set().insert(m@));
                assert(mono_views(seen_terms@).to_set() =~= mono_views(seen0).to_set() + rm.subrange(0, t + 1).to_set());
            }
        }
        t += 1;
    }
    proof {
        assert(rm.subrange(0, terms@.len() as int) =~= rm);
    }
}

/// Materializes `multiplier * gb[basis_index]`.
pub fn materialize_multiple(ctx: &RingCtx, gb: &[Polynomial], basis_index: usize, multiplier: &Monomial) -> (r: Result<Polynomial, F4Error>)
    requires
        ctx.wf(),
        all_wf(*ctx, gb@),
    ensures
        basis_index >= gb@.len() ==> r == Err::<Polynomial, F4Error>(F4Error::MissingBasisPolynomial { index: basis_index }),
        basis_index < gb@.len() && multiplier@.len() != ctx.nvars ==> r == Err::<Polynomial, F4Error>(F4Error::Polynomial(PolynomialError::VariableCountMismatch)),
        basis_index < gb@.len() && multiplier@.len() == ctx.nvars ==> (r is Ok <==> forall|t: int| 0 <= t < gb@[basis_index as int]@.len() ==> mul_fits((#[trigger] gb@[basis_index as int]@[t]).mono@, multiplier@)),
        r matches Ok(q) ==> poly_wf(*ctx, q@) && is_multiple(q@, gb@[basis_index as int]@, multiplier@),
{
    if basis_index >= gb.len() {
        return Err(F4Error::MissingBasisPolynomial { index: basis_index });
    }
    if multiplier.n_vars() != ctx.nvars {
        return Err(F4Error::Polynomial(PolynomialError::VariableCountMismatch));
    }
    match gb[basis_index].mul_monomial(ctx, multiplier) {
        Ok(q) => Ok(q),
        Err(e) => Err(F4Error::Polynomial(e)),
    }
}

} // verus!
