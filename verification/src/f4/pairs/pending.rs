//! Pending critical-pair storage.

use std::collections::BTreeSet;

use vstd::prelude::*;

use crate::f4::error::F4Error;
use crate::f4::pairs::criterion::{PairCriterion, ProductCriterion};
use crate::f4::pairs::critical_pair::{is_pair_of, CriticalPair};
use crate::f4::types::{is_nonzero, lm, pair_exists, pair_fails};

use crate::monomial::MonomialError;
use crate::polynomial::Polynomial;

verus! {

broadcast use vstd::std_specs::btree::group_btree_axioms;

/// Normalized unordered key `(min, max)`.
pub open spec fn spec_norm_key(i: usize, j: usize) -> (usize, usize) {
    if i < j {
        (i, j)
    } else {
        (j, i)
    }
}

/// Normalized key of a pair.
pub open spec fn pair_key(p: CriticalPair) -> (usize, usize) {
    spec_norm_key(p.spec_i(), p.spec_j())
}

/// `s` holds a pair with key `k`.
pub open spec fn has_key(s: Seq<CriticalPair>, k: (usize, usize)) -> bool {
    exists|i: int| 0 <= i < s.len() && pair_key(#[trigger] s[i]) == k
}

/// No two pairs of `s` share a key.
pub open spec fn distinct_keys(s: Seq<CriticalPair>) -> bool {
    forall|a: int, b: int| 0 <= a < b < s.len() ==> pair_key(#[trigger] s[a]) != pair_key(#[trigger] s[b])
}

/// `s` with every pair whose key already occurred earlier removed.
pub open spec fn dedup_keys(s: Seq<CriticalPair>) -> Seq<CriticalPair>
    decreases s.len(),
{
    if s.len() == 0 {
        s
    } else {
        let d = dedup_keys(s.drop_last());
        if has_key(d, pair_key(s.last())) {
            d
        } else {
            d.push(s.last())
        }
    }
}

/// Normalized key `(min, max)` of an unordered index pair.
pub fn normalize_pair_key(i: usize, j: usize) -> (r: (usize, usize))
    ensures
        r == spec_norm_key(i, j),
{
    if i < j {
        (i, j)
    } else {
        (j, i)
    }
}

/// Critical pairs waiting for a future F4 iteration, at most one per unordered index pair.
#[derive(Debug)]
pub struct PendingPairs {
    pairs: Vec<CriticalPair>,
    present: BTreeSet<(usize, usize)>,
}

impl PendingPairs {
    #[verifier::type_invariant]
    spec fn inv(&self) -> bool {
        &&& distinct_keys(self.pairs@)
        &&& forall|k: (usize, usize)| #[trigger] self.present@.contains(k) <==> has_key(self.pairs@, k)
    }

    /// The pending pairs in insertion order.
    pub closed spec fn spec_pairs(&self) -> Seq<CriticalPair> {
        self.pairs@
    }

    /// Creates an empty pending-pair set.
    pub fn new() -> (r: PendingPairs)
        ensures
            r.spec_pairs() == Seq::<CriticalPair>::empty(),
    {
        PendingPairs { pairs: Vec::new(), present: BTreeSet::new() }
    }

    /// `true` when no pairs are pending.
    pub fn is_empty(&self) -> (b: bool)
        ensures
            b == (self.spec_pairs().len() == 0),
    {
        self.pairs.len() == 0
    }

    /// Number of pending pairs.
    pub fn len(&self) -> (n: usize)
        ensures
            n == self.spec_pairs().len(),
    {
        self.pairs.len()
    }

    /// Borrows the pending pairs in insertion order.
    pub fn as_slice(&self) -> (s: &[CriticalPair])
        ensures
            s@ == self.spec_pairs(),
            distinct_keys(s@),
    {
        proof {
            use_type_invariant(self);
        }
        self.pairs.as_slice()
    }

    /// `true` when the unordered pair `{i, j}` is pending.
    pub fn contains(&self, i: usize, j: usize) -> (b: bool)
        ensures
            b == has_key(self.spec_pairs(), spec_norm_key(i, j)),
    {
        proof {
            use_type_invariant(self);
        }
        self.present.contains(&normalize_pair_key(i, j))
    }

    /// Inserts `pair` unless its unordered index pair is already pending.
    /// Returns `true` when it was inserted.
    pub fn insert(&mut self, pair: CriticalPair) -> (b: bool)
        ensures
            b == !has_key(old(self).spec_pairs(), pair_key(pair)),
            b ==> final(self).spec_pairs() == old(self).spec_pairs().push(pair),
            !b ==> final(self).spec_pairs() == old(self).spec_pairs(),
    {
        proof {
            use_type_invariant(&*self);
        }
        let key = normalize_pair_key(pair.i(), pair.j());
        let ghost old_pairs = self.pairs@;
        if self.present.contains(&key) {
            return false;
        }
        let mut taken = PendingPairs::new();
        std::mem::swap(self, &mut taken);
        let PendingPairs { mut pairs, mut present } = taken;
        present.insert(key);
        pairs.push(pair);
        proof {
            let s = pairs@;
            assert(s.last() == pair);
            assert forall|k: (usize, usize)| #[trigger] present@.contains(k) <==> has_key(s, k) by {
                if has_key(old_pairs, k) {
                    let i = choose|i: int| 0 <= i < old_pairs.len() && pair_key(#[trigger] old_pairs[i]) == k;
                    assert(s[i] == old_pairs[i]);
                }
                if has_key(s, k) {
                    let i = choose|i: int| 0 <= i < s.len() && pair_key(#[trigger] s[i]) == k;
                    if i < old_pairs.len() {
                        assert(s[i] == old_pairs[i]);
                    }
                }
            }
            assert forall|a: int, b: int| 0 <= a < b < s.len() implies pair_key(#[trigger] s[a]) != pair_key(#[trigger] s[b]) by {
                assert(s[a] == old_pairs[a]);
                if b < old_pairs.len() {
                    assert(s[b] == old_pairs[b]);
                }
            }
        }
        *self = PendingPairs { pairs, present };
        true
    }

    /// Consumes the set and returns its pairs.
    pub fn into_vec(self) -> (v: Vec<CriticalPair>)
        ensures
            v@ == self.spec_pairs(),
    {
        self.pairs
    }

    /// Removes all pending pairs.
    pub fn clear(&mut self)
        ensures
            final(self).spec_pairs() == Seq::<CriticalPair>::empty(),
    {
        *self = PendingPairs::new();
    }

    /// Removes and returns all pending pairs.
    pub fn drain_all(&mut self) -> (v: Vec<CriticalPair>)
        ensures
            v@ == old(self).spec_pairs(),
            distinct_keys(v@),
            final(self).spec_pairs() == Seq::<CriticalPair>::empty(),
    {
        proof {
            use_type_invariant(&*self);
        }
        let mut taken = PendingPairs::new();
        std::mem::swap(self, &mut taken);
        taken.pairs
    }

    /// Replaces the pending set with `pairs`; a pair whose unordered index pair already
    /// occurred earlier in `pairs` is dropped.
    pub fn replace(&mut self, pairs: Vec<CriticalPair>)
        ensures
            final(self).spec_pairs() == dedup_keys(pairs@),
    {
        self.clear();
        let mut rest = pairs;
        let ghost all = pairs@;
        let ghost n = all.len();
        proof {
            assert(dedup_keys(all.subrange(0, 0)) == Seq::<CriticalPair>::empty());
            assert(rest@ == all.subrange(0, n as int));
        }
        while rest.len() > 0
            invariant
                rest@.len() <= n,
                n == all.len(),
                rest@ == all.subrange(n - rest@.len(), n as int),
                self.spec_pairs() == dedup_keys(all.subrange(0, n - rest@.len())),
            decreases rest@.len(),
        {
            let ghost done = n - rest@.len();
            let pair = rest.remove(0);
            proof {
                assert(pair == all[done]);
                let pre = all.subrange(0, done);
                let post = all.subrange(0, done + 1);
                assert(post.drop_last() =~= pre);
                assert(post.last() == pair);
                assert(rest@ =~= all.subrange(n - rest@.len(), n as int));
            }
            self.insert(pair);
        }
        proof {
            assert(all.subrange(0, n as int) =~= all);
        }
    }
}

/// A sequence whose keys are distinct is its own key deduplication.
pub proof fn lemma_dedup_distinct(s: Seq<CriticalPair>)
    requires
        distinct_keys(s),
    ensures
        dedup_keys(s) == s,
    decreases s.len(),
{
    if s.len() > 0 {
        let t = s.drop_last();
        assert(distinct_keys(t)) by {
            assert forall|a: int, b: int| 0 <= a < b < t.len() implies pair_key(#[trigger] t[a]) != pair_key(#[trigger] t[b]) by {
                assert(t[a] == s[a] && t[b] == s[b]);
            }
        }
        lemma_dedup_distinct(t);
        if has_key(t, pair_key(s.last())) {
            let i = choose|i: int| 0 <= i < t.len() && pair_key(#[trigger] t[i]) == pair_key(s.last());
            assert(t[i] == s[i]);
            assert(pair_key(s[i]) != pair_key(s[s.len() - 1]));
        }
        assert(t.push(s.last()) =~= s);
    }
}

impl Default for PendingPairs {
    fn default() -> (r: PendingPairs)
        ensures
            r.spec_pairs() == Seq::<CriticalPair>::empty(),
    {
        PendingPairs::new()
    }
}

/// Builds the critical pair of `basis[i]` and `basis[j]`; `None` when the indices are equal
/// or either polynomial is zero.
pub fn make_pair(basis: &[Polynomial], i: usize, j: usize) -> (r: Result<Option<CriticalPair>, F4Error>)
    requires
        i < basis@.len(),
        j < basis@.len(),
    ensures
        r is Err <==> pair_fails(basis@, i as int, j as int),
        r matches Err(e) ==> e is Monomial,
        lm(basis@[i as int]).len() == lm(basis@[j as int]).len() ==> (r matches Err(e) ==> e == F4Error::Monomial(MonomialError::ExponentOverflow)),
        r matches Ok(None) ==> !pair_exists(basis@, i as int, j as int),
        r matches Ok(Some(p)) ==> pair_exists(basis@, i as int, j as int) && (if i < j {
            is_pair_of(p, i as int, j as int, lm(basis@[i as int]), lm(basis@[j as int]))
        } else {
            is_pair_of(p, j as int, i as int, lm(basis@[j as int]), lm(basis@[i as int]))
        }),
{
    if i == j {
        return Ok(None);
    }
    let lm_i = match basis[i].leading_mono() {
        Some(m) => m,
        None => return Ok(None),
    };
    let lm_j = match basis[j].leading_mono() {
        Some(m) => m,
        None => return Ok(None),
    };
    match CriticalPair::from_lms(i, j, lm_i, lm_j) {
        Ok(p) => Ok(Some(p)),
        Err(e) => Err(F4Error::Monomial(e)),
    }
}

/// The pair `(i, j)` with `i < j` passes into the pending set.
pub open spec fn admissible<C: PairCriterion>(criterion: C, basis: Seq<Polynomial>, i: int, j: int) -> bool {
    &&& 0 <= i < j < basis.len()
    &&& pair_exists(basis, i, j)
    &&& criterion.spec_allows(basis, i, j)
}

/// Keys strictly increase in lexicographic order.
pub open spec fn keys_increasing(s: Seq<CriticalPair>) -> bool {
    forall|a: int, b: int|
        0 <= a < b < s.len() ==> ((#[trigger] s[a]).spec_i() < (#[trigger] s[b]).spec_i() || (s[a].spec_i()
            == s[b].spec_i() && s[a].spec_j() < s[b].spec_j()))
}

/// Every pair of `s` is the critical pair of its indices.
pub open spec fn pairs_of_basis(basis: Seq<Polynomial>, s: Seq<CriticalPair>) -> bool {
    forall|a: int|
        0 <= a < s.len() ==> is_pair_of(
            #[trigger] s[a],
            s[a].spec_i() as int,
            s[a].spec_j() as int,
            lm(basis[s[a].spec_i() as int]),
            lm(basis[s[a].spec_j() as int]),
        )
}

/// Constructs all admissible critical pairs of the basis, ordered by `(i, j)`.
pub fn build_all_pairs<C: PairCriterion>(basis: &[Polynomial], criterion: &C) -> (r: Result<Vec<CriticalPair>, F4Error>)
    ensures
        r is Err <==> exists|i: int, j: int| 0 <= i < j < basis@.len() && pair_fails(basis@, i, j),
        r matches Ok(v) ==> {
            &&& keys_increasing(v@)
            &&& pairs_of_basis(basis@, v@)
            &&& forall|a: int| 0 <= a < v@.len() ==> admissible(*criterion, basis@, (#[trigger] v@[a]).spec_i() as int, v@[a].spec_j() as int)
            &&& forall|i: int, j: int| admissible(*criterion, basis@, i, j) ==> exists|a: int| 0 <= a < v@.len() && (#[trigger] v@[a]).spec_i() == i && v@[a].spec_j() == j
        },
{
    let n = basis.len();
    let mut pairs: Vec<CriticalPair> = Vec::new();
    let mut i: usize = 0;
    while i < n
        invariant
            n == basis@.len(),
            i <= n,
            keys_increasing(pairs@),
            pairs_of_basis(basis@, pairs@),
            forall|a: int| 0 <= a < pairs@.len() ==> (#[trigger] pairs@[a]).spec_i() < i && admissible(*criterion, basis@, pairs@[a].spec_i() as int, pairs@[a].spec_j() as int),
            forall|x: int, y: int| admissible(*criterion, basis@, x, y) && x < i ==> exists|a: int| 0 <= a < pairs@.len() && (#[trigger] pairs@[a]).spec_i() == x && pairs@[a].spec_j() == y,
            forall|x: int, y: int| 0 <= x < y < n && x < i ==> !pair_fails(basis@, x, y),
        decreases n - i,
    {
        let mut j: usize = i + 1;
        while j < n
            invariant
                n == basis@.len(),
                i < n,
                i + 1 <= j <= n,
                keys_increasing(pairs@),
                pairs_of_basis(basis@, pairs@),
                forall|a: int| 0 <= a < pairs@.len() ==> ((#[trigger] pairs@[a]).spec_i() < i || (pairs@[a].spec_i() == i && pairs@[a].spec_j() < j)) && admissible(*criterion, basis@, pairs@[a].spec_i() as int, pairs@[a].spec_j() as int),
                forall|x: int, y: int| admissible(*criterion, basis@, x, y) && (x < i || (x == i && y < j)) ==> exists|a: int| 0 <= a < pairs@.len() && (#[trigger] pairs@[a]).spec_i() == x && pairs@[a].spec_j() == y,
                forall|x: int, y: int| 0 <= x < y < n && (x < i || (x == i && y < j)) ==> !pair_fails(basis@, x, y),
            decreases n - j,
        {
            let made = make_pair(basis, i, j);
            match made {
                Err(e) => {
                    return Err(e);
                },
                Ok(None) => {},
                Ok(Some(pair)) => {
                    if criterion.allows(basis, &pair) {
                        let ghost before = pairs@;
                        pairs.push(pair);
                        proof {
                            let s = pairs@;
                            assert(s.last() == pair);
                            assert forall|a: int, b: int| 0 <= a < b < s.len() implies ((#[trigger] s[a]).spec_i() < (#[trigger] s[b]).spec_i() || (s[a].spec_i() == s[b].spec_i() && s[a].spec_j() < s[b].spec_j())) by {
                                assert(s[a] == before[a]);
                                if b < before.len() {
                                    assert(s[b] == before[b]);
                                }
                            }
                            assert forall|a: int| 0 <= a < s.len() implies is_pair_of(#[trigger] s[a], s[a].spec_i() as int, s[a].spec_j() as int, lm(basis@[s[a].spec_i() as int]), lm(basis@[s[a].spec_j() as int])) by {
                                if a < before.len() {
                                    assert(s[a] == before[a]);
                                }
                            }
                            assert forall|x: int, y: int| admissible(*criterion, basis@, x, y) && (x < i || (x == i && y < j + 1)) implies exists|a: int| 0 <= a < s.len() && (#[trigger] s[a]).spec_i() == x && s[a].spec_j() == y by {
                                if x == i && y == j {
                                    assert(s[s.len() - 1].spec_i() == x);
                                } else {
                                    let a = choose|a: int| 0 <= a < before.len() && (#[trigger] before[a]).spec_i() == x && before[a].spec_j() == y;
                                    assert(s[a] == before[a]);
                                }
                            }
                        }
                    }
                },
            }
            j += 1;
        }
        i += 1;
    }
    Ok(pairs)
}

/// Inserts every admissible pair `(old, new_index)` with `old < new_index` into `pending`.
pub fn add_pairs_with_new_basis_element<C: PairCriterion>(basis: &[Polynomial], new_index: usize, pending: &mut PendingPairs, criterion: &C) -> (r: Result<(), F4Error>)
    requires
        new_index < basis@.len(),
    ensures
        r is Err <==> exists|o: int| 0 <= o < new_index && pair_fails(basis@, o, new_index as int),
        r matches Err(e) ==> e is Monomial,
        (forall|o: int| 0 <= o < new_index && is_nonzero(#[trigger] basis@[o]) ==> lm(basis@[o]).len() == lm(basis@[new_index as int]).len())
            ==> (r matches Err(e) ==> e == F4Error::Monomial(MonomialError::ExponentOverflow)),
        r is Ok ==> {
            &&& final(pending).spec_pairs().subrange(0, old(pending).spec_pairs().len() as int) == old(pending).spec_pairs()
            &&& old(pending).spec_pairs().len() <= final(pending).spec_pairs().len()
            &&& forall|a: int| old(pending).spec_pairs().len() <= a < final(pending).spec_pairs().len() ==> {
                let p = #[trigger] final(pending).spec_pairs()[a];
                &&& p.spec_j() == new_index
                &&& admissible(*criterion, basis@, p.spec_i() as int, new_index as int)
                &&& is_pair_of(p, p.spec_i() as int, new_index as int, lm(basis@[p.spec_i() as int]), lm(basis@[new_index as int]))
            }
            &&& forall|o: int| admissible(*criterion, basis@, o, new_index as int) ==> has_key(final(pending).spec_pairs(), (o as usize, new_index))
            &&& forall|a: int, b: int| old(pending).spec_pairs().len() <= a < b < final(pending).spec_pairs().len()
                ==> (#[trigger] final(pending).spec_pairs()[a]).spec_i() < (#[trigger] final(pending).spec_pairs()[b]).spec_i()
        },
{
    let ghost start = pending.spec_pairs();
    let mut old_index: usize = 0;
    while old_index < new_index
        invariant
            new_index < basis@.len(),
            old_index <= new_index,
            start.len() <= pending.spec_pairs().len(),
            pending.spec_pairs().subrange(0, start.len() as int) == start,
            forall|a: int| start.len() <= a < pending.spec_pairs().len() ==> {
                let p = #[trigger] pending.spec_pairs()[a];
                &&& p.spec_j() == new_index
                &&& admissible(*criterion, basis@, p.spec_i() as int, new_index as int)
                &&& is_pair_of(p, p.spec_i() as int, new_index as int, lm(basis@[p.spec_i() as int]), lm(basis@[new_index as int]))
            },
            forall|o: int| 0 <= o < old_index && admissible(*criterion, basis@, o, new_index as int) ==> has_key(pending.spec_pairs(), (o as usize, new_index)),
            forall|o: int| 0 <= o < old_index ==> !pair_fails(basis@, o, new_index as int),
            forall|a: int| start.len() <= a < pending.spec_pairs().len() ==> (#[trigger] pending.spec_pairs()[a]).spec_i() < old_index,
            forall|a: int, b: int| start.len() <= a < b < pending.spec_pairs().len()
                ==> (#[trigger] pending.spec_pairs()[a]).spec_i() < (#[trigger] pending.spec_pairs()[b]).spec_i(),
        decreases new_index - old_index,
    {
        match make_pair(basis, old_index, new_index) {
            Err(e) => {
                return Err(e);
            },
            Ok(None) => {},
            Ok(Some(pair)) => {
                if criterion.allows(basis, &pair) {
                    let ghost before = pending.spec_pairs();
                    let ghost pk = pair_key(pair);
                    let inserted = pending.insert(pair);
                    proof {
                        let s = pending.spec_pairs();
                        if inserted {
                            assert(s.subrange(0, start.len() as int) =~= start) by {
                                assert(before.subrange(0, start.len() as int) == start);
                                assert forall|k: int| 0 <= k < start.len() implies s[k] == start[k] by {
                                    assert(s[k] == before[k]);
                                    assert(before.subrange(0, start.len() as int)[k] == before[k]);
                                }
                            }
                            assert forall|o: int| 0 <= o < old_index + 1 && admissible(*criterion, basis@, o, new_index as int) implies has_key(s, (o as usize, new_index)) by {
                                if o < old_index {
                                    let a = choose|a: int| 0 <= a < before.len() && pair_key(#[trigger] before[a]) == (o as usize, new_index);
                                    assert(s[a] == before[a]);
                                } else {
                                    assert(pair_key(s[s.len() - 1]) == (o as usize, new_index));
                                }
                            }
                        } else {
                            assert(has_key(before, pk));
                        }
                    }
                }
            },
        }
        old_index += 1;
    }
    Ok(())
}

/// With the product criterion, a pair of basis indices `i < j` is admissible exactly when
/// its S-polynomial can be formed and the two leading monomials share a variable.
pub proof fn lemma_admissible_product(basis: Seq<Polynomial>, i: int, j: int)
    ensures
        admissible(ProductCriterion, basis, i, j) <==> 0 <= i < j < basis.len() && pair_exists(basis, i, j) && exists|v: int|
            0 <= v < lm(basis[i]).len() && v < lm(basis[j]).len() && #[trigger] lm(basis[i])[v] > 0 && lm(basis[j])[v] > 0,
{
    crate::f4::pairs::criterion::lemma_product_criterion(basis, i, j);
}

} // verus!
