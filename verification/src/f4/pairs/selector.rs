//! Critical-pair batch selection.

use vstd::prelude::*;

use crate::f4::pairs::critical_pair::CriticalPair;
use crate::f4::pairs::pending::{distinct_keys, pair_key};

verus! {

/// Result of selecting one F4 batch from the pending critical pairs.
#[derive(Debug)]
pub struct Selection {
    /// Pairs selected for immediate processing.
    pub selected: Vec<CriticalPair>,
    /// Pairs left pending for future iterations.
    pub remaining: Vec<CriticalPair>,
}

/// Strategy for choosing the next batch of critical pairs.
pub trait PairSelector {
    /// Splits the pending pairs into a selected batch and the remaining pairs.
    fn select(&mut self, pairs: Vec<CriticalPair>) -> Selection;
}

/// Smallest degree among the pairs of a nonempty sequence.
pub open spec fn min_degree(s: Seq<CriticalPair>) -> u32
    decreases s.len(),
{
    if s.len() <= 1 {
        s[0].spec_degree()
    } else {
        let m = min_degree(s.drop_last());
        if s.last().spec_degree() < m {
            s.last().spec_degree()
        } else {
            m
        }
    }
}

/// Scanning `s` in order, a pair of degree `d` goes to the first component while it
/// holds fewer than `cap` pairs; every other pair goes to the second component.
pub open spec fn split_by_degree(s: Seq<CriticalPair>, d: u32, cap: nat) -> (Seq<CriticalPair>, Seq<CriticalPair>)
    decreases s.len(),
{
    if s.len() == 0 {
        (Seq::empty(), Seq::empty())
    } else {
        let (a, b) = split_by_degree(s.drop_last(), d, cap);
        if s.last().spec_degree() == d && a.len() < cap {
            (a.push(s.last()), b)
        } else {
            (a, b.push(s.last()))
        }
    }
}

/// Selects all critical pairs of minimal lcm degree, capped by the batch size.
#[derive(Debug, Clone, Copy)]
pub struct MinDegreeSelector {
    batch_size: usize,
}

impl MinDegreeSelector {
    pub closed spec fn spec_batch_size(&self) -> usize {
        self.batch_size
    }

    /// The batch size is always positive.
    #[verifier::type_invariant]
    pub open spec fn positive_batch(&self) -> bool {
        self.spec_batch_size() > 0
    }

    /// Creates a selector with maximum batch size `batch_size`, raised to 1 when zero.
    pub fn new(batch_size: usize) -> (r: MinDegreeSelector)
        ensures
            r.spec_batch_size() == if batch_size == 0 { 1 } else { batch_size },
    {
        MinDegreeSelector { batch_size: if batch_size == 0 { 1 } else { batch_size } }
    }

    /// The maximum selected batch size.
    pub fn batch_size(&self) -> (r: usize)
        ensures
            r == self.spec_batch_size(),
    {
        self.batch_size
    }

    /// Splits `pairs` into the pairs of minimal degree (at most `batch_size` of them, in order)
    /// and the rest.
    pub fn select_min_degree(&self, pairs: Vec<CriticalPair>) -> (r: Selection)
        ensures
            pairs@.len() == 0 ==> r.selected@.len() == 0 && r.remaining@.len() == 0,
            pairs@.len() > 0 ==> (r.selected@, r.remaining@) == split_by_degree(pairs@, min_degree(pairs@), self.spec_batch_size() as nat),
    {
        if pairs.len() == 0 {
            return Selection { selected: Vec::new(), remaining: Vec::new() };
        }
        let n = pairs.len();
        let mut min = pairs[0].degree();
        let mut k: usize = 1;
        proof {
            assert(pairs@.subrange(0, 1).len() == 1);
        }
        while k < n
            invariant
                n == pairs@.len(),
                1 <= k <= n,
                min == min_degree(pairs@.subrange(0, k as int)),
            decreases n - k,
        {
            proof {
                assert(pairs@.subrange(0, k + 1).drop_last() =~= pairs@.subrange(0, k as int));
            }
            let d = pairs[k].degree();
            if d < min {
                min = d;
            }
            k += 1;
        }
        proof {
            assert(pairs@.subrange(0, n as int) =~= pairs@);
        }
        let ghost all = pairs@;
        let mut selected: Vec<CriticalPair> = Vec::new();
        let mut remaining: Vec<CriticalPair> = Vec::new();
        let mut rest = pairs;
        proof {
            assert(all.subrange(0, 0) =~= Seq::<CriticalPair>::empty());
            assert(rest@ =~= all.subrange(0, n as int));
        }
        while rest.len() > 0
            invariant
                n == all.len(),
                rest@.len() <= n,
                rest@ == all.subrange(n - rest@.len(), n as int),
                (selected@, remaining@) == split_by_degree(all.subrange(0, n - rest@.len()), min, self.spec_batch_size() as nat),
            decreases rest@.len(),
        {
            let ghost done = n - rest@.len();
            let pair = rest.remove(0);
            proof {
                assert(pair == all[done]);
                let post = all.subrange(0, done + 1);
                assert(post.drop_last() =~= all.subrange(0, done));
                assert(post.last() == pair);
                assert(rest@ =~= all.subrange(n - rest@.len(), n as int));
            }
            if pair.degree() == min && selected.len() < self.batch_size {
                selected.push(pair);
            } else {
                remaining.push(pair);
            }
        }
        proof {
            assert(all.subrange(0, n as int) =~= all);
        }
        Selection { selected, remaining }
    }
}

impl Default for MinDegreeSelector {
    fn default() -> (r: MinDegreeSelector)
        ensures
            r.spec_batch_size() == usize::MAX,
    {
        MinDegreeSelector { batch_size: usize::MAX }
    }
}

impl PairSelector for MinDegreeSelector {
    fn select(&mut self, pairs: Vec<CriticalPair>) -> (r: Selection)
        ensures
            pairs@.len() == 0 ==> r.selected@.len() == 0 && r.remaining@.len() == 0,
            pairs@.len() > 0 ==> (r.selected@, r.remaining@) == split_by_degree(pairs@, min_degree(pairs@), old(self).spec_batch_size() as nat),
            *final(self) == *old(self),
    {
        self.select_min_degree(pairs)
    }
}

/// The minimum degree is attained and is a lower bound.
pub proof fn lemma_min_degree(s: Seq<CriticalPair>)
    requires
        s.len() > 0,
    ensures
        exists|k: int| 0 <= k < s.len() && (#[trigger] s[k]).spec_degree() == min_degree(s),
        forall|k: int| 0 <= k < s.len() ==> min_degree(s) <= (#[trigger] s[k]).spec_degree(),
    decreases s.len(),
{
    if s.len() > 1 {
        let t = s.drop_last();
        lemma_min_degree(t);
        assert forall|k: int| 0 <= k < s.len() implies min_degree(s) <= (#[trigger] s[k]).spec_degree() by {
            if k < t.len() {
                assert(s[k] == t[k]);
            }
        }
        if s.last().spec_degree() < min_degree(t) {
            assert(s[s.len() - 1].spec_degree() == min_degree(s));
        } else {
            let k = choose|k: int| 0 <= k < t.len() && (#[trigger] t[k]).spec_degree() == min_degree(t);
            assert(s[k] == t[k]);
        }
    } else {
        assert(s[0].spec_degree() == min_degree(s));
    }
}

/// The split is a partition of `s` that keeps the relative order, puts at most `cap` pairs of
/// degree `d` first, and only leaves a pair of degree `d` behind once the cap is reached.
pub proof fn lemma_split_by_degree(s: Seq<CriticalPair>, d: u32, cap: nat)
    ensures
        split_by_degree(s, d, cap).0.len() + split_by_degree(s, d, cap).1.len() == s.len(),
        split_by_degree(s, d, cap).0.to_multiset().add(split_by_degree(s, d, cap).1.to_multiset()) == s.to_multiset(),
        split_by_degree(s, d, cap).0.len() <= cap,
        forall|k: int| 0 <= k < split_by_degree(s, d, cap).0.len() ==> (#[trigger] split_by_degree(s, d, cap).0[k]).spec_degree() == d,
        (exists|k: int| 0 <= k < split_by_degree(s, d, cap).1.len() && (#[trigger] split_by_degree(s, d, cap).1[k]).spec_degree() == d) ==> split_by_degree(s, d, cap).0.len() == cap,
    decreases s.len(),
{
    broadcast use vstd::seq_lib::group_to_multiset_ensures;
    if s.len() > 0 {
        let t = s.drop_last();
        lemma_split_by_degree(t, d, cap);
        let (a, b) = split_by_degree(t, d, cap);
        assert(s =~= t.push(s.last()));
        if s.last().spec_degree() == d && a.len() < cap {
            assert forall|k: int| 0 <= k < a.push(s.last()).len() implies (#[trigger] a.push(s.last())[k]).spec_degree() == d by {
                if k < a.len() {
                    assert(a.push(s.last())[k] == a[k]);
                }
            }
            assert forall|k: int| 0 <= k < b.len() && (#[trigger] b[k]).spec_degree() == d implies a.push(s.last()).len() == cap by {
            }
        } else {
            assert forall|k: int| 0 <= k < b.push(s.last()).len() && (#[trigger] b.push(s.last())[k]).spec_degree() == d implies a.len() == cap by {
                if k < b.len() {
                    assert(b.push(s.last())[k] == b[k]);
                }
            }
        }
    }
}

/// Both parts of a split of a sequence with distinct pair keys have distinct keys.
pub proof fn lemma_split_distinct(s: Seq<CriticalPair>, d: u32, cap: nat)
    requires
        distinct_keys(s),
    ensures
        distinct_keys(split_by_degree(s, d, cap).0),
        distinct_keys(split_by_degree(s, d, cap).1),
    decreases s.len(),
{
    broadcast use vstd::seq_lib::group_to_multiset_ensures;
    if s.len() > 0 {
        let t = s.drop_last();
        let x = s.last();
        assert(distinct_keys(t)) by {
            assert forall|a: int, b: int| 0 <= a < b < t.len() implies pair_key(#[trigger] t[a]) != pair_key(#[trigger] t[b]) by {
                assert(t[a] == s[a] && t[b] == s[b]);
            }
        }
        lemma_split_distinct(t, d, cap);
        lemma_split_by_degree(t, d, cap);
        let (a, b) = split_by_degree(t, d, cap);
        assert forall|y: CriticalPair| a.contains(y) || b.contains(y) implies pair_key(y) != pair_key(x) by {
            if a.contains(y) {
                assert(a.to_multiset().count(y) > 0);
            } else {
                assert(b.to_multiset().count(y) > 0);
            }
            assert(t.to_multiset().count(y) > 0);
            assert(t.contains(y));
            let i = choose|i: int| 0 <= i < t.len() && t[i] == y;
            assert(s[i] == y);
        }
        assert forall|u: Seq<CriticalPair>| distinct_keys(u) && (forall|y: CriticalPair| u.contains(y) ==> pair_key(y) != pair_key(x)) implies distinct_keys(#[trigger] u.push(x)) by {
            assert forall|i: int, j: int| 0 <= i < j < u.push(x).len() implies pair_key(#[trigger] u.push(x)[i]) != pair_key(#[trigger] u.push(x)[j]) by {
                assert(u.push(x)[i] == u[i]);
                if j < u.len() {
                    assert(u.push(x)[j] == u[j]);
                } else {
                    assert(u.contains(u[i]));
                }
            }
        }
        if x.spec_degree() == d && a.len() < cap {
            assert(distinct_keys(a.push(x)));
        } else {
            assert(distinct_keys(b.push(x)));
        }
    }
}

/// A nonempty input always yields a nonempty selection.
pub proof fn lemma_selection_progress(s: Seq<CriticalPair>, cap: nat)
    requires
        s.len() > 0,
        cap >= 1,
    ensures
        split_by_degree(s, min_degree(s), cap).0.len() > 0,
{
    lemma_min_degree(s);
    lemma_split_by_degree(s, min_degree(s), cap);
    let k = choose|k: int| 0 <= k < s.len() && (#[trigger] s[k]).spec_degree() == min_degree(s);
    let (a, b) = split_by_degree(s, min_degree(s), cap);
    if a.len() == 0 {
        broadcast use vstd::seq_lib::group_to_multiset_ensures;
        assert(s.to_multiset().count(s[k]) > 0);
        assert(a.to_multiset().count(s[k]) == 0);
        assert(b.to_multiset().count(s[k]) > 0);
        assert(b.contains(s[k]));
        let kb = choose|kb: int| 0 <= kb < b.len() && b[kb] == s[k];
        assert(b[kb].spec_degree() == min_degree(s));
    }
}

} // verus!
