//! Ordered monomial worklist used by symbolic preprocessing.

use vstd::prelude::*;

use crate::f4::symbolic::ordered::OrderedMono;
use crate::monomial::Monomial;
use crate::order::{compare, lemma_compare_equal, lemma_compare_flip, lemma_compare_trans, spec_compare, MonomialOrder, OrderRel};
use crate::polynomial::Polynomial;

verus! {

/// Ordered worklist of discovered monomials.
///
/// A monomial can be pushed many times but is handed out only once; the next monomial
/// handed out is the smallest pending one under the monomial order.
#[derive(Debug)]
pub struct MonomialWorklist<'a> {
    pending: Vec<OrderedMono<'a>>,
    seen: Vec<Monomial>,
}

/// Monomials of a list of ordered keys.
pub open spec fn key_monos(keys: Seq<OrderedMono>) -> Seq<Seq<u32>> {
    Seq::new(keys.len(), |i: int| keys[i].mono_view()@)
}

/// Monomials of the terms of a polynomial, in term order.
pub open spec fn row_monos(p: Polynomial) -> Seq<Seq<u32>> {
    Seq::new(p@.len(), |i: int| p@[i].mono@)
}

impl<'a> MonomialWorklist<'a> {
    /// The pending keys.
    pub closed spec fn keys(&self) -> Seq<OrderedMono<'a>> {
        self.pending@
    }

    /// Every monomial ever pushed, in the order of first insertion.
    pub closed spec fn seen_view(&self) -> Seq<Seq<u32>> {
        Seq::new(self.seen@.len(), |i: int| self.seen@[i]@)
    }

    /// Monomials waiting to be handed out.
    pub open spec fn pending_view(&self) -> Seq<Seq<u32>> {
        key_monos(self.keys())
    }

    /// Every pending key uses order `o` and has `n` variables.
    pub open spec fn uniform(&self, o: MonomialOrder, n: nat) -> bool {
        forall|i: int|
            0 <= i < self.keys().len() ==> (#[trigger] self.keys()[i]).order_view() == o && self.keys()[i].mono_view()@.len() == n
    }

    /// Internal consistency: seen monomials are distinct, pending ones are distinct and
    /// were all seen.
    pub closed spec fn well_formed(&self) -> bool {
        &&& self.seen@.len() <= usize::MAX
        &&& forall|i: int, j: int| 0 <= i < j < self.seen@.len() ==> (#[trigger] self.seen@[i])@ != (#[trigger] self.seen@[j])@
        &&& forall|i: int| 0 <= i < self.pending@.len() ==> self.seen_view().contains((#[trigger] self.pending@[i]).mono_view()@)
        &&& forall|i: int, j: int| 0 <= i < j < self.pending@.len() ==> (#[trigger] self.pending@[i]).mono_view()@ != (#[trigger] self.pending@[j]).mono_view()@
    }

    /// Facts that hold of a well-formed worklist.
    pub proof fn lemma_well_formed(&self)
        requires
            self.well_formed(),
        ensures
            self.seen_view().len() <= usize::MAX,
            self.seen_view().no_duplicates(),
            self.pending_view().no_duplicates(),
            forall|i: int| 0 <= i < self.pending_view().len() ==> self.seen_view().contains(#[trigger] self.pending_view()[i]),
    {
        assert forall|i: int| 0 <= i < self.pending_view().len() implies self.seen_view().contains(#[trigger] self.pending_view()[i]) by {
            assert(self.pending_view()[i] == self.pending@[i].mono_view()@);
        }
        assert forall|i: int, j: int| 0 <= i < self.seen_view().len() && 0 <= j < self.seen_view().len() && i != j implies self.seen_view()[i] != self.seen_view()[j] by {
            if i < j {
                assert(self.seen@[i]@ != self.seen@[j]@);
            } else {
                assert(self.seen@[j]@ != self.seen@[i]@);
            }
        }
        assert forall|i: int, j: int| 0 <= i < self.pending_view().len() && 0 <= j < self.pending_view().len() && i != j implies self.pending_view()[i] != self.pending_view()[j] by {
            if i < j {
                assert(self.pending@[i].mono_view()@ != self.pending@[j].mono_view()@);
            } else {
                assert(self.pending@[j].mono_view()@ != self.pending@[i].mono_view()@);
            }
        }
    }

    /// Creates an empty worklist.
    pub fn new() -> (r: MonomialWorklist<'a>)
        ensures
            r.keys().len() == 0,
            r.seen_view().len() == 0,
            r.well_formed(),
    {
        MonomialWorklist { pending: Vec::new(), seen: Vec::new() }
    }

    /// Whether no monomial is pending.
    pub fn is_empty(&self) -> (b: bool)
        ensures
            b == (self.keys().len() == 0),
    {
        self.pending.len() == 0
    }

    /// Number of pending monomials.
    pub fn len(&self) -> (n: usize)
        ensures
            n == self.keys().len(),
    {
        self.pending.len()
    }

    fn seen_contains(&self, mono: &Monomial) -> (b: bool)
        requires
            self.well_formed(),
        ensures
            b == self.seen_view().contains(mono@),
    {
        let mut i: usize = 0;
        while i < self.seen.len()
            invariant
                i <= self.seen@.len(),
                forall|k: int| 0 <= k < i ==> self.seen@[k]@ != mono@,
            decreases self.seen@.len() - i,
        {
            if self.seen[i].same(mono) {
                assert(self.seen_view()[i as int] == mono@);
                return true;
            }
            i += 1;
        }
        assert forall|k: int| 0 <= k < self.seen_view().len() implies self.seen_view()[k] != mono@ by {
            assert(self.seen_view()[k] == self.seen@[k]@);
        }
        false
    }

    /// Inserts a monomial unless it was pushed before.
    pub fn push(&mut self, mono: Monomial, order: &'a MonomialOrder)
        requires
            old(self).well_formed(),
            old(self).uniform(*order, mono@.len()),
        ensures
            final(self).well_formed(),
            final(self).uniform(*order, mono@.len()),
            old(self).seen_view().contains(mono@) ==> final(self).keys() == old(self).keys() && final(self).seen_view() == old(self).seen_view(),
            !old(self).seen_view().contains(mono@) ==> final(self).pending_view() == old(self).pending_view().push(mono@)
                && final(self).seen_view() == old(self).seen_view().push(mono@)
                && final(self).keys().last().order_view() == *order
                && final(self).keys().drop_last() == old(self).keys(),
    {
        if self.seen_contains(&mono) {
            return;
        }
        let ghost old_seen = self.seen_view();
        let ghost old_keys = self.pending@;
        let key = OrderedMono::new(mono.duplicate(), order);
        self.seen.push(mono);
        self.pending.push(key);
        let n = self.seen.len();
        proof {
            let sv = self.seen_view();
            assert(sv =~= old_seen.push(mono@));
            assert forall|i: int, j: int| 0 <= i < j < self.seen@.len() implies (#[trigger] self.seen@[i])@ != (#[trigger] self.seen@[j])@ by {
                if j < self.seen@.len() - 1 {
                    assert(old_seen[i] == self.seen@[i]@ && old_seen[j] == self.seen@[j]@);
                } else {
                    assert(old_seen[i] == self.seen@[i]@);
                }
            }
            assert forall|i: int| 0 <= i < self.pending@.len() implies sv.contains((#[trigger] self.pending@[i]).mono_view()@) by {
                if i < self.pending@.len() - 1 {
                    assert(old_keys[i] == self.pending@[i]);
                    let k = choose|k: int| 0 <= k < old_seen.len() && old_seen[k] == old_keys[i].mono_view()@;
                    assert(sv[k] == old_seen[k]);
                } else {
                    assert(sv[sv.len() - 1] == mono@);
                }
            }
            assert forall|i: int, j: int| 0 <= i < j < self.pending@.len() implies (#[trigger] self.pending@[i]).mono_view()@ != (#[trigger] self.pending@[j]).mono_view()@ by {
                if j == self.pending@.len() - 1 {
                    assert(old_keys[i] == self.pending@[i]);
                    assert(old_seen.contains(old_keys[i].mono_view()@));
                } else {
                    assert(old_keys[i] == self.pending@[i] && old_keys[j] == self.pending@[j]);
                }
            }
            assert(self.pending_view() =~= key_monos(old_keys).push(mono@));
            assert(self.keys().drop_last() =~= old_keys);
        }
    }

    /// Pushes every monomial of `row`, in term order.
    pub fn extend_from_row(&mut self, row: &Polynomial, order: &'a MonomialOrder)
        requires
            old(self).well_formed(),
            exists|n: nat| old(self).uniform(*order, n) && forall|i: int| 0 <= i < row@.len() ==> (#[trigger] row@[i]).mono@.len() == n,
        ensures
            final(self).well_formed(),
            forall|n: nat| old(self).uniform(*order, n) && (forall|i: int| 0 <= i < row@.len() ==> (#[trigger] row@[i]).mono@.len() == n) ==> final(self).uniform(*order, n),
            final(self).seen_view().to_set() == old(self).seen_view().to_set() + row_monos(*row).to_set(),
            final(self).pending_view().to_set() == old(self).pending_view().to_set() + row_monos(*row).to_set().difference(old(self).seen_view().to_set()),
            old(self).seen_view().len() <= final(self).seen_view().len(),
            final(self).pending_view().len() - old(self).pending_view().len() == final(self).seen_view().len() - old(self).seen_view().len(),
            final(self).keys().subrange(0, old(self).keys().len() as int) == old(self).keys(),
    {
        let ghost n = choose|n: nat| self.uniform(*order, n) && forall|i: int| 0 <= i < row@.len() ==> (#[trigger] row@[i]).mono@.len() == n;
        let ghost keys0 = self.keys();
        let ghost seen0 = self.seen_view();
        let ghost pend0 = self.pending_view();
        let terms = row.terms();
        let mut i: usize = 0;
        while i < terms.len()
            invariant
                terms@ == row@,
                i <= terms@.len(),
                forall|k: int| 0 <= k < row@.len() ==> (#[trigger] row@[k]).mono@.len() == n,
                self.well_formed(),
                self.uniform(*order, n),
                self.seen_view().to_set() == seen0.to_set() + row_monos(*row).subrange(0, i as int).to_set(),
                self.pending_view().to_set() == pend0.to_set() + row_monos(*row).subrange(0, i as int).to_set().difference(seen0.to_set()),
                seen0.len() <= self.seen_view().len(),
                self.pending_view().len() - pend0.len() == self.seen_view().len() - seen0.len(),
                keys0.len() <= self.keys().len(),
                self.keys().len() <= keys0.len() + i,
                self.keys().subrange(0, keys0.len() as int) == keys0,
            decreases terms@.len() - i,
        {
            let ghost before_seen = self.seen_view();
            let ghost before_pend = self.pending_view();
            let ghost before_keys = self.keys();
            let m = terms[i].mono.duplicate();
            let ghost mv = m@;
            self.push(m, order);
            proof {
                if !before_seen.contains(mv) {
                    assert(before_keys.len() == before_pend.len());
                    assert(self.keys().len() == self.pending_view().len());
                    assert(self.keys().len() == before_keys.len() + 1);
                    assert(keys0.len() <= before_keys.len());
                    assert(self.keys().drop_last() == before_keys);
                    assert forall|x: int| 0 <= x < keys0.len() implies self.keys().subrange(0, keys0.len() as int)[x] == keys0[x] by {
                        assert(self.keys().drop_last()[x] == self.keys()[x]);
                        assert(before_keys.subrange(0, keys0.len() as int)[x] == before_keys[x]);
                    }
                    assert(self.keys().subrange(0, keys0.len() as int) =~= keys0);
                }
                let prefix = row_monos(*row).subrange(0, i as int);
                let next = row_monos(*row).subrange(0, i + 1);
                assert(next =~= prefix.push(mv));
                prefix.lemma_push_to_set_commute(mv);
                assert(next.to_set() == prefix.to_set().insert(mv));
                if before_seen.contains(mv) {
                    assert(before_seen.to_set().contains(mv));
                    assert(self.seen_view().to_set() =~= seen0.to_set() + next.to_set());
                    assert(self.pending_view().to_set() =~= pend0.to_set() + next.to_set().difference(seen0.to_set())) by {
                        assert forall|x: Seq<u32>| #[trigger] next.to_set().difference(seen0.to_set()).contains(x) implies prefix.to_set().difference(seen0.to_set()).contains(x) by {
                            if x == mv && !prefix.to_set().contains(x) {
                                assert(seen0.to_set().contains(x));
                            }
                        }
                    }
                } else {
                    before_seen.lemma_push_to_set_commute(mv);
                    before_pend.lemma_push_to_set_commute(mv);
                    assert(!before_seen.to_set().contains(mv));
                    assert(!(seen0.to_set() + prefix.to_set()).contains(mv));
                    assert(!seen0.to_set().contains(mv));
                    assert(self.seen_view().to_set() =~= seen0.to_set() + next.to_set());
                    assert(self.pending_view().to_set() =~= pend0.to_set() + next.to_set().difference(seen0.to_set()));
                }
            }
            i += 1;
        }
        proof {
            assert(row_monos(*row).subrange(0, row@.len() as int) =~= row_monos(*row));
            assert forall|n2: nat| old(self).uniform(*order, n2) && (forall|i: int| 0 <= i < row@.len() ==> (#[trigger] row@[i]).mono@.len() == n2) implies self.uniform(*order, n2) by {
                if keys0.len() > 0 {
                    assert(keys0[0].mono_view()@.len() == n && keys0[0].mono_view()@.len() == n2);
                } else if row@.len() > 0 {
                    assert(row@[0].mono@.len() == n);
                }
            }
        }
    }

    /// Removes and returns the smallest pending monomial.
    pub fn pop_next(&mut self) -> (r: Option<OrderedMono<'a>>)
        requires
            old(self).well_formed(),
            exists|o: MonomialOrder, n: nat| old(self).uniform(o, n),
        ensures
            final(self).well_formed(),
            final(self).seen_view() == old(self).seen_view(),
            forall|o: MonomialOrder, n: nat| old(self).uniform(o, n) ==> final(self).uniform(o, n),
            old(self).keys().len() == 0 ==> r is None && final(self).keys() == old(self).keys(),
            old(self).keys().len() > 0 ==> (r matches Some(k) && exists|idx: int|
                0 <= idx < old(self).keys().len() && old(self).keys()[idx] == k && final(self).keys() == old(self).keys().remove(idx)
                    && forall|j: int| 0 <= j < old(self).keys().len() ==> spec_compare(k.order_view(), k.mono_view()@, (#[trigger] old(self).keys()[j]).mono_view()@) != OrderRel::Greater),
    {
        if self.pending.len() == 0 {
            return None;
        }
        let ghost o = choose|o: MonomialOrder, n: nat| self.uniform(o, n);
        let ghost keys0 = self.pending@;
        let mut best: usize = 0;
        let mut j: usize = 1;
        proof {
            lemma_compare_equal(o.0, keys0[0].mono_view()@, keys0[0].mono_view()@);
        }
        while j < self.pending.len()
            invariant
                self.pending@ == keys0,
                exists|n: nat| self.uniform(o.0, n),
                0 <= best < j <= keys0.len(),
                forall|k: int| 0 <= k < j ==> spec_compare(o.0, keys0[best as int].mono_view()@, (#[trigger] keys0[k]).mono_view()@) != OrderRel::Greater,
            decreases keys0.len() - j,
        {
            let ghost n = choose|n: nat| self.uniform(o.0, n);
            assert(keys0[j as int].mono_view()@.len() == n && keys0[best as int].mono_view()@.len() == n);
            let c = compare(self.pending[best].order(), self.pending[best].as_ref(), self.pending[j].as_ref());
            if c == OrderRel::Greater {
                proof {
                    assert forall|k: int| 0 <= k < j + 1 implies spec_compare(o.0, keys0[j as int].mono_view()@, (#[trigger] keys0[k]).mono_view()@) != OrderRel::Greater by {
                        let a = keys0[j as int].mono_view()@;
                        let b = keys0[best as int].mono_view()@;
                        let c2 = keys0[k].mono_view()@;
                        assert(c2.len() == n);
                        lemma_compare_flip(o.0, b, a);
                        if k < j {
                            lemma_compare_flip(o.0, b, c2);
                            if spec_compare(o.0, a, c2) == OrderRel::Greater {
                                if spec_compare(o.0, b, c2) == OrderRel::Equal {
                                    lemma_compare_equal(o.0, b, c2);
                                } else {
                                    lemma_compare_trans(o.0, b, a, c2);
                                }
                            }
                        } else {
                            lemma_compare_equal(o.0, a, a);
                        }
                    }
                }
                best = j;
            }
            j += 1;
        }
        let k = self.pending.remove(best);
        proof {
            assert forall|i: int| 0 <= i < self.pending@.len() implies self.seen_view().contains((#[trigger] self.pending@[i]).mono_view()@) by {
                if i < best {
                    assert(self.pending@[i] == keys0[i]);
                } else {
                    assert(self.pending@[i] == keys0[i + 1]);
                }
            }
            assert forall|a: int, b: int| 0 <= a < b < self.pending@.len() implies (#[trigger] self.pending@[a]).mono_view()@ != (#[trigger] self.pending@[b]).mono_view()@ by {
                let a0 = if a < best { a } else { a + 1 };
                let b0 = if b < best { b } else { b + 1 };
                assert(self.pending@[a] == keys0[a0] && self.pending@[b] == keys0[b0]);
            }
            assert(self.keys() =~= keys0.remove(best as int));
            assert forall|o2: MonomialOrder, n2: nat| old(self).uniform(o2, n2) implies self.uniform(o2, n2) by {
                assert forall|i: int| 0 <= i < self.keys().len() implies (#[trigger] self.keys()[i]).order_view() == o2 && self.keys()[i].mono_view()@.len() == n2 by {
                    if i < best {
                        assert(self.keys()[i] == keys0[i]);
                    } else {
                        assert(self.keys()[i] == keys0[i + 1]);
                    }
                }
            }
            assert(k.order_view() == o.0);
        }
        Some(k)
    }
}

impl<'a> Default for MonomialWorklist<'a> {
    fn default() -> (r: MonomialWorklist<'a>)
        ensures
            r.keys().len() == 0,
            r.seen_view().len() == 0,
            r.well_formed(),
    {
        MonomialWorklist::new()
    }
}

/// One call of [`MonomialWorklist::pop_next`] that returned `k`: it took a key no greater
/// than any pending key out of `before`, leaving `after`.
pub open spec fn popped_min<'a>(before: Seq<OrderedMono<'a>>, k: OrderedMono<'a>, after: Seq<OrderedMono<'a>>) -> bool {
    &&& exists|idx: int| 0 <= idx < before.len() && before[idx] == k && after == before.remove(idx)
    &&& forall|j: int| 0 <= j < before.len() ==> spec_compare(k.order_view(), k.mono_view()@, (#[trigger] before[j]).mono_view()@) != OrderRel::Greater
}

/// Popping without pushing in between yields the keys in increasing order: no key popped
/// earlier is greater than one popped later.
pub proof fn lemma_pops_ordered<'a>(states: Seq<Seq<OrderedMono<'a>>>, popped: Seq<OrderedMono<'a>>)
    requires
        states.len() == popped.len() + 1,
        forall|i: int| 0 <= i < popped.len() ==> popped_min(states[i], #[trigger] popped[i], states[i + 1]),
    ensures
        forall|i: int, j: int| 0 <= i < j < popped.len() ==> spec_compare(
            (#[trigger] popped[i]).order_view(),
            popped[i].mono_view()@,
            (#[trigger] popped[j]).mono_view()@,
        ) != OrderRel::Greater,
{
    assert forall|i: int, j: int| 0 <= i < j < popped.len() implies spec_compare(
        (#[trigger] popped[i]).order_view(),
        popped[i].mono_view()@,
        (#[trigger] popped[j]).mono_view()@,
    ) != OrderRel::Greater by {
        lemma_later_keys_kept(states, popped, i, j);
        assert(popped_min(states[j], popped[j], states[j + 1]));
                assert(states[j].contains(popped[j]));
        let cur = states[i];
        let w = choose|w: int| 0 <= w < cur.len() && #[trigger] cur[w] == popped[j];
        assert(popped_min(states[i], popped[i], states[i + 1]));
        assert(spec_compare(popped[i].order_view(), popped[i].mono_view()@, states[i][w].mono_view()@) != OrderRel::Greater);
    }
}

/// Every key still pending after more pops was pending before them.
proof fn lemma_later_keys_kept<'a>(states: Seq<Seq<OrderedMono<'a>>>, popped: Seq<OrderedMono<'a>>, i: int, j: int)
    requires
        states.len() == popped.len() + 1,
        forall|x: int| 0 <= x < popped.len() ==> popped_min(states[x], #[trigger] popped[x], states[x + 1]),
        0 <= i <= j < states.len(),
    ensures
        forall|key: OrderedMono<'a>| states[j].contains(key) ==> states[i].contains(key),
    decreases j - i,
{
    if i < j {
        lemma_later_keys_kept(states, popped, i + 1, j);
        assert(popped_min(states[i], popped[i], states[i + 1]));
        let idx = choose|idx: int| 0 <= idx < states[i].len() && states[i][idx] == popped[i] && states[i + 1] == states[i].remove(idx);
        assert forall|key: OrderedMono<'a>| states[i + 1].contains(key) implies states[i].contains(key) by {
            let nxt = states[i + 1];
            let w = choose|w: int| 0 <= w < nxt.len() && #[trigger] nxt[w] == key;
            if w < idx {
                assert(states[i][w] == key);
            } else {
                assert(states[i][w + 1] == key);
            }
        }
    }
}

/// One worklist call: `Some(m)` is a push of `m`, `None` a pop that returned `k`; the views
/// change as the contracts of [`MonomialWorklist::push`] and
/// [`MonomialWorklist::pop_next`] say.
pub open spec fn worklist_step<'a>(before: MonomialWorklist<'a>, op: Option<Seq<u32>>, k: OrderedMono<'a>, after: MonomialWorklist<'a>) -> bool {
    match op {
        Some(m) => {
            &&& before.seen_view().contains(m) ==> after.keys() == before.keys() && after.seen_view() == before.seen_view()
            &&& !before.seen_view().contains(m) ==> after.pending_view() == before.pending_view().push(m) && after.seen_view() == before.seen_view().push(m)
        },
        None => {
            &&& after.seen_view() == before.seen_view()
            &&& exists|idx: int| 0 <= idx < before.keys().len() && before.keys()[idx] == k && after.keys() == before.keys().remove(idx)
        },
    }
}

/// A popped monomial is never handed out again, even when it is pushed again: along any
/// run of pushes and pops, two pops return different monomials.
pub proof fn lemma_popped_not_again<'a>(w: Seq<MonomialWorklist<'a>>, ops: Seq<Option<Seq<u32>>>, out: Seq<OrderedMono<'a>>, i: int, j: int)
    requires
        w.len() == ops.len() + 1,
        out.len() == ops.len(),
        forall|t: int| 0 <= t < w.len() ==> (#[trigger] w[t]).well_formed(),
        forall|t: int| 0 <= t < ops.len() ==> #[trigger] worklist_step(w[t], ops[t], out[t], w[t + 1]),
        0 <= i < j < ops.len(),
        ops[i] is None,
        ops[j] is None,
    ensures
        out[i].mono_view()@ != out[j].mono_view()@,
{
    let x = out[i].mono_view()@;
    lemma_popped_gone(w, ops, out, i, j);
    assert(worklist_step(w[j], ops[j], out[j], w[j + 1]));
    let idx = choose|idx: int| 0 <= idx < w[j].keys().len() && w[j].keys()[idx] == out[j] && w[j + 1].keys() == w[j].keys().remove(idx);
    assert(w[j].pending_view()[idx] == out[j].mono_view()@);
}

/// After it is popped, a monomial stays seen and is no longer pending.
proof fn lemma_popped_gone<'a>(w: Seq<MonomialWorklist<'a>>, ops: Seq<Option<Seq<u32>>>, out: Seq<OrderedMono<'a>>, i: int, t: int)
    requires
        w.len() == ops.len() + 1,
        out.len() == ops.len(),
        forall|u: int| 0 <= u < w.len() ==> (#[trigger] w[u]).well_formed(),
        forall|u: int| 0 <= u < ops.len() ==> #[trigger] worklist_step(w[u], ops[u], out[u], w[u + 1]),
        0 <= i < t < w.len(),
        ops[i] is None,
    ensures
        w[t].seen_view().contains(out[i].mono_view()@),
        !w[t].pending_view().contains(out[i].mono_view()@),
    decreases t - i,
{
    let x = out[i].mono_view()@;
    if t == i + 1 {
        let b = w[i];
        assert(worklist_step(b, ops[i], out[i], w[i + 1]));
        let idx = choose|idx: int| 0 <= idx < b.keys().len() && b.keys()[idx] == out[i] && w[i + 1].keys() == b.keys().remove(idx);
        b.lemma_well_formed();
        assert(b.pending_view()[idx] == x);
        assert(w[i + 1].pending_view() =~= b.pending_view().remove(idx));
        if w[i + 1].pending_view().contains(x) {
            let pv = w[i + 1].pending_view();
            let q = choose|q: int| 0 <= q < pv.len() && #[trigger] pv[q] == x;
            if q < idx {
                assert(b.pending_view()[q] == x);
            } else {
                assert(b.pending_view()[q + 1] == x);
            }
        }
    } else {
        lemma_popped_gone(w, ops, out, i, t - 1);
        let u = t - 1;
        let b = w[u];
        assert(worklist_step(w[u], ops[u], out[u], w[u + 1]));
        assert(w[u + 1] == w[t]);
        match ops[t - 1] {
            Some(m) => {
                if !b.seen_view().contains(m) {
                    assert(w[t].seen_view().contains(x)) by {
                        let sv = b.seen_view();
                        let q = choose|q: int| 0 <= q < sv.len() && #[trigger] sv[q] == x;
                        assert(w[t].seen_view()[q] == x);
                    }
                    if w[t].pending_view().contains(x) {
                        let pv = w[t].pending_view();
                        let q = choose|q: int| 0 <= q < pv.len() && #[trigger] pv[q] == x;
                        if q < b.pending_view().len() {
                            assert(b.pending_view()[q] == x);
                        }
                    }
                }
            },
            None => {
                let idx = choose|idx: int| 0 <= idx < b.keys().len() && b.keys()[idx] == out[t - 1] && w[t].keys() == b.keys().remove(idx);
                assert(w[t].pending_view() =~= b.pending_view().remove(idx));
                if w[t].pending_view().contains(x) {
                    let pv = w[t].pending_view();
                    let q = choose|q: int| 0 <= q < pv.len() && #[trigger] pv[q] == x;
                    if q < idx {
                        assert(b.pending_view()[q] == x);
                    } else {
                        assert(b.pending_view()[q + 1] == x);
                    }
                }
            },
        }
    }
}

} // verus!
