//! Lookup structure for the F4 `Simplify` step.

use vstd::prelude::*;

use crate::f4::error::F4Error;
use crate::f4::state::BatchHistory;
use crate::f4::symbolic::types::{source_rank, ProductSource, UnevaluatedProduct};
use crate::f4::types::{is_nonzero, lm};
use crate::monomial::{checked_div_exact, divides, spec_divides, spec_one, spec_quotient, Monomial};
use crate::polynomial::Polynomial;
use crate::ring::RingCtx;

verus! {

/// One rewrite rule: a product `divisor * source` of an earlier batch whose symbolic row
/// reduced to the history row `target`.
#[derive(Debug, Clone)]
pub struct SimplifyRule {
    /// Source of the historical product.
    pub source: ProductSource,
    /// Multiplier of the historical product.
    pub divisor: Monomial,
    /// The reduced history row with the same head.
    pub target: ProductSource,
}

impl View for SimplifyRule {
    type V = (ProductSource, Seq<u32>, ProductSource);

    open spec fn view(&self) -> (ProductSource, Seq<u32>, ProductSource) {
        (self.source, self.divisor@, self.target)
    }
}

/// Views of a list of rules.
pub open spec fn rule_views(rules: Seq<SimplifyRule>) -> Seq<(ProductSource, Seq<u32>, ProductSource)> {
    Seq::new(rules.len(), |i: int| rules[i]@)
}

/// Every rule leads to a row created after its source: rewriting cannot cycle.
pub open spec fn rules_acyclic(rules: Seq<(ProductSource, Seq<u32>, ProductSource)>) -> bool {
    forall|i: int| 0 <= i < rules.len() ==> source_rank((#[trigger] rules[i]).0) < source_rank(rules[i].2)
}

/// Index of the last rule for the same source and exactly the same multiplier, or `-1`.
pub open spec fn last_exact(rules: Seq<(ProductSource, Seq<u32>, ProductSource)>, p: (ProductSource, Seq<u32>)) -> int
    decreases rules.len(),
{
    if rules.len() == 0 {
        -1
    } else if rules.last().0 == p.0 && rules.last().1 == p.1 {
        rules.len() - 1
    } else {
        last_exact(rules.drop_last(), p)
    }
}

/// The rule is for the product's source, with a multiplier that properly divides the
/// product's multiplier.
pub open spec fn divisor_match(rule: (ProductSource, Seq<u32>, ProductSource), p: (ProductSource, Seq<u32>)) -> bool {
    rule.0 == p.0 && rule.1 != p.1 && spec_divides(rule.1, p.1)
}

/// Among the first `n` rules, the divisor rule to use, or `-1`: the rules of the newest
/// batch are tried first, and within a batch the rule recorded first wins.
pub open spec fn newest_divisor(rules: Seq<(ProductSource, Seq<u32>, ProductSource)>, p: (ProductSource, Seq<u32>), n: int) -> int
    decreases n,
{
    if n <= 0 {
        -1
    } else {
        let b = newest_divisor(rules, p, n - 1);
        if divisor_match(rules[n - 1], p) && (b < 0 || source_rank(rules[b].2) < source_rank(rules[n - 1].2)) {
            n - 1
        } else {
            b
        }
    }
}

/// One rewrite step: the newest exact rule turns `t * f` into `1 * p`; otherwise a divisor
/// rule `u * f` of the newest batch that has one turns it into `(t / u) * p`.
pub open spec fn rewrite_step(rules: Seq<(ProductSource, Seq<u32>, ProductSource)>, nvars: nat, p: (ProductSource, Seq<u32>)) -> Option<(ProductSource, Seq<u32>)> {
    let e = last_exact(rules, p);
    if e >= 0 {
        Some((rules[e].2, spec_one(nvars)))
    } else {
        let d = newest_divisor(rules, p, rules.len() as int);
        if d >= 0 {
            Some((rules[d].2, spec_quotient(rules[d].1, p.1)))
        } else {
            None
        }
    }
}

/// The product reached by rewriting `p` until no rule applies.
pub open spec fn simplified(rules: Seq<(ProductSource, Seq<u32>, ProductSource)>, nvars: nat, p: (ProductSource, Seq<u32>)) -> (ProductSource, Seq<u32>)
    decreases usize::MAX + 1 - source_rank(p.0),
{
    match rewrite_step(rules, nvars, p) {
        Some(n) => if n != p && source_rank(p.0) < source_rank(n.0) && source_rank(n.0) <= usize::MAX + 1 {
            simplified(rules, nvars, n)
        } else {
            p
        },
        None => p,
    }
}

/// Index of the first nonzero row, at or after `k`, whose leading monomial is `h`, or `-1`.
pub open spec fn first_row_with_head(rows: Seq<Polynomial>, h: Seq<u32>, k: int) -> int
    decreases rows.len() - k,
{
    if k < 0 || k >= rows.len() {
        -1
    } else if is_nonzero(rows[k]) && lm(rows[k]) == h {
        k
    } else {
        first_row_with_head(rows, h, k + 1)
    }
}

/// The rule recorded for one historical product of batch `batch_index`, if any: the product
/// must come from an earlier batch or the basis, and a reduced row must share its head.
pub open spec fn rule_for(batch_index: usize, product: UnevaluatedProduct, head: Seq<u32>, rows: Seq<Polynomial>) -> Option<(ProductSource, Seq<u32>, ProductSource)> {
    let r = first_row_with_head(rows, head, 0);
    if r >= 0 && source_rank(product.source) <= batch_index {
        Some((product.source, product.multiplier@, ProductSource::HistoryReducedRow { batch_index, row_index: r as usize }))
    } else {
        None
    }
}

/// Rules recorded for the first `n` aligned products and heads of a batch.
pub open spec fn batch_rules(batch_index: usize, batch: BatchHistory<Polynomial>, n: nat) -> Seq<(ProductSource, Seq<u32>, ProductSource)>
    decreases n,
{
    if n == 0 {
        Seq::empty()
    } else {
        let prev = batch_rules(batch_index, batch, (n - 1) as nat);
        match rule_for(batch_index, batch.f_j_products@[n - 1], batch.f_j_heads@[n - 1]@, batch.f_j_tilde@) {
            Some(rule) => prev.push(rule),
            None => prev,
        }
    }
}

/// The batch has one head per product.
pub open spec fn aligned(batch: BatchHistory<Polynomial>) -> bool {
    batch.f_j_products@.len() == batch.f_j_heads@.len()
}

/// Number of aligned product/head pairs of a batch.
pub open spec fn aligned_len(batch: BatchHistory<Polynomial>) -> nat {
    if batch.f_j_products@.len() < batch.f_j_heads@.len() {
        batch.f_j_products@.len()
    } else {
        batch.f_j_heads@.len()
    }
}

/// Rules recorded for the first `n` batches of a history, oldest first.
pub open spec fn history_rules(history: Seq<BatchHistory<Polynomial>>, n: nat) -> Seq<(ProductSource, Seq<u32>, ProductSource)>
    decreases n,
{
    if n == 0 {
        Seq::empty()
    } else {
        history_rules(history, (n - 1) as nat) + batch_rules((n - 1) as usize, history[n - 1], aligned_len(history[n - 1]))
    }
}

/// Rewrite rules learned from previous batches.
///
/// `Simplify(t, f)` searches earlier batches for a product `u * f` with `u | t` and
/// rewrites `t * f` into `(t / u) * p`, where `p` is the reduced row that shares the head
/// of `u * f`.
#[derive(Debug)]
pub struct SimplifyIndex {
    rules: Vec<SimplifyRule>,
}

impl SimplifyIndex {
    /// The rules, in insertion order.
    pub closed spec fn rules_view(&self) -> Seq<(ProductSource, Seq<u32>, ProductSource)> {
        rule_views(self.rules@)
    }

    #[verifier::type_invariant]
    spec fn inv(&self) -> bool {
        rules_acyclic(rule_views(self.rules@))
    }

    /// Creates an index with no rule.
    pub fn new() -> (r: SimplifyIndex)
        ensures
            r.rules_view() == Seq::<(ProductSource, Seq<u32>, ProductSource)>::empty(),
    {
        let rules: Vec<SimplifyRule> = Vec::new();
        assert(rule_views(rules@) =~= Seq::<(ProductSource, Seq<u32>, ProductSource)>::empty());
        SimplifyIndex { rules }
    }

    /// Index of the first nonzero row with leading monomial `head`.
    fn find_reduced_row(rows: &Vec<Polynomial>, head: &Monomial) -> (r: Option<usize>)
        ensures
            r is None ==> first_row_with_head(rows@, head@, 0) == -1,
            r matches Some(k) ==> first_row_with_head(rows@, head@, 0) == k,
    {
        let mut k: usize = 0;
        while k < rows.len()
            invariant
                k <= rows@.len(),
                first_row_with_head(rows@, head@, 0) == first_row_with_head(rows@, head@, k as int),
            decreases rows@.len() - k,
        {
            match rows[k].leading_mono() {
                Some(m) => {
                    if m.same(head) {
                        return Some(k);
                    }
                },
                None => {},
            }
            k += 1;
        }
        None
    }

    /// Records the rules of batch `batch_index`: each product whose head is the head of a
    /// reduced row of the batch becomes a rule towards the first such row.
    ///
    /// A product whose source is a row of this batch or of a later one cannot come from
    /// simplification against earlier batches; it is not recorded, which keeps rewriting
    /// acyclic.
    pub fn extend_with_batch(&mut self, batch_index: usize, batch: &BatchHistory<Polynomial>)
        requires
            aligned(*batch),
        ensures
            final(self).rules_view() == old(self).rules_view() + batch_rules(batch_index, *batch, aligned_len(*batch)),
    {
        let n = if batch.f_j_products.len() < batch.f_j_heads.len() {
            batch.f_j_products.len()
        } else {
            batch.f_j_heads.len()
        };
        let ghost start = self.rules_view();
        let mut i: usize = 0;
        while i < n
            invariant
                n == aligned_len(*batch),
                i <= n,
                self.rules_view() == start + batch_rules(batch_index, *batch, i as nat),
            decreases n - i,
        {
            let product = &batch.f_j_products[i];
            let head = &batch.f_j_heads[i];
            let causal = match product.source {
                ProductSource::Basis(_) => true,
                ProductSource::HistoryReducedRow { batch_index: b, .. } => b < batch_index,
            };
            if causal {
                match Self::find_reduced_row(&batch.f_j_tilde, head) {
                    Some(row_index) => {
                        let rule = SimplifyRule {
                            source: product.source,
                            divisor: product.multiplier.duplicate(),
                            target: ProductSource::HistoryReducedRow { batch_index, row_index },
                        };
                        let ghost before = self.rules@;
                        proof {
                            use_type_invariant(&*self);
                        }
                        let mut rules = Vec::new();
                        std::mem::swap(&mut rules, &mut self.rules);
                        rules.push(rule);
                        proof {
                            assert(rule_views(rules@) =~= rule_views(before).push(rule@));
                            assert(source_rank(rule.source) < source_rank(rule.target));
                            assert forall|x: int| 0 <= x < rule_views(rules@).len() implies source_rank((#[trigger] rule_views(rules@)[x]).0) < source_rank(rule_views(rules@)[x].2) by {
                                if x < before.len() {
                                    assert(rule_views(rules@)[x] == rule_views(before)[x]);
                                }
                            }
                        }
                        self.rules = rules;
                    },
                    None => {},
                }
            }
            i += 1;
            proof {
                assert(self.rules_view() =~= start + batch_rules(batch_index, *batch, i as nat));
            }
        }
    }

    /// Builds the index of a whole history. Rules are stored oldest batch first; a lookup
    /// takes the newest exact rule, and tries the divisor rules of newer batches first.
    pub fn compile(history: &[BatchHistory<Polynomial>]) -> (r: SimplifyIndex)
        requires
            forall|b: int| 0 <= b < history@.len() ==> aligned(#[trigger] history@[b]),
        ensures
            r.rules_view() == history_rules(history@, history@.len()),
    {
        let mut index = SimplifyIndex::new();
        let mut b: usize = 0;
        while b < history.len()
            invariant
                b <= history@.len(),
                index.rules_view() == history_rules(history@, b as nat),
                forall|k: int| 0 <= k < history@.len() ==> aligned(#[trigger] history@[k]),
            decreases history@.len() - b,
        {
            index.extend_with_batch(b, &history[b]);
            b += 1;
        }
        index
    }

    /// The rank of a rule target: 0 for the basis, one more than the batch for a history row.
    fn target_rank(t: &ProductSource) -> (r: u128)
        ensures
            r == source_rank(*t),
    {
        match t {
            ProductSource::Basis(_) => 0,
            ProductSource::HistoryReducedRow { batch_index, .. } => *batch_index as u128 + 1,
        }
    }

    /// One rewrite step for `product`, if a rule applies.
    fn find_rewrite(&self, ctx: &RingCtx, product: &UnevaluatedProduct) -> (r: Result<Option<UnevaluatedProduct>, F4Error>)
        ensures
            r is Ok,
            r matches Ok(None) ==> rewrite_step(self.rules_view(), ctx.nvars as nat, product@) is None,
            r matches Ok(Some(q)) ==> rewrite_step(self.rules_view(), ctx.nvars as nat, product@) == Some(q@),
    {
        let ghost rv = self.rules_view();
        let mut k: usize = self.rules.len();
        assert(rv.subrange(0, k as int) =~= rv);
        while k > 0
            invariant
                k <= self.rules@.len(),
                rv == rule_views(self.rules@),
                last_exact(rv, product@) == last_exact(rv.subrange(0, k as int), product@),
            decreases k,
        {
            let rule = &self.rules[k - 1];
            proof {
                assert(rv.subrange(0, k as int).last() == rule@);
                assert(rv.subrange(0, k as int).drop_last() =~= rv.subrange(0, k - 1));
            }
            if rule.source == product.source && rule.divisor.same(&product.multiplier) {
                return Ok(Some(UnevaluatedProduct { source: rule.target, multiplier: Monomial::one(ctx.nvars) }));
            }
            k -= 1;
        }
        proof {
            assert(rv.subrange(0, 0) =~= Seq::<(ProductSource, Seq<u32>, ProductSource)>::empty());
        }
        let mut best: Option<usize> = None;
        let mut j: usize = 0;
        while j < self.rules.len()
            invariant
                j <= self.rules@.len(),
                rv == rule_views(self.rules@),
                last_exact(rv, product@) == -1,
                match best {
                    Some(b) => b < j && newest_divisor(rv, product@, j as int) == b as int,
                    None => newest_divisor(rv, product@, j as int) == -1,
                },
            decreases self.rules@.len() - j,
        {
            let rule = &self.rules[j];
            assert(rv[j as int] == rule@);
            proof {
                lemma_newest_divisor(rv, product@, j as int);
            }
            if rule.source == product.source && !rule.divisor.same(&product.multiplier) && divides(&rule.divisor, &product.multiplier) {
                let newer = match best {
                    None => true,
                    Some(b) => {
                        assert(rv[b as int] == self.rules@[b as int]@);
                        Self::target_rank(&self.rules[b].target) < Self::target_rank(&rule.target)
                    },
                };
                if newer {
                    best = Some(j);
                }
            }
            j += 1;
        }
        match best {
            None => Ok(None),
            Some(b) => {
                proof {
                    lemma_newest_divisor(rv, product@, rv.len() as int);
                }
                let rule = &self.rules[b];
                assert(rv[b as int] == rule@);
                let quotient = match checked_div_exact(&rule.divisor, &product.multiplier) {
                    Ok(q) => q,
                    Err(e) => return Err(F4Error::Monomial(e)),
                };
                Ok(Some(UnevaluatedProduct { source: rule.target, multiplier: quotient }))
            },
        }
    }

    /// Rewrites `product` with the recorded rules until none applies.
    pub fn simplify_product(&self, ctx: &RingCtx, product: UnevaluatedProduct) -> (r: Result<UnevaluatedProduct, F4Error>)
        ensures
            r matches Ok(q) && q@ == simplified(self.rules_view(), ctx.nvars as nat, product@),
    {
        proof {
            use_type_invariant(self);
        }
        let ghost start = product@;
        let mut current = product;
        loop
            invariant
                start == product@,
                rules_acyclic(self.rules_view()),
                simplified(self.rules_view(), ctx.nvars as nat, start) == simplified(self.rules_view(), ctx.nvars as nat, current@),
            decreases usize::MAX + 1 - source_rank(current.source),
        {
            let found = self.find_rewrite(ctx, &current);
            let next = match found {
                Ok(Some(n)) => n,
                _ => {
                    assert(rewrite_step(self.rules_view(), ctx.nvars as nat, current@) is None);
                    assert(simplified(self.rules_view(), ctx.nvars as nat, current@) == current@);
                    assert(current@ == simplified(self.rules_view(), ctx.nvars as nat, start));
                    assert(start == product@);
                    return Ok(current);
                },
            };
            if next.same(&current) {
                assert(simplified(self.rules_view(), ctx.nvars as nat, current@) == current@);
                return Ok(current);
            }
            proof {
                let rv = self.rules_view();
                let e = last_exact(rv, current@);
                lemma_last_exact(rv, current@);
                lemma_newest_divisor(rv, current@, rv.len() as int);
                let d = newest_divisor(rv, current@, rv.len() as int);
                if e >= 0 {
                    assert(source_rank(rv[e].0) < source_rank(rv[e].2));
                } else {
                    assert(source_rank(rv[d].0) < source_rank(rv[d].2));
                }
                assert(source_rank(next.source) <= usize::MAX + 1);
            }
            current = next;
        }
    }
}

impl SimplifyRule {
    /// An equal copy of this rule.
    pub fn duplicate(&self) -> (r: SimplifyRule)
        ensures
            r@ == self@,
    {
        SimplifyRule { source: self.source, divisor: self.divisor.duplicate(), target: self.target }
    }
}

impl Clone for SimplifyIndex {
    fn clone(&self) -> (r: SimplifyIndex)
        ensures
            r.rules_view() == self.rules_view(),
    {
        proof {
            use_type_invariant(self);
        }
        let mut rules: Vec<SimplifyRule> = Vec::new();
        let mut i: usize = 0;
        while i < self.rules.len()
            invariant
                i <= self.rules@.len(),
                rules@.len() == i,
                forall|k: int| 0 <= k < i ==> (#[trigger] rules@[k])@ == self.rules@[k]@,
            decreases self.rules@.len() - i,
        {
            rules.push(self.rules[i].duplicate());
            i += 1;
        }
        assert(rule_views(rules@) =~= rule_views(self.rules@));
        SimplifyIndex { rules }
    }
}

impl Default for SimplifyIndex {
    fn default() -> (r: SimplifyIndex)
        ensures
            r.rules_view() == Seq::<(ProductSource, Seq<u32>, ProductSource)>::empty(),
    {
        SimplifyIndex::new()
    }
}

proof fn lemma_last_exact(rules: Seq<(ProductSource, Seq<u32>, ProductSource)>, p: (ProductSource, Seq<u32>))
    ensures
        last_exact(rules, p) == -1 || (0 <= last_exact(rules, p) < rules.len() && rules[last_exact(rules, p)].0 == p.0),
    decreases rules.len(),
{
    if rules.len() > 0 && !(rules.last().0 == p.0 && rules.last().1 == p.1) {
        lemma_last_exact(rules.drop_last(), p);
    }
}

proof fn lemma_newest_divisor(rules: Seq<(ProductSource, Seq<u32>, ProductSource)>, p: (ProductSource, Seq<u32>), n: int)
    requires
        n <= rules.len(),
    ensures
        newest_divisor(rules, p, n) == -1 || (0 <= newest_divisor(rules, p, n) < n && divisor_match(rules[newest_divisor(rules, p, n)], p)),
    decreases n,
{
    if n > 0 {
        lemma_newest_divisor(rules, p, n - 1);
    }
}

/// Every rule rewrites to a nonzero reduced row of the history.
pub open spec fn targets_nonzero(rules: Seq<(ProductSource, Seq<u32>, ProductSource)>, history: Seq<BatchHistory<Polynomial>>) -> bool {
    forall|k: int|
        0 <= k < rules.len() ==> match (#[trigger] rules[k]).2 {
            ProductSource::HistoryReducedRow { batch_index, row_index } => batch_index < history.len() && row_index
                < history[batch_index as int].f_j_tilde@.len() && is_nonzero(history[batch_index as int].f_j_tilde@[row_index as int]),
            ProductSource::Basis(_) => false,
        }
}

/// A row found by `first_row_with_head` is a nonzero row of the list.
proof fn lemma_first_row_with_head(rows: Seq<Polynomial>, h: Seq<u32>, k: int)
    ensures
        first_row_with_head(rows, h, k) >= 0 ==> k <= first_row_with_head(rows, h, k) < rows.len() && is_nonzero(rows[first_row_with_head(rows, h, k)]),
    decreases rows.len() - k,
{
    if 0 <= k < rows.len() && !(is_nonzero(rows[k]) && lm(rows[k]) == h) {
        lemma_first_row_with_head(rows, h, k + 1);
    }
}

/// The rules of a batch rewrite to nonzero reduced rows of that batch.
proof fn lemma_batch_rules_targets(batch_index: usize, batch: BatchHistory<Polynomial>, n: nat)
    requires
        n <= batch.f_j_products@.len(),
        n <= batch.f_j_heads@.len(),
    ensures
        forall|k: int|
            0 <= k < batch_rules(batch_index, batch, n).len() ==> match (#[trigger] batch_rules(batch_index, batch, n)[k]).2 {
                ProductSource::HistoryReducedRow { batch_index: b, row_index } => b == batch_index && row_index < batch.f_j_tilde@.len()
                    && is_nonzero(batch.f_j_tilde@[row_index as int]),
                ProductSource::Basis(_) => false,
            },
    decreases n,
{
    if n > 0 {
        lemma_batch_rules_targets(batch_index, batch, (n - 1) as nat);
        lemma_first_row_with_head(batch.f_j_tilde@, batch.f_j_heads@[n - 1]@, 0);
        let prev = batch_rules(batch_index, batch, (n - 1) as nat);
        let cur = batch_rules(batch_index, batch, n);
        assert forall|k: int| 0 <= k < cur.len() implies match (#[trigger] cur[k]).2 {
            ProductSource::HistoryReducedRow { batch_index: b, row_index } => b == batch_index && row_index < batch.f_j_tilde@.len()
                && is_nonzero(batch.f_j_tilde@[row_index as int]),
            ProductSource::Basis(_) => false,
        } by {
            if k < prev.len() {
                assert(cur[k] == prev[k]);
            } else {
                let r = first_row_with_head(batch.f_j_tilde@, batch.f_j_heads@[n - 1]@, 0);
                assert(batch.f_j_tilde@.len() == batch.f_j_tilde.len());
                assert(0 <= r < batch.f_j_tilde@.len());
                assert((r as usize) as int == r);
                assert(cur[k].2 == ProductSource::HistoryReducedRow { batch_index, row_index: r as usize });
            }
        }
    }
}

/// Appending a batch and its rules keeps every rule pointing at a nonzero reduced row.
pub proof fn lemma_targets_push(rules: Seq<(ProductSource, Seq<u32>, ProductSource)>, history: Seq<BatchHistory<Polynomial>>, batch: BatchHistory<Polynomial>)
    requires
        targets_nonzero(rules, history),
        history.len() <= usize::MAX,
    ensures
        targets_nonzero(rules + batch_rules(history.len() as usize, batch, aligned_len(batch)), history.push(batch)),
{
    let nb = batch_rules(history.len() as usize, batch, aligned_len(batch));
    let all = rules + nb;
    let h2 = history.push(batch);
    lemma_batch_rules_targets(history.len() as usize, batch, aligned_len(batch));
    assert forall|k: int| 0 <= k < all.len() implies match (#[trigger] all[k]).2 {
        ProductSource::HistoryReducedRow { batch_index, row_index } => batch_index < h2.len() && row_index < h2[batch_index as int].f_j_tilde@.len()
            && is_nonzero(h2[batch_index as int].f_j_tilde@[row_index as int]),
        ProductSource::Basis(_) => false,
    } by {
        if k < rules.len() {
            assert(all[k] == rules[k]);
            match rules[k].2 {
                ProductSource::HistoryReducedRow { batch_index, row_index } => {
                    assert(h2[batch_index as int] == history[batch_index as int]);
                },
                ProductSource::Basis(_) => {},
            }
        } else {
            assert(all[k] == nb[k - rules.len()]);
            assert(h2[history.len() as int] == batch);
        }
    }
}

/// Simplification keeps the source of a product or moves it to the target of a rule.
pub proof fn lemma_simplified_source(rules: Seq<(ProductSource, Seq<u32>, ProductSource)>, nvars: nat, p: (ProductSource, Seq<u32>))
    ensures
        simplified(rules, nvars, p).0 == p.0 || exists|k: int| 0 <= k < rules.len() && (#[trigger] rules[k]).2 == simplified(rules, nvars, p).0,
    decreases usize::MAX + 1 - source_rank(p.0),
{
    match rewrite_step(rules, nvars, p) {
        Some(n) => {
            if n != p && source_rank(p.0) < source_rank(n.0) && source_rank(n.0) <= usize::MAX + 1 {
                lemma_simplified_source(rules, nvars, n);
                let e = last_exact(rules, p);
                if e >= 0 {
                    lemma_last_exact_range(rules, p);
                    assert(rules[e].2 == n.0);
                } else {
                    let d = newest_divisor(rules, p, rules.len() as int);
                    lemma_newest_divisor(rules, p, rules.len() as int);
                    assert(rules[d].2 == n.0);
                }
            }
        },
        None => {},
    }
}

proof fn lemma_last_exact_range(rules: Seq<(ProductSource, Seq<u32>, ProductSource)>, p: (ProductSource, Seq<u32>))
    ensures
        last_exact(rules, p) < rules.len(),
    decreases rules.len(),
{
    if rules.len() > 0 {
        lemma_last_exact_range(rules.drop_last(), p);
    }
}

/// Simplification keeps the number of variables of the multiplier.
pub proof fn lemma_simplified_len(rules: Seq<(ProductSource, Seq<u32>, ProductSource)>, nvars: nat, p: (ProductSource, Seq<u32>))
    requires
        p.1.len() == nvars,
    ensures
        simplified(rules, nvars, p).1.len() == nvars,
    decreases usize::MAX + 1 - source_rank(p.0),
{
    match rewrite_step(rules, nvars, p) {
        Some(n) => {
            if n != p && source_rank(p.0) < source_rank(n.0) && source_rank(n.0) <= usize::MAX + 1 {
                assert(n.1.len() == nvars);
                lemma_simplified_len(rules, nvars, n);
            }
        },
        None => {},
    }
}

/// Every product recorded in batch `b` of the history comes from the basis or from an
/// earlier batch, as the histories the engine builds do.
pub open spec fn causal_history(history: Seq<BatchHistory<Polynomial>>) -> bool {
    forall|b: int, k: int|
        0 <= b < history.len() && 0 <= k < history[b].f_j_products@.len() ==> source_rank(
            (#[trigger] history[b].f_j_products@[k]).source,
        ) <= b
}

/// In a causal history every recorded product whose head has a reduced row gets its rule:
/// the rank condition of [`rule_for`] drops nothing.
pub proof fn lemma_causal_rule(history: Seq<BatchHistory<Polynomial>>, b: int, k: int)
    requires
        causal_history(history),
        history.len() <= usize::MAX,
        0 <= b < history.len(),
        0 <= k < history[b].f_j_products@.len(),
        k < history[b].f_j_heads@.len(),
    ensures
        rule_for(b as usize, history[b].f_j_products@[k], history[b].f_j_heads@[k]@, history[b].f_j_tilde@) is Some
            <==> first_row_with_head(history[b].f_j_tilde@, history[b].f_j_heads@[k]@, 0) >= 0,
{
    assert(source_rank(history[b].f_j_products@[k].source) <= b);
}

} // verus!
