//! Monomial orders: lexicographic and graded reverse lexicographic.

use vstd::prelude::*;

use crate::monomial::{exp_sum, spec_divides, spec_mul, spec_quotient, mul_fits, Monomial};

verus! {

/// Result of comparing two monomials.
#[derive(Debug, Clone, Copy, PartialEq, Eq, Structural)]
pub enum OrderRel {
    Less,
    Equal,
    Greater,
}

/// A monomial order on exponent vectors with a fixed number of variables.
#[derive(Debug, Clone, Copy, PartialEq, Eq, Structural)]
pub enum MonomialOrder {
    /// Lexicographic order with `x_0 > x_1 > ... > x_{n-1}`.
    Lex,
    /// Graded reverse lexicographic order.
    Grevlex,
}

/// Lexicographic comparison starting at position `i`.
pub open spec fn lex_from(a: Seq<u32>, b: Seq<u32>, i: int) -> OrderRel
    decreases a.len() - i,
{
    if i < 0 || i >= a.len() || i >= b.len() {
        OrderRel::Equal
    } else if a[i] < b[i] {
        OrderRel::Less
    } else if a[i] > b[i] {
        OrderRel::Greater
    } else {
        lex_from(a, b, i + 1)
    }
}

/// Reverse lexicographic tie-break over the first `k` positions, scanning from the last one:
/// the monomial with the larger exponent in the last differing variable is the smaller one.
pub open spec fn revlex_upto(a: Seq<u32>, b: Seq<u32>, k: int) -> OrderRel
    decreases k,
{
    if k <= 0 {
        OrderRel::Equal
    } else if a[k - 1] > b[k - 1] {
        OrderRel::Less
    } else if a[k - 1] < b[k - 1] {
        OrderRel::Greater
    } else {
        revlex_upto(a, b, k - 1)
    }
}

/// Comparison of `a` and `b` under `o`.
pub open spec fn spec_compare(o: MonomialOrder, a: Seq<u32>, b: Seq<u32>) -> OrderRel {
    match o {
        MonomialOrder::Lex => lex_from(a, b, 0),
        MonomialOrder::Grevlex => if exp_sum(a) < exp_sum(b) {
            OrderRel::Less
        } else if exp_sum(a) > exp_sum(b) {
            OrderRel::Greater
        } else {
            revlex_upto(a, b, a.len() as int)
        },
    }
}

/// `a` is strictly greater than `b` under `o`.
pub open spec fn spec_gt(o: MonomialOrder, a: Seq<u32>, b: Seq<u32>) -> bool {
    spec_compare(o, a, b) == OrderRel::Greater
}

/// The comparison result with its two sides swapped.
pub open spec fn flip(c: OrderRel) -> OrderRel {
    match c {
        OrderRel::Less => OrderRel::Greater,
        OrderRel::Equal => OrderRel::Equal,
        OrderRel::Greater => OrderRel::Less,
    }
}

proof fn lemma_lex_equal(a: Seq<u32>, b: Seq<u32>, i: int)
    requires
        a.len() == b.len(),
        0 <= i <= a.len(),
    ensures
        lex_from(a, b, i) == OrderRel::Equal <==> (forall|k: int| i <= k < a.len() ==> a[k] == b[k]),
    decreases a.len() - i,
{
    if i < a.len() {
        lemma_lex_equal(a, b, i + 1);
    }
}

proof fn lemma_lex_flip(a: Seq<u32>, b: Seq<u32>, i: int)
    requires
        a.len() == b.len(),
        0 <= i <= a.len(),
    ensures
        lex_from(b, a, i) == flip(lex_from(a, b, i)),
    decreases a.len() - i,
{
    if i < a.len() {
        lemma_lex_flip(a, b, i + 1);
    }
}

proof fn lemma_lex_trans(a: Seq<u32>, b: Seq<u32>, c: Seq<u32>, i: int)
    requires
        a.len() == b.len(),
        b.len() == c.len(),
        0 <= i <= a.len(),
        lex_from(a, b, i) == OrderRel::Greater,
        lex_from(b, c, i) == OrderRel::Greater,
    ensures
        lex_from(a, c, i) == OrderRel::Greater,
    decreases a.len() - i,
{
    if i < a.len() {
        if a[i] == b[i] && b[i] == c[i] {
            lemma_lex_trans(a, b, c, i + 1);
        } else if a[i] == b[i] {
        } else if b[i] == c[i] {
        }
    }
}

proof fn lemma_lex_mul(a: Seq<u32>, b: Seq<u32>, m: Seq<u32>, i: int)
    requires
        a.len() == b.len(),
        b.len() == m.len(),
        mul_fits(a, m),
        mul_fits(b, m),
        0 <= i <= a.len(),
    ensures
        lex_from(spec_mul(a, m), spec_mul(b, m), i) == lex_from(a, b, i),
    decreases a.len() - i,
{
    if i < a.len() {
        lemma_lex_mul(a, b, m, i + 1);
    }
}

proof fn lemma_revlex_equal(a: Seq<u32>, b: Seq<u32>, k: int)
    requires
        a.len() == b.len(),
        0 <= k <= a.len(),
    ensures
        revlex_upto(a, b, k) == OrderRel::Equal <==> (forall|j: int| 0 <= j < k ==> a[j] == b[j]),
    decreases k,
{
    if k > 0 {
        lemma_revlex_equal(a, b, k - 1);
    }
}

proof fn lemma_revlex_flip(a: Seq<u32>, b: Seq<u32>, k: int)
    requires
        a.len() == b.len(),
        0 <= k <= a.len(),
    ensures
        revlex_upto(b, a, k) == flip(revlex_upto(a, b, k)),
    decreases k,
{
    if k > 0 {
        lemma_revlex_flip(a, b, k - 1);
    }
}

proof fn lemma_revlex_trans(a: Seq<u32>, b: Seq<u32>, c: Seq<u32>, k: int)
    requires
        a.len() == b.len(),
        b.len() == c.len(),
        0 <= k <= a.len(),
        revlex_upto(a, b, k) == OrderRel::Greater,
        revlex_upto(b, c, k) == OrderRel::Greater,
    ensures
        revlex_upto(a, c, k) == OrderRel::Greater,
    decreases k,
{
    if k > 0 {
        if a[k - 1] == b[k - 1] && b[k - 1] == c[k - 1] {
            lemma_revlex_trans(a, b, c, k - 1);
        }
    }
}

proof fn lemma_revlex_mul(a: Seq<u32>, b: Seq<u32>, m: Seq<u32>, k: int)
    requires
        a.len() == b.len(),
        b.len() == m.len(),
        mul_fits(a, m),
        mul_fits(b, m),
        0 <= k <= a.len(),
    ensures
        revlex_upto(spec_mul(a, m), spec_mul(b, m), k) == revlex_upto(a, b, k),
    decreases k,
{
    if k > 0 {
        lemma_revlex_mul(a, b, m, k - 1);
    }
}

/// The degree of a product is the sum of the degrees.
pub proof fn lemma_exp_sum_mul(a: Seq<u32>, m: Seq<u32>)
    requires
        a.len() == m.len(),
        mul_fits(a, m),
    ensures
        exp_sum(spec_mul(a, m)) == exp_sum(a) + exp_sum(m),
    decreases a.len(),
{
    if a.len() > 0 {
        lemma_exp_sum_mul(a.drop_last(), m.drop_last());
        assert(spec_mul(a, m).drop_last() =~= spec_mul(a.drop_last(), m.drop_last()));
    }
}

/// Comparing equal-length monomials gives `Equal` exactly when they are equal.
pub proof fn lemma_compare_equal(o: MonomialOrder, a: Seq<u32>, b: Seq<u32>)
    requires
        a.len() == b.len(),
    ensures
        spec_compare(o, a, b) == OrderRel::Equal <==> a == b,
{
    lemma_lex_equal(a, b, 0);
    lemma_revlex_equal(a, b, a.len() as int);
    if spec_compare(o, a, b) == OrderRel::Equal {
        assert(a =~= b);
    }
}

/// Swapping the arguments flips the comparison.
pub proof fn lemma_compare_flip(o: MonomialOrder, a: Seq<u32>, b: Seq<u32>)
    requires
        a.len() == b.len(),
    ensures
        spec_compare(o, b, a) == flip(spec_compare(o, a, b)),
{
    lemma_lex_flip(a, b, 0);
    lemma_revlex_flip(a, b, a.len() as int);
}

/// Strict comparison is transitive.
pub proof fn lemma_compare_trans(o: MonomialOrder, a: Seq<u32>, b: Seq<u32>, c: Seq<u32>)
    requires
        a.len() == b.len(),
        b.len() == c.len(),
        spec_gt(o, a, b),
        spec_gt(o, b, c),
    ensures
        spec_gt(o, a, c),
{
    match o {
        MonomialOrder::Lex => lemma_lex_trans(a, b, c, 0),
        MonomialOrder::Grevlex => {
            if exp_sum(a) == exp_sum(b) && exp_sum(b) == exp_sum(c) {
                lemma_revlex_trans(a, b, c, a.len() as int);
            }
        },
    }
}

/// Multiplying both sides by the same monomial keeps the comparison.
pub proof fn lemma_compare_mul(o: MonomialOrder, a: Seq<u32>, b: Seq<u32>, m: Seq<u32>)
    requires
        a.len() == b.len(),
        b.len() == m.len(),
        mul_fits(a, m),
        mul_fits(b, m),
    ensures
        spec_compare(o, spec_mul(a, m), spec_mul(b, m)) == spec_compare(o, a, b),
{
    lemma_lex_mul(a, b, m, 0);
    lemma_revlex_mul(a, b, m, a.len() as int);
    lemma_exp_sum_mul(a, m);
    lemma_exp_sum_mul(b, m);
}

/// Exec comparison of equal-length monomials under `o`.
pub fn compare(o: MonomialOrder, a: &Monomial, b: &Monomial) -> (c: OrderRel)
    requires
        a@.len() == b@.len(),
    ensures
        c == spec_compare(o, a@, b@),
{
    match o {
        MonomialOrder::Lex => lex_compare(a, b),
        MonomialOrder::Grevlex => {
            let da = degree_wide(a);
            let db = degree_wide(b);
            if da < db {
                OrderRel::Less
            } else if da > db {
                OrderRel::Greater
            } else {
                revlex_compare(a, b)
            }
        },
    }
}

fn lex_compare(a: &Monomial, b: &Monomial) -> (c: OrderRel)
    requires
        a@.len() == b@.len(),
    ensures
        c == lex_from(a@, b@, 0),
{
    let n = a.n_vars();
    let mut i: usize = 0;
    while i < n
        invariant
            n == a@.len(),
            a@.len() == b@.len(),
            i <= n,
            lex_from(a@, b@, 0) == lex_from(a@, b@, i as int),
        decreases n - i,
    {
        let x = a.exponent(i);
        let y = b.exponent(i);
        if x < y {
            return OrderRel::Less;
        }
        if x > y {
            return OrderRel::Greater;
        }
        i += 1;
    }
    OrderRel::Equal
}

fn revlex_compare(a: &Monomial, b: &Monomial) -> (c: OrderRel)
    requires
        a@.len() == b@.len(),
    ensures
        c == revlex_upto(a@, b@, a@.len() as int),
{
    let mut k: usize = a.n_vars();
    while k > 0
        invariant
            a@.len() == b@.len(),
            k <= a@.len(),
            revlex_upto(a@, b@, a@.len() as int) == revlex_upto(a@, b@, k as int),
        decreases k,
    {
        let x = a.exponent(k - 1);
        let y = b.exponent(k - 1);
        if x > y {
            return OrderRel::Less;
        }
        if x < y {
            return OrderRel::Greater;
        }
        k -= 1;
    }
    OrderRel::Equal
}

/// Total degree computed without overflow.
fn degree_wide(a: &Monomial) -> (d: u128)
    ensures
        d == exp_sum(a@),
{
    let n = a.n_vars();
    let mut acc: u128 = 0;
    let mut i: usize = 0;
    while i < n
        invariant
            n == a@.len(),
            i <= n,
            acc == exp_sum(a@.subrange(0, i as int)),
            acc <= i * 0xffff_ffffu128,
        decreases n - i,
    {
        assert(a@.subrange(0, i + 1).drop_last() =~= a@.subrange(0, i as int));
        let e = a.exponent(i);
        acc = acc + e as u128;
        i += 1;
    }
    assert(a@.subrange(0, n as int) =~= a@);
    acc
}

/// All monomials in `n` variables.
pub open spec fn monomials(n: nat) -> Set<Seq<u32>> {
    Set::new(|x: Seq<u32>| x.len() == n)
}

/// Monomials in `n + 1` variables whose last exponent is below `k`.
spec fn monomials_last_below(n: nat, k: int) -> Set<Seq<u32>> {
    Set::new(|x: Seq<u32>| x.len() == n + 1 && x[n as int] < k)
}

proof fn lemma_monomials_last_below_finite(n: nat, k: int)
    requires
        monomials(n).finite(),
        0 <= k <= 0x1_0000_0000,
    ensures
        monomials_last_below(n, k).finite(),
    decreases k,
{
    if k == 0 {
        assert(monomials_last_below(n, k) =~= Set::<Seq<u32>>::empty());
    } else {
        lemma_monomials_last_below_finite(n, k - 1);
        let v = (k - 1) as u32;
        let f = |x: Seq<u32>| x.push(v);
        monomials(n).lemma_map_finite(f);
        let img = monomials(n).map(f);
        assert(monomials_last_below(n, k) =~= monomials_last_below(n, k - 1).union(img)) by {
            assert forall|y: Seq<u32>| monomials_last_below(n, k).contains(y) implies monomials_last_below(n, k - 1).union(img).contains(y) by {
                if y[n as int] == k - 1 {
                    let x = y.drop_last();
                    assert(monomials(n).contains(x));
                    assert(x.push(v) =~= y);
                    assert(img.contains(f(x)));
                }
            }
            assert forall|y: Seq<u32>| monomials_last_below(n, k - 1).union(img).contains(y) implies monomials_last_below(n, k).contains(y) by {
                if img.contains(y) {
                    let x = choose|x: Seq<u32>| monomials(n).contains(x) && f(x) == y;
                    assert(y == x.push(v));
                }
            }
        }
        vstd::set_lib::lemma_set_union_finite_iff(monomials_last_below(n, k - 1), img);
    }
}

/// There are finitely many monomials in `n` variables.
pub proof fn lemma_monomials_finite(n: nat)
    ensures
        monomials(n).finite(),
    decreases n,
{
    if n == 0 {
        assert(monomials(0) =~= Set::<Seq<u32>>::empty().insert(Seq::<u32>::empty())) by {
            assert forall|x: Seq<u32>| monomials(0).contains(x) implies x == Seq::<u32>::empty() by {
                assert(x =~= Seq::<u32>::empty());
            }
        }
    } else {
        let m = (n - 1) as nat;
        lemma_monomials_finite(m);
        lemma_monomials_last_below_finite(m, 0x1_0000_0000);
        assert(monomials(n) =~= monomials_last_below(m, 0x1_0000_0000));
    }
}

/// The monomials in `n` variables below `m`.
pub open spec fn below(o: MonomialOrder, n: nat, m: Seq<u32>) -> Set<Seq<u32>> {
    Set::new(|x: Seq<u32>| x.len() == n && spec_gt(o, m, x))
}

/// The number of monomials in `n` variables below `m`.
pub open spec fn rank(o: MonomialOrder, n: nat, m: Seq<u32>) -> nat {
    below(o, n, m).len()
}

/// A smaller monomial has a smaller rank: monomial orders on a fixed number of variables
/// are well founded.
pub proof fn lemma_rank_decreases(o: MonomialOrder, n: nat, a: Seq<u32>, b: Seq<u32>)
    requires
        a.len() == n,
        b.len() == n,
        spec_gt(o, a, b),
    ensures
        rank(o, n, b) < rank(o, n, a),
{
    lemma_monomials_finite(n);
    let sa = below(o, n, a);
    let sb = below(o, n, b);
    assert(sa.subset_of(monomials(n)));
    vstd::set_lib::lemma_len_subset(sa, monomials(n));
    assert(sb.subset_of(sa.remove(b))) by {
        assert forall|x: Seq<u32>| sb.contains(x) implies sa.remove(b).contains(x) by {
            lemma_compare_trans(o, a, b, x);
            lemma_compare_equal(o, b, x);
        }
    }
    assert(sa.contains(b));
    vstd::set_lib::lemma_len_subset(sb, sa.remove(b));
}

pub proof fn lemma_exp_sum_le(a: Seq<u32>, b: Seq<u32>)
    requires
        spec_divides(a, b),
    ensures
        exp_sum(a) <= exp_sum(b),
        exp_sum(a) == exp_sum(b) ==> a == b,
    decreases a.len(),
{
    if a.len() > 0 {
        lemma_exp_sum_le(a.drop_last(), b.drop_last());
        assert(a.last() == a[a.len() - 1] && b.last() == b[b.len() - 1]);
        if exp_sum(a) == exp_sum(b) {
            assert(a.drop_last() == b.drop_last());
            assert(a =~= b) by {
                assert forall|i: int| 0 <= i < a.len() implies a[i] == b[i] by {
                    if i < a.len() - 1 {
                        assert(a[i] == a.drop_last()[i] && b[i] == b.drop_last()[i]);
                    }
                }
            }
        }
    }
}

proof fn lemma_lex_divides(a: Seq<u32>, b: Seq<u32>, i: int)
    requires
        spec_divides(a, b),
        0 <= i <= a.len(),
    ensures
        lex_from(a, b, i) != OrderRel::Greater,
    decreases a.len() - i,
{
    if i < a.len() {
        lemma_lex_divides(a, b, i + 1);
    }
}

/// A divisor is never greater than the monomial it divides.
pub proof fn lemma_divides_not_gt(o: MonomialOrder, a: Seq<u32>, b: Seq<u32>)
    requires
        spec_divides(a, b),
    ensures
        !spec_gt(o, a, b),
{
    lemma_lex_divides(a, b, 0);
    lemma_exp_sum_le(a, b);
    if exp_sum(a) == exp_sum(b) {
        lemma_compare_equal(o, a, b);
    }
}

/// Each exponent is at most the degree.
pub proof fn lemma_exponent_le_degree(s: Seq<u32>, i: int)
    requires
        0 <= i < s.len(),
    ensures
        s[i] <= exp_sum(s),
        exp_sum(s) >= 0,
    decreases s.len(),
{
    crate::monomial::lemma_exp_sum_nonneg(s.drop_last());
    if i < s.len() - 1 {
        lemma_exponent_le_degree(s.drop_last(), i);
        assert(s.drop_last()[i] == s[i]);
    }
}

/// Two monomials whose degrees add up to at most `u32::MAX` can be multiplied.
pub proof fn lemma_degrees_fit(a: Seq<u32>, b: Seq<u32>)
    requires
        a.len() == b.len(),
        exp_sum(a) + exp_sum(b) <= u32::MAX,
    ensures
        mul_fits(a, b),
{
    assert forall|i: int| 0 <= i < a.len() implies a[i] + b[i] <= u32::MAX by {
        lemma_exponent_le_degree(a, i);
        lemma_exponent_le_degree(b, i);
    }
}

/// The degree of an exact quotient is the difference of the degrees.
pub proof fn lemma_exp_sum_quotient(d: Seq<u32>, t: Seq<u32>)
    requires
        spec_divides(d, t),
    ensures
        exp_sum(spec_quotient(d, t)) == exp_sum(t) - exp_sum(d),
    decreases t.len(),
{
    if t.len() > 0 {
        lemma_exp_sum_quotient(d.drop_last(), t.drop_last());
        assert(spec_quotient(d, t).drop_last() =~= spec_quotient(d.drop_last(), t.drop_last()));
    }
}

/// Under the graded order a monomial that is not greater than another has at most its degree.
pub proof fn lemma_grevlex_degree(a: Seq<u32>, b: Seq<u32>)
    requires
        !spec_gt(MonomialOrder::Grevlex, a, b),
    ensures
        exp_sum(a) <= exp_sum(b),
{
}

} // verus!
