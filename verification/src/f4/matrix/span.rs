//! Row spaces of dense matrices over a prime field, and the elementary row operations that
//! keep them.

use vstd::prelude::*;

verus! {

/// `Σ_{k < n} coeffs[k] · rows[k][c]`.
pub open spec fn lin(coeffs: Seq<int>, rows: Seq<Seq<u32>>, c: int, n: int) -> int
    decreases n,
{
    if n <= 0 {
        0
    } else {
        lin(coeffs, rows, c, n - 1) + coeffs[n - 1] * rows[n - 1][c]
    }
}

/// Column by column, modulo `p`, `v` is the combination of `rows` with coefficients `coeffs`.
pub open spec fn combo_of(p: int, rows: Seq<Seq<u32>>, v: Seq<u32>, coeffs: Seq<int>) -> bool {
    &&& coeffs.len() == rows.len()
    &&& forall|c: int| 0 <= c < v.len() ==> (v[c] - #[trigger] lin(coeffs, rows, c, rows.len() as int)) % p == 0
}

/// `v` lies in the row space of `rows` modulo `p`.
pub open spec fn in_span(p: int, rows: Seq<Seq<u32>>, v: Seq<u32>) -> bool {
    exists|coeffs: Seq<int>| combo_of(p, rows, v, coeffs)
}

/// Every row of `a` lies in the row space of `b`.
pub open spec fn spans_into(p: int, a: Seq<Seq<u32>>, b: Seq<Seq<u32>>) -> bool {
    forall|i: int| 0 <= i < a.len() ==> in_span(p, b, #[trigger] a[i])
}

/// `a` and `b` have the same row space modulo `p`.
pub open spec fn row_equivalent(p: int, a: Seq<Seq<u32>>, b: Seq<Seq<u32>>) -> bool {
    spans_into(p, a, b) && spans_into(p, b, a)
}

/// The coefficients `sa` at `a`, `sb` at `b` (when `b != a`), and zero elsewhere.
pub open spec fn two_point(len: nat, a: int, sa: int, b: int, sb: int) -> Seq<int> {
    Seq::new(len, |j: int| if j == a { sa } else if j == b { sb } else { 0 })
}

proof fn lemma_lin_two_point(len: nat, a: int, sa: int, b: int, sb: int, rows: Seq<Seq<u32>>, c: int, n: int)
    requires
        0 <= a < len,
        0 <= b < len,
        a != b,
        n <= len,
    ensures
        lin(two_point(len, a, sa, b, sb), rows, c, n) == (if a < n { sa * rows[a][c] } else { 0 }) + (if b < n { sb * rows[b][c] } else { 0 }),
    decreases n,
{
    if n > 0 {
        lemma_lin_two_point(len, a, sa, b, sb, rows, c, n - 1);
    }
}

/// A combination with two nonzero coefficients.
proof fn lemma_span_two(p: int, rows: Seq<Seq<u32>>, v: Seq<u32>, a: int, sa: int, b: int, sb: int)
    requires
        p > 0,
        0 <= a < rows.len(),
        0 <= b < rows.len(),
        a != b,
        forall|c: int| 0 <= c < v.len() ==> (v[c] - (sa * rows[a][c] + sb * rows[b][c])) % p == 0,
    ensures
        in_span(p, rows, v),
{
    let coeffs = two_point(rows.len(), a, sa, b, sb);
    assert forall|c: int| 0 <= c < v.len() implies (v[c] - #[trigger] lin(coeffs, rows, c, rows.len() as int)) % p == 0 by {
        lemma_lin_two_point(rows.len(), a, sa, b, sb, rows, c, rows.len() as int);
    }
    assert(combo_of(p, rows, v, coeffs));
}

/// The coefficient `s` at `a` and zero elsewhere.
pub open spec fn unit_at(len: nat, a: int, s: int) -> Seq<int> {
    Seq::new(len, |j: int| if j == a { s } else { 0 })
}

proof fn lemma_lin_unit(len: nat, a: int, s: int, rows: Seq<Seq<u32>>, c: int, n: int)
    requires
        0 <= a < len,
        n <= len,
    ensures
        lin(unit_at(len, a, s), rows, c, n) == (if a < n { s * rows[a][c] } else { 0 }),
    decreases n,
{
    if n > 0 {
        lemma_lin_unit(len, a, s, rows, c, n - 1);
    }
}

/// A multiple of one row.
proof fn lemma_span_unit(p: int, rows: Seq<Seq<u32>>, v: Seq<u32>, a: int, s: int)
    requires
        p > 0,
        0 <= a < rows.len(),
        forall|c: int| 0 <= c < v.len() ==> (v[c] - s * rows[a][c]) % p == 0,
    ensures
        in_span(p, rows, v),
{
    let coeffs = unit_at(rows.len(), a, s);
    assert forall|c: int| 0 <= c < v.len() implies (v[c] - #[trigger] lin(coeffs, rows, c, rows.len() as int)) % p == 0 by {
        lemma_lin_unit(rows.len(), a, s, rows, c, rows.len() as int);
    }
    assert(combo_of(p, rows, v, coeffs));
}

/// A row lies in the span of its matrix.
proof fn lemma_span_member(p: int, rows: Seq<Seq<u32>>, v: Seq<u32>, k: int)
    requires
        p > 0,
        0 <= k < rows.len(),
        v == rows[k],
    ensures
        in_span(p, rows, v),
{
    assert forall|c: int| 0 <= c < v.len() implies (v[c] - 1 * rows[k][c]) % p == 0 by {
        assert(v[c] - 1 * rows[k][c] == 0);
    }
    lemma_span_unit(p, rows, v, k, 1);
}

/// `lin` is additive in the coefficients.
proof fn lemma_lin_add(x: Seq<int>, y: Seq<int>, z: Seq<int>, s: int, rows: Seq<Seq<u32>>, c: int, n: int)
    requires
        n <= x.len(),
        n <= y.len(),
        n <= z.len(),
        forall|k: int| 0 <= k < n ==> #[trigger] z[k] == x[k] + s * y[k],
    ensures
        lin(z, rows, c, n) == lin(x, rows, c, n) + s * lin(y, rows, c, n),
    decreases n,
{
    if n > 0 {
        lemma_lin_add(x, y, z, s, rows, c, n - 1);
        let k = n - 1;
        let r = rows[k][c] as int;
        assert(z[k] * r == x[k] * r + s * (y[k] * r)) by (nonlinear_arith)
            requires
                z[k] == x[k] + s * y[k],
        ;
        assert(s * lin(y, rows, c, n) == s * lin(y, rows, c, n - 1) + s * (y[k] * r)) by (nonlinear_arith)
            requires
                lin(y, rows, c, n) == lin(y, rows, c, n - 1) + y[k] * r,
        ;
    }
}

/// Congruence modulo `p` is kept by multiplying both sides.
proof fn lemma_mul_congruent(p: int, s: int, x: int, y: int)
    requires
        p > 0,
        (x - y) % p == 0,
    ensures
        (s * x - s * y) % p == 0,
{
    vstd::arithmetic::div_mod::lemma_fundamental_div_mod(x - y, p);
    let q = (x - y) / p;
    assert(s * x - s * y == (s * q) * p) by (nonlinear_arith)
        requires
            x - y == p * q + 0,
    ;
    vstd::arithmetic::div_mod::lemma_mod_multiples_basic(s * q, p);
}

/// Differences that are multiples of `p` add up to one.
proof fn lemma_add_congruent(p: int, x1: int, y1: int, x2: int, y2: int)
    requires
        p > 0,
        (x1 - y1) % p == 0,
        (x2 - y2) % p == 0,
    ensures
        ((x1 + x2) - (y1 + y2)) % p == 0,
{
    vstd::arithmetic::div_mod::lemma_fundamental_div_mod(x1 - y1, p);
    vstd::arithmetic::div_mod::lemma_fundamental_div_mod(x2 - y2, p);
    let q1 = (x1 - y1) / p;
    let q2 = (x2 - y2) / p;
    assert((x1 + x2) - (y1 + y2) == (q1 + q2) * p) by (nonlinear_arith)
        requires
            x1 - y1 == p * q1 + 0,
            x2 - y2 == p * q2 + 0,
    ;
    vstd::arithmetic::div_mod::lemma_mod_multiples_basic(q1 + q2, p);
}

/// Congruence modulo `p` is symmetric.
proof fn lemma_neg_congruent(p: int, x: int, y: int)
    requires
        p > 0,
        (x - y) % p == 0,
    ensures
        (y - x) % p == 0,
{
    vstd::arithmetic::div_mod::lemma_fundamental_div_mod(x - y, p);
    let q = (x - y) / p;
    assert(y - x == (-q) * p) by (nonlinear_arith)
        requires
            x - y == p * q + 0,
    ;
    vstd::arithmetic::div_mod::lemma_mod_multiples_basic(-q, p);
}

/// Coefficients witnessing that `v` lies in the span of `rows`.
pub open spec fn span_coeffs(p: int, rows: Seq<Seq<u32>>, v: Seq<u32>) -> Seq<int> {
    choose|coeffs: Seq<int>| combo_of(p, rows, v, coeffs)
}

/// The composed coefficients `Σ_{j < m} beta[j] · alpha_j`, where `alpha_j` writes `b[j]`
/// over `a`.
pub open spec fn composed(p: int, a: Seq<Seq<u32>>, b: Seq<Seq<u32>>, beta: Seq<int>, m: int) -> Seq<int>
    decreases m,
{
    if m <= 0 {
        Seq::new(a.len(), |k: int| 0)
    } else {
        let prev = composed(p, a, b, beta, m - 1);
        let alpha = span_coeffs(p, a, b[m - 1]);
        Seq::new(a.len(), |k: int| prev[k] + beta[m - 1] * alpha[k])
    }
}

proof fn lemma_lin_zero(len: nat, rows: Seq<Seq<u32>>, c: int, n: int)
    requires
        n <= len,
    ensures
        lin(Seq::new(len, |k: int| 0), rows, c, n) == 0,
    decreases n,
{
    if n > 0 {
        lemma_lin_zero(len, rows, c, n - 1);
    }
}

/// The composed coefficients reproduce the combination of `b` modulo `p`, column by column.
proof fn lemma_composed(p: int, a: Seq<Seq<u32>>, b: Seq<Seq<u32>>, beta: Seq<int>, m: int, c: int)
    requires
        p > 0,
        0 <= m <= b.len(),
        beta.len() == b.len(),
        forall|j: int| 0 <= j < b.len() ==> c < (#[trigger] b[j]).len(),
        0 <= c,
        spans_into(p, b, a),
    ensures
        composed(p, a, b, beta, m).len() == a.len(),
        (lin(composed(p, a, b, beta, m), a, c, a.len() as int) - lin(beta, b, c, m)) % p == 0,
    decreases m,
{
    if m <= 0 {
        lemma_lin_zero(a.len(), a, c, a.len() as int);
        assert(lin(beta, b, c, m) == 0);
        assert(0int % p == 0);
    } else {
        lemma_composed(p, a, b, beta, m - 1, c);
        let prev = composed(p, a, b, beta, m - 1);
        let j = m - 1;
        assert(in_span(p, a, b[j]));
        let alpha = span_coeffs(p, a, b[j]);
        assert(combo_of(p, a, b[j], alpha));
        let cur = composed(p, a, b, beta, m);
        lemma_lin_add(prev, alpha, cur, beta[j], a, c, a.len() as int);
        // lin(cur) = lin(prev) + beta_j * lin(alpha), lin(alpha) ≡ b[j][c].
        assert((b[j][c] - lin(alpha, a, c, a.len() as int)) % p == 0);
        lemma_neg_congruent(p, b[j][c] as int, lin(alpha, a, c, a.len() as int));
        lemma_mul_congruent(p, beta[j], lin(alpha, a, c, a.len() as int), b[j][c] as int);
        lemma_add_congruent(p, lin(prev, a, c, a.len() as int), lin(beta, b, c, m - 1), beta[j] * lin(alpha, a, c, a.len() as int), beta[j] * b[j][c]);
    }
}

/// Spans compose: a combination of rows that are combinations of `a` is a combination of `a`.
pub proof fn lemma_span_trans(p: int, a: Seq<Seq<u32>>, b: Seq<Seq<u32>>, v: Seq<u32>)
    requires
        p > 0,
        in_span(p, b, v),
        spans_into(p, b, a),
        forall|j: int| 0 <= j < b.len() ==> v.len() <= (#[trigger] b[j]).len(),
    ensures
        in_span(p, a, v),
{
    let beta = span_coeffs(p, b, v);
    assert(combo_of(p, b, v, beta));
    let gamma = composed(p, a, b, beta, b.len() as int);
    assert forall|c: int| 0 <= c < v.len() implies (v[c] - #[trigger] lin(gamma, a, c, a.len() as int)) % p == 0 by {
        lemma_composed(p, a, b, beta, b.len() as int, c);
        assert((v[c] - lin(beta, b, c, b.len() as int)) % p == 0);
        lemma_neg_congruent(p, lin(gamma, a, c, a.len() as int), lin(beta, b, c, b.len() as int));
        lemma_add_congruent(p, v[c] as int, lin(beta, b, c, b.len() as int), lin(beta, b, c, b.len() as int), lin(gamma, a, c, a.len() as int));
    }
    assert(combo_of(p, a, v, gamma));
}

/// Every row has `n` entries.
pub open spec fn uniform(rows: Seq<Seq<u32>>, n: int) -> bool {
    forall|i: int| 0 <= i < rows.len() ==> (#[trigger] rows[i]).len() == n
}

/// Every matrix has its own row space.
pub proof fn lemma_equiv_refl(p: int, a: Seq<Seq<u32>>)
    requires
        p > 0,
    ensures
        row_equivalent(p, a, a),
{
    assert forall|i: int| 0 <= i < a.len() implies in_span(p, a, #[trigger] a[i]) by {
        lemma_span_member(p, a, a[i], i);
    }
}

/// Row equivalence is transitive.
pub proof fn lemma_equiv_trans(p: int, a: Seq<Seq<u32>>, b: Seq<Seq<u32>>, c: Seq<Seq<u32>>, n: int)
    requires
        p > 0,
        uniform(a, n),
        uniform(b, n),
        uniform(c, n),
        row_equivalent(p, a, b),
        row_equivalent(p, b, c),
    ensures
        row_equivalent(p, a, c),
{
    assert forall|i: int| 0 <= i < a.len() implies in_span(p, c, #[trigger] a[i]) by {
        lemma_span_trans(p, c, b, a[i]);
    }
    assert forall|i: int| 0 <= i < c.len() implies in_span(p, a, #[trigger] c[i]) by {
        lemma_span_trans(p, a, b, c[i]);
    }
}

/// Replacing row `i` by `w` keeps the row space when `w` lies in the old span and the old
/// row lies in the new one.
proof fn lemma_update_equiv(p: int, old: Seq<Seq<u32>>, i: int, w: Seq<u32>)
    requires
        p > 0,
        0 <= i < old.len(),
        in_span(p, old, w),
        in_span(p, old.update(i, w), old[i]),
    ensures
        row_equivalent(p, old, old.update(i, w)),
{
    let new = old.update(i, w);
    assert forall|k: int| 0 <= k < old.len() implies in_span(p, new, #[trigger] old[k]) by {
        if k != i {
            lemma_span_member(p, new, old[k], k);
        }
    }
    assert forall|k: int| 0 <= k < new.len() implies in_span(p, old, #[trigger] new[k]) by {
        if k != i {
            lemma_span_member(p, old, new[k], k);
        }
    }
}

/// Exchanging two rows keeps the row space.
pub proof fn lemma_swap_equiv(p: int, old: Seq<Seq<u32>>, a: int, b: int)
    requires
        p > 0,
        0 <= a < old.len(),
        0 <= b < old.len(),
    ensures
        row_equivalent(p, old, old.update(a, old[b]).update(b, old[a])),
{
    let new = old.update(a, old[b]).update(b, old[a]);
    assert forall|k: int| 0 <= k < old.len() implies in_span(p, new, #[trigger] old[k]) by {
        if k == a {
            lemma_span_member(p, new, old[k], b);
        } else if k == b {
            lemma_span_member(p, new, old[k], a);
        } else {
            lemma_span_member(p, new, old[k], k);
        }
    }
    assert forall|k: int| 0 <= k < new.len() implies in_span(p, old, #[trigger] new[k]) by {
        if k == b {
            lemma_span_member(p, old, new[k], a);
        } else if k == a {
            lemma_span_member(p, old, new[k], b);
        } else {
            lemma_span_member(p, old, new[k], k);
        }
    }
}

/// Multiplying a row by an invertible scalar keeps the row space.
pub proof fn lemma_scale_equiv(p: int, old: Seq<Seq<u32>>, i: int, w: Seq<u32>, s: int, t: int)
    requires
        p > 0,
        0 <= i < old.len(),
        w.len() == old[i].len(),
        (s * t) % p == 1,
        forall|c: int| 0 <= c < w.len() ==> (w[c] - s * old[i][c]) % p == 0,
    ensures
        row_equivalent(p, old, old.update(i, w)),
{
    let new = old.update(i, w);
    lemma_span_unit(p, old, w, i, s);
    assert forall|c: int| 0 <= c < old[i].len() implies (old[i][c] - t * new[i][c]) % p == 0 by {
        let x = old[i][c] as int;
        let y = w[c] as int;
        lemma_mul_congruent(p, t, y, s * x);
        vstd::arithmetic::div_mod::lemma_fundamental_div_mod(s * t, p);
        let q = (s * t) / p;
        assert(t * (s * x) - x == (q * x) * p) by (nonlinear_arith)
            requires
                s * t == p * q + 1,
        ;
        vstd::arithmetic::div_mod::lemma_mod_multiples_basic(q * x, p);
        assert((t * (s * x) - x) % p == 0);
        lemma_add_congruent(p, t * y, t * (s * x), t * (s * x), x);
        assert((t * y + t * (s * x)) - (t * (s * x) + x) == t * y - x);
        lemma_neg_congruent(p, t * y, x);
        assert(new[i][c] == w[c]);
    }
    lemma_span_unit(p, new, old[i], i, t);
    lemma_update_equiv(p, old, i, w);
}

/// Subtracting a multiple of another row keeps the row space.
pub proof fn lemma_elim_equiv(p: int, old: Seq<Seq<u32>>, r: int, pr: int, w: Seq<u32>, f: int)
    requires
        p > 0,
        0 <= r < old.len(),
        0 <= pr < old.len(),
        r != pr,
        w.len() == old[r].len(),
        w.len() <= old[pr].len(),
        forall|c: int| 0 <= c < w.len() ==> (w[c] - (old[r][c] - f * old[pr][c])) % p == 0,
    ensures
        row_equivalent(p, old, old.update(r, w)),
{
    let new = old.update(r, w);
    assert forall|c: int| 0 <= c < w.len() implies (w[c] - (1 * old[r][c] + (-f) * old[pr][c])) % p == 0 by {
        let a = old[r][c] as int;
        let b = old[pr][c] as int;
        assert(1 * a + (-f) * b == a - f * b) by (nonlinear_arith);
    }
    lemma_span_two(p, old, w, r, 1, pr, -f);
    assert forall|c: int| 0 <= c < old[r].len() implies (old[r][c] - (1 * new[r][c] + f * new[pr][c])) % p == 0 by {
        assert(new[r][c] == w[c] && new[pr][c] == old[pr][c]);
        let a = old[r][c] as int;
        let b = old[pr][c] as int;
        let y = w[c] as int;
        lemma_neg_congruent(p, y, a - f * b);
        assert(a - (1 * y + f * b) == (a - f * b) - y) by (nonlinear_arith);
    }
    lemma_span_two(p, new, old[r], r, 1, pr, f);
    lemma_update_equiv(p, old, r, w);
}

} // verus!
