//! Prime fields `Z/pZ` with elements stored as reduced `u32` residues.

use vstd::prelude::*;
use vstd::arithmetic::div_mod::*;

verus! {

/// `p` is a prime number.
pub open spec fn is_prime(p: int) -> bool {
    &&& p > 1
    &&& forall|d: int| 1 < d < p ==> #[trigger] (p % d) != 0
}

/// The prime field `Z/pZ`.
#[derive(Debug, Clone, Copy, PartialEq, Eq, Structural)]
pub struct PrimeField {
    p: u32,
}

impl PrimeField {
    /// The characteristic.
    pub closed spec fn modulus(&self) -> int {
        self.p as int
    }

    /// Field invariant: the modulus is prime.
    pub open spec fn wf(&self) -> bool {
        is_prime(self.modulus())
    }

    /// `x` is a reduced residue of this field.
    pub open spec fn is_elem(&self, x: u32) -> bool {
        x < self.modulus()
    }

    /// Builds the field `Z/pZ`, or `None` when `p` is not prime.
    pub fn prime(p: u32) -> (r: Option<PrimeField>)
        ensures
            r matches Some(f) ==> f.wf() && f.modulus() == p,
            r is None <==> !is_prime(p as int),
    {
        if p < 2 {
            return None;
        }
        let mut d: u32 = 2;
        while d < p
            invariant
                2 <= d <= p,
                forall|k: int| 1 < k < d ==> #[trigger] (p as int % k) != 0,
            decreases p - d,
        {
            if p % d == 0 {
                return None;
            }
            d += 1;
        }
        Some(PrimeField { p })
    }

    /// The characteristic `p`.
    pub fn characteristic(&self) -> (p: u32)
        ensures
            p == self.modulus(),
    {
        self.p
    }

    /// The residue of `v` modulo `p`.
    pub fn elem(&self, v: u32) -> (x: u32)
        requires
            self.wf(),
        ensures
            x == v as int % self.modulus(),
            self.is_elem(x),
    {
        v % self.p
    }

    pub fn zero(&self) -> (x: u32)
        requires
            self.wf(),
        ensures
            x == 0,
            self.is_elem(x),
    {
        0
    }

    pub fn one(&self) -> (x: u32)
        requires
            self.wf(),
        ensures
            x == 1,
            self.is_elem(x),
    {
        1
    }

    pub fn is_zero(&self, x: u32) -> (b: bool)
        ensures
            b == (x == 0),
    {
        x == 0
    }

    /// `(a + b) mod p`.
    pub fn add(&self, a: u32, b: u32) -> (x: u32)
        requires
            self.wf(),
            self.is_elem(a),
            self.is_elem(b),
        ensures
            x == (a + b) % self.modulus(),
            self.is_elem(x),
    {
        ((a as u64 + b as u64) % (self.p as u64)) as u32
    }

    /// `(a - b) mod p`.
    pub fn sub(&self, a: u32, b: u32) -> (x: u32)
        requires
            self.wf(),
            self.is_elem(a),
            self.is_elem(b),
        ensures
            x == (a - b) % self.modulus(),
            self.is_elem(x),
    {
        let p = self.p as u64;
        proof {
            lemma_mod_add_multiples_vanish(a - b, p as int);
        }
        ((a as u64 + p - b as u64) % p) as u32
    }

    /// `-a mod p`.
    pub fn neg(&self, a: u32) -> (x: u32)
        requires
            self.wf(),
            self.is_elem(a),
        ensures
            x == (0 - a) % self.modulus(),
            self.is_elem(x),
    {
        self.sub(0, a)
    }

    /// `(a * b) mod p`.
    pub fn mul(&self, a: u32, b: u32) -> (x: u32)
        requires
            self.wf(),
            self.is_elem(a),
            self.is_elem(b),
        ensures
            x == (a * b) % self.modulus(),
            self.is_elem(x),
    {
        proof {
            vstd::arithmetic::mul::lemma_mul_upper_bound(a as int, 0xffff_ffff, b as int, 0xffff_ffff);
        }
        ((a as u64 * b as u64) % (self.p as u64)) as u32
    }

    /// Multiplicative inverse of `a`, or `None` when `a` has none (exactly when `a == 0`).
    pub fn try_inv(&self, a: u32) -> (r: Option<u32>)
        requires
            self.wf(),
            self.is_elem(a),
        ensures
            r matches Some(x) ==> self.is_elem(x) && (a * x) % self.modulus() == 1,
            r is None <==> a == 0,
    {
        proof {
            assert(0int % (self.p as int) == 0) by {
                lemma_small_mod(0, self.p as nat);
            }
        }
        if a == 0 {
            return None;
        }
        let r = inverse_mod(a, self.p);
        proof {
            if r is None {
                let g = choose|g: int| g >= 2 && #[trigger] (a as int % g) == 0 && self.p as int % g == 0;
                lemma_prime_coprime(a as int, self.p as int, g);
            }
        }
        r
    }

    /// `a / b` in the field; `None` when `b == 0`.
    pub fn checked_div(&self, a: u32, b: u32) -> (r: Option<u32>)
        requires
            self.wf(),
            self.is_elem(a),
            self.is_elem(b),
        ensures
            r is None <==> b == 0,
            r matches Some(x) ==> self.is_elem(x) && (x * b) % self.modulus() == a as int,
    {
        match self.try_inv(b) {
            None => None,
            Some(ib) => {
                let x = self.mul(a, ib);
                proof {
                    let p = self.p as int;
                    lemma_mul_mod_noop_left(a * ib, b as int, p);
                    assert((a * ib) * b == a * (ib * b)) by (nonlinear_arith);
                    assert(ib * b == b * ib) by (nonlinear_arith);
                    lemma_mul_mod_noop_right(a as int, ib * b, p);
                    lemma_small_mod(a as nat, p as nat);
                }
                Some(x)
            },
        }
    }
}

proof fn lemma_bezout_step(p: int, a: int, old_r: int, r: int, old_s: int, s: int, q: int, new_s: int)
    requires
        p > 0,
        (old_r - old_s * a) % p == 0,
        (r - s * a) % p == 0,
        (new_s - (old_s - q * s)) % p == 0,
    ensures
        ((old_r - q * r) - new_s * a) % p == 0,
{
    let k1 = (old_r - old_s * a) / p;
    let k2 = (r - s * a) / p;
    let k3 = (new_s - (old_s - q * s)) / p;
    lemma_fundamental_div_mod(old_r - old_s * a, p);
    lemma_fundamental_div_mod(r - s * a, p);
    lemma_fundamental_div_mod(new_s - (old_s - q * s), p);
    let k = k1 - q * k2 - k3 * a;
    assert((old_r - q * r) - new_s * a == k * p) by (nonlinear_arith)
        requires
            old_r - old_s * a == p * k1,
            r - s * a == p * k2,
            new_s - (old_s - q * s) == p * k3,
            k == k1 - q * k2 - k3 * a,
    ;
    lemma_mod_multiples_basic(k, p);
}

proof fn lemma_divisor_step(old_r: int, r: int, q: int, d: int)
    requires
        d > 0,
        r % d == 0,
    ensures
        (old_r - q * r) % d == old_r % d,
{
    let k = r / d;
    lemma_fundamental_div_mod(r, d);
    assert(old_r - q * r == d * (-(q * k)) + old_r) by (nonlinear_arith)
        requires
            r == d * k,
    ;
    lemma_mod_multiples_vanish(-(q * k), old_r, d);
}

/// Inverse of `a` modulo `p` by the extended Euclidean algorithm.
fn inverse_mod(a: u32, p: u32) -> (r: Option<u32>)
    requires
        0 < a < p,
        p > 1,
    ensures
        r matches Some(x) ==> x < p && (a * x) % (p as int) == 1,
        r is None ==> exists|g: int| g >= 2 && #[trigger] (a as int % g) == 0 && p as int % g == 0,
{
    let pp = p as u64;
    let mut old_r: u64 = a as u64;
    let mut r: u64 = pp;
    let mut old_s: u64 = 1;
    let mut s: u64 = 0;
    proof {
        lemma_small_mod(a as nat, p as nat);
        lemma_small_mod(0, p as nat);
        lemma_mod_self_0(p as int);
    }
    while r != 0
        invariant
            pp == p,
            p > 1,
            0 < a < p,
            0 < old_r <= pp,
            r <= pp,
            old_s < pp,
            s < pp,
            (old_r - old_s * a) % (p as int) == 0,
            (r - s * a) % (p as int) == 0,
            forall|d: int|
                d > 0 ==> ((#[trigger] (old_r as int % d) == 0 && r as int % d == 0) <==> (a as int % d
                    == 0 && p as int % d == 0)),
        decreases r,
    {
        let q = old_r / r;
        let new_r = old_r % r;
        proof {
            assert((q % pp) * s < pp * pp) by (nonlinear_arith)
                requires
                    q % pp < pp,
                    s < pp,
            ;
            assert(pp * pp <= 0xffff_ffff * 0xffff_ffffu64) by (nonlinear_arith)
                requires
                    pp <= 0xffff_ffff,
            ;
        }
        let t = ((q % pp) * s) % pp;
        let new_s = (old_s + pp - t) % pp;
        proof {
            let pi = p as int;
            lemma_fundamental_div_mod(old_r as int, r as int);
            assert(new_r == old_r - q * r) by {
                assert(old_r as int == r * q + new_r) by (nonlinear_arith)
                    requires
                        old_r as int == r * (old_r as int / r as int) + (old_r as int % r as int),
                        q == old_r as int / r as int,
                        new_r == old_r as int % r as int,
                ;
            }
            // t is congruent to q * s
            lemma_mul_mod_noop_left(q as int, s as int, pi);
            assert(t as int == (q * s) % pi);
            // new_s is congruent to old_s - q * s
            lemma_mod_add_multiples_vanish(old_s - t, pi);
            assert(new_s as int == (old_s - t) % pi);
            lemma_sub_mod_noop(old_s as int, t as int, pi);
            lemma_sub_mod_noop(old_s as int, q * s, pi);
            lemma_mod_twice(q * s, pi);
            lemma_mod_twice(old_s as int, pi);
            assert((old_s - t) % pi == (old_s - q * s) % pi);
            lemma_mod_twice(old_s - t, pi);
            lemma_mod_equivalence(new_s as int, old_s - q * s, pi);
            lemma_bezout_step(pi, a as int, old_r as int, r as int, old_s as int, s as int, q as int, new_s as int);
            assert forall|d: int| d > 0 implies ((#[trigger] (r as int % d) == 0 && new_r as int % d == 0) <==> (
            a as int % d == 0 && p as int % d == 0)) by {
                assert((old_r as int % d == 0 && r as int % d == 0) <==> (a as int % d == 0 && p as int % d == 0));
                if r as int % d == 0 {
                    lemma_divisor_step(old_r as int, r as int, q as int, d);
                }
            }
        }
        old_r = r;
        r = new_r;
        old_s = s;
        s = new_s;
    }
    proof {
        assert forall|d: int| d > 0 implies (#[trigger] (old_r as int % d) == 0 <==> (a as int % d == 0
            && p as int % d == 0)) by {
            lemma_small_mod(0, d as nat);
        }
    }
    if old_r == 1 {
        proof {
            let pi = p as int;
            lemma_mod_equivalence(1, old_s * a, pi);
            lemma_small_mod(1, p as nat);
            assert(a * old_s == old_s * a) by (nonlinear_arith);
        }
        Some(old_s as u32)
    } else {
        proof {
            lemma_mod_self_0(old_r as int);
            assert(a as int % (old_r as int) == 0);
        }
        None
    }
}

/// For prime `p` and `0 < a < p`, no `g >= 2` divides both `a` and `p`.
proof fn lemma_prime_coprime(a: int, p: int, g: int)
    requires
        is_prime(p),
        0 < a < p,
        g >= 2,
    ensures
        !(a % g == 0 && p % g == 0),
{
    if !(a % g == 0 && p % g == 0) {
    } else if g < p {
        assert(p % g != 0);
    } else {
        lemma_small_mod(a as nat, g as nat);
    }
}

/// Multiplying a nonzero residue by a unit gives a nonzero residue.
pub proof fn lemma_mul_unit_nonzero(m: int, a: int, c: int, b: int)
    requires
        m > 1,
        0 < a < m,
        (c * b) % m == 1,
    ensures
        (a * c) % m != 0,
{
    lemma_mul_mod_noop_left(a * c, b, m);
    vstd::arithmetic::mul::lemma_mul_is_associative(a, c, b);
    lemma_mul_mod_noop_right(a, c * b, m);
    lemma_small_mod(a as nat, m as nat);
    if (a * c) % m == 0 {
        assert(((a * c) % m) * b == 0);
        lemma_small_mod(0, m as nat);
        assert((a * 1) % m == a);
    }
}

} // verus!
