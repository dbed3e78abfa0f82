//! Monomials as exponent vectors over a fixed number of variables.

use vstd::prelude::*;

verus! {

/// Errors raised by monomial arithmetic.
#[derive(Debug, Clone, Copy, PartialEq, Eq, Structural)]
pub enum MonomialError {
    /// The two monomials live in rings with a different number of variables.
    VariableCountMismatch,
    /// An exponent or a total degree does not fit in `u32`.
    ExponentOverflow,
    /// Exact division was requested but the divisor does not divide.
    NotDivisible,
}

/// A monomial `x_0^e_0 * ... * x_{n-1}^e_{n-1}`, stored as its exponent vector.
#[derive(Debug, Clone, PartialEq, Eq, Hash)]
pub struct Monomial {
    exps: Vec<u32>,
}

impl View for Monomial {
    type V = Seq<u32>;

    closed spec fn view(&self) -> Seq<u32> {
        self.exps@
    }
}

/// Sum of the exponents of `s`.
pub open spec fn exp_sum(s: Seq<u32>) -> int
    decreases s.len(),
{
    if s.len() == 0 {
        0
    } else {
        exp_sum(s.drop_last()) + s.last()
    }
}

/// `a` divides `b`: same variable count and every exponent of `a` is at most that of `b`.
pub open spec fn spec_divides(a: Seq<u32>, b: Seq<u32>) -> bool {
    &&& a.len() == b.len()
    &&& forall|i: int| 0 <= i < a.len() ==> a[i] <= b[i]
}

/// Exponent-wise maximum.
pub open spec fn spec_lcm(a: Seq<u32>, b: Seq<u32>) -> Seq<u32> {
    Seq::new(a.len(), |i: int| if a[i] >= b[i] { a[i] } else { b[i] })
}

/// Exponent-wise sum, when it fits.
pub open spec fn spec_mul(a: Seq<u32>, b: Seq<u32>) -> Seq<u32> {
    Seq::new(a.len(), |i: int| (a[i] + b[i]) as u32)
}

/// The product `a * b` has no exponent overflow.
pub open spec fn mul_fits(a: Seq<u32>, b: Seq<u32>) -> bool {
    forall|i: int| 0 <= i < a.len() ==> a[i] + b[i] <= u32::MAX
}

/// Exponent-wise difference `t - d`, the quotient `t / d` when `d` divides `t`.
pub open spec fn spec_quotient(d: Seq<u32>, t: Seq<u32>) -> Seq<u32> {
    Seq::new(t.len(), |i: int| (t[i] - d[i]) as u32)
}

/// No variable occurs in both monomials.
pub open spec fn spec_coprime(a: Seq<u32>, b: Seq<u32>) -> bool {
    forall|i: int| 0 <= i < a.len() && i < b.len() ==> a[i] == 0 || b[i] == 0
}

/// The constant monomial `1` in `n` variables.
pub open spec fn spec_one(n: nat) -> Seq<u32> {
    Seq::new(n, |i: int| 0u32)
}

pub proof fn lemma_exp_sum_nonneg(s: Seq<u32>)
    ensures
        exp_sum(s) >= 0,
    decreases s.len(),
{
    if s.len() > 0 {
        lemma_exp_sum_nonneg(s.drop_last());
    }
}

impl Monomial {
    /// Builds a monomial from its exponent vector.
    pub fn from_vec(exps: Vec<u32>) -> (m: Monomial)
        ensures
            m@ == exps@,
    {
        Monomial { exps }
    }

    /// Builds a monomial from a slice of exponents.
    pub fn from_slice(exps: &[u32]) -> (m: Monomial)
        ensures
            m@ == exps@,
    {
        let mut v: Vec<u32> = Vec::new();
        let mut i: usize = 0;
        while i < exps.len()
            invariant
                i <= exps@.len(),
                v@ == exps@.subrange(0, i as int),
            decreases exps@.len() - i,
        {
            v.push(exps[i]);
            i += 1;
        }
        Monomial { exps: v }
    }

    /// The constant monomial `1` in `nvars` variables.
    pub fn one(nvars: usize) -> (m: Monomial)
        ensures
            m@ == spec_one(nvars as nat),
    {
        let mut v: Vec<u32> = Vec::new();
        let mut i: usize = 0;
        while i < nvars
            invariant
                i <= nvars,
                v@ == spec_one(i as nat),
            decreases nvars - i,
        {
            v.push(0);
            i += 1;
        }
        Monomial { exps: v }
    }

    /// Number of variables.
    pub fn n_vars(&self) -> (n: usize)
        ensures
            n == self@.len(),
    {
        self.exps.len()
    }

    /// Borrows the exponent vector.
    pub fn exponents(&self) -> (s: &[u32])
        ensures
            s@ == self@,
    {
        self.exps.as_slice()
    }

    /// Exponent of variable `i`.
    pub fn exponent(&self, i: usize) -> (e: u32)
        requires
            i < self@.len(),
        ensures
            e == self@[i as int],
    {
        self.exps[i]
    }

    /// A copy with the same exponents.
    pub fn duplicate(&self) -> (m: Monomial)
        ensures
            m@ == self@,
    {
        Monomial::from_slice(self.exps.as_slice())
    }

    /// Structural equality of exponent vectors.
    pub fn same(&self, other: &Monomial) -> (b: bool)
        ensures
            b == (self@ == other@),
    {
        if self.exps.len() != other.exps.len() {
            return false;
        }
        let mut i: usize = 0;
        while i < self.exps.len()
            invariant
                self@.len() == other@.len(),
                i <= self@.len(),
                forall|k: int| 0 <= k < i ==> self@[k] == other@[k],
            decreases self@.len() - i,
        {
            if self.exps[i] != other.exps[i] {
                return false;
            }
            i += 1;
        }
        assert(self@ =~= other@);
        true
    }

    /// Total degree, or `None` when it does not fit in `u32`.
    pub fn total_degree(&self) -> (d: Option<u32>)
        ensures
            d matches Some(v) ==> v == exp_sum(self@),
            d is None ==> exp_sum(self@) > u32::MAX,
    {
        let mut acc: u32 = 0;
        let mut i: usize = 0;
        while i < self.exps.len()
            invariant
                i <= self@.len(),
                acc == exp_sum(self@.subrange(0, i as int)),
            decreases self@.len() - i,
        {
            assert(self@.subrange(0, i + 1).drop_last() =~= self@.subrange(0, i as int));
            match acc.checked_add(self.exps[i]) {
                Some(v) => {
                    acc = v;
                },
                None => {
                    proof {
                        lemma_exp_sum_prefix_monotone(self@, i + 1);
                    }
                    return None;
                },
            }
            i += 1;
        }
        assert(self@.subrange(0, self@.len() as int) =~= self@);
        Some(acc)
    }
}

/// The sum over a prefix never exceeds the sum over the whole sequence.
pub proof fn lemma_exp_sum_prefix_monotone(s: Seq<u32>, k: int)
    requires
        0 <= k <= s.len(),
    ensures
        exp_sum(s.subrange(0, k)) <= exp_sum(s),
    decreases s.len(),
{
    if k < s.len() {
        assert(s.drop_last() =~= s.subrange(0, s.len() - 1));
        if k < s.len() - 1 {
            lemma_exp_sum_prefix_monotone(s.drop_last(), k);
            assert(s.drop_last().subrange(0, k) =~= s.subrange(0, k));
        } else {
            assert(s.subrange(0, k) =~= s.drop_last());
        }
    } else {
        assert(s.subrange(0, k) =~= s);
    }
}

/// `a` divides `b` (false when the variable counts differ).
pub fn divides(a: &Monomial, b: &Monomial) -> (r: bool)
    ensures
        r == spec_divides(a@, b@),
{
    if a.exps.len() != b.exps.len() {
        return false;
    }
    let mut i: usize = 0;
    while i < a.exps.len()
        invariant
            a@.len() == b@.len(),
            i <= a@.len(),
            forall|k: int| 0 <= k < i ==> a@[k] <= b@[k],
        decreases a@.len() - i,
    {
        if a.exps[i] > b.exps[i] {
            return false;
        }
        i += 1;
    }
    true
}

/// Least common multiple of two monomials.
pub fn checked_lcm(a: &Monomial, b: &Monomial) -> (r: Result<Monomial, MonomialError>)
    ensures
        a@.len() != b@.len() ==> r == Err::<Monomial, MonomialError>(MonomialError::VariableCountMismatch),
        a@.len() == b@.len() ==> (r matches Ok(m) && m@ == spec_lcm(a@, b@)),
{
    if a.exps.len() != b.exps.len() {
        return Err(MonomialError::VariableCountMismatch);
    }
    let mut v: Vec<u32> = Vec::new();
    let mut i: usize = 0;
    while i < a.exps.len()
        invariant
            a@.len() == b@.len(),
            i <= a@.len(),
            v@ == spec_lcm(a@, b@).subrange(0, i as int),
        decreases a@.len() - i,
    {
        let x = a.exps[i];
        let y = b.exps[i];
        v.push(if x >= y { x } else { y });
        i += 1;
    }
    Ok(Monomial { exps: v })
}

/// Total degree of the least common multiple of two monomials.
pub fn checked_lcm_degree(a: &Monomial, b: &Monomial) -> (r: Result<u32, MonomialError>)
    ensures
        a@.len() != b@.len() ==> r == Err::<u32, MonomialError>(MonomialError::VariableCountMismatch),
        a@.len() == b@.len() && exp_sum(spec_lcm(a@, b@)) > u32::MAX ==> r == Err::<u32, MonomialError>(MonomialError::ExponentOverflow),
        a@.len() == b@.len() && exp_sum(spec_lcm(a@, b@)) <= u32::MAX ==> r == Ok::<u32, MonomialError>(exp_sum(spec_lcm(a@, b@)) as u32),
{
    let l = checked_lcm(a, b)?;
    match l.total_degree() {
        Some(d) => Ok(d),
        None => Err(MonomialError::ExponentOverflow),
    }
}

/// Exponent-wise product of two monomials.
pub fn checked_mul(a: &Monomial, b: &Monomial) -> (r: Result<Monomial, MonomialError>)
    ensures
        a@.len() != b@.len() ==> r == Err::<Monomial, MonomialError>(MonomialError::VariableCountMismatch),
        a@.len() == b@.len() && !mul_fits(a@, b@) ==> r == Err::<Monomial, MonomialError>(MonomialError::ExponentOverflow),
        a@.len() == b@.len() && mul_fits(a@, b@) ==> (r matches Ok(m) && m@ == spec_mul(a@, b@)),
{
    if a.exps.len() != b.exps.len() {
        return Err(MonomialError::VariableCountMismatch);
    }
    let mut v: Vec<u32> = Vec::new();
    let mut i: usize = 0;
    while i < a.exps.len()
        invariant
            a@.len() == b@.len(),
            i <= a@.len(),
            v@ == spec_mul(a@, b@).subrange(0, i as int),
            forall|k: int| 0 <= k < i ==> a@[k] + b@[k] <= u32::MAX,
        decreases a@.len() - i,
    {
        match a.exps[i].checked_add(b.exps[i]) {
            Some(e) => v.push(e),
            None => return Err(MonomialError::ExponentOverflow),
        }
        i += 1;
    }
    Ok(Monomial { exps: v })
}

/// Quotient `t / d` when `d` divides `t`, `None` when it does not.
pub fn checked_quotient(d: &Monomial, t: &Monomial) -> (r: Result<Option<Monomial>, MonomialError>)
    ensures
        d@.len() != t@.len() ==> r == Err::<Option<Monomial>, MonomialError>(MonomialError::VariableCountMismatch),
        d@.len() == t@.len() && !spec_divides(d@, t@) ==> r == Ok::<Option<Monomial>, MonomialError>(None),
        d@.len() == t@.len() && spec_divides(d@, t@) ==> (r matches Ok(Some(q)) && q@ == spec_quotient(d@, t@)),
{
    if d.exps.len() != t.exps.len() {
        return Err(MonomialError::VariableCountMismatch);
    }
    if !divides(d, t) {
        return Ok(None);
    }
    let mut v: Vec<u32> = Vec::new();
    let mut i: usize = 0;
    while i < t.exps.len()
        invariant
            spec_divides(d@, t@),
            i <= t@.len(),
            v@ == spec_quotient(d@, t@).subrange(0, i as int),
        decreases t@.len() - i,
    {
        v.push(t.exps[i] - d.exps[i]);
        i += 1;
    }
    Ok(Some(Monomial { exps: v }))
}

/// Exact quotient `t / d`; fails when `d` does not divide `t`.
pub fn checked_div_exact(d: &Monomial, t: &Monomial) -> (r: Result<Monomial, MonomialError>)
    ensures
        d@.len() != t@.len() ==> r == Err::<Monomial, MonomialError>(MonomialError::VariableCountMismatch),
        d@.len() == t@.len() && !spec_divides(d@, t@) ==> r == Err::<Monomial, MonomialError>(MonomialError::NotDivisible),
        spec_divides(d@, t@) ==> (r matches Ok(q) && q@ == spec_quotient(d@, t@)),
{
    match checked_quotient(d, t)? {
        Some(q) => Ok(q),
        None => Err(MonomialError::NotDivisible),
    }
}

/// The two monomials share no variable.
pub fn gcd_is_one(a: &Monomial, b: &Monomial) -> (r: bool)
    ensures
        r == spec_coprime(a@, b@),
{
    let n = if a.exps.len() < b.exps.len() { a.exps.len() } else { b.exps.len() };
    let mut i: usize = 0;
    while i < n
        invariant
            n <= a@.len(),
            n <= b@.len(),
            n == a@.len() || n == b@.len(),
            i <= n,
            forall|k: int| 0 <= k < i ==> a@[k] == 0 || b@[k] == 0,
        decreases n - i,
    {
        if a.exps[i] != 0 && b.exps[i] != 0 {
            return false;
        }
        i += 1;
    }
    true
}

} // verus!
