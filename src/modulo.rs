//! Elements of the integers modulo `n`; a field when `n` is prime.
use crate::number_theory::{is_prime, lemma_fermat};
use vstd::arithmetic::div_mod::*;
use vstd::arithmetic::power::{
    lemma_pow0, lemma_pow1, lemma_pow_adds, lemma_pow_mod_noop, lemma_pow_multiplies,
    lemma_square_is_pow2, pow as int_pow,
};
use vstd::prelude::*;

verus! {

/// A residue `v` modulo `n`, kept normalized into `0 <= v < n`.
#[derive(Clone, Copy, Debug, PartialEq, Eq, Structural)]
pub struct Field {
    pub v: u32,
    pub n: u32,
}

impl Field {
    /// The value lies in `[0, n)` and the modulus is positive.
    pub open spec fn wf(self) -> bool {
        0 < self.n && self.v < self.n
    }

    /// The element `value mod modulus`.
    pub open spec fn of(value: int, modulus: int) -> Field {
        Field { v: (value % modulus) as u32, n: modulus as u32 }
    }

    pub open spec fn add_spec(self, o: Field) -> Field {
        Field::of(self.v + o.v, self.n as int)
    }

    pub open spec fn sub_spec(self, o: Field) -> Field {
        Field::of(self.v - o.v, self.n as int)
    }

    pub open spec fn mul_spec(self, o: Field) -> Field {
        Field::of(self.v * o.v, self.n as int)
    }

    pub open spec fn neg_spec(self) -> Field {
        Field::of(-self.v, self.n as int)
    }

    /// `self` multiplied by the integer `k`.
    pub open spec fn scale_spec(self, k: int) -> Field {
        Field::of(self.v * k, self.n as int)
    }

    /// The inverse by Fermat's little theorem, `v^(n-2) mod n`; for `n <= 2`
    /// each element is its own inverse (`0` maps to `0`).
    pub open spec fn inv_spec(self) -> Field {
        if self.n <= 2 {
            self
        } else {
            Field::of(int_pow(self.v as int, (self.n - 2) as nat), self.n as int)
        }
    }

    pub open spec fn div_spec(self, o: Field) -> Field {
        self.mul_spec(o.inv_spec())
    }

    /// Builds `value mod modulus`; a negative `value` lands in `[0, modulus)` too.
    pub fn new(value: i64, modulus: u32) -> (r: Field)
        requires
            modulus > 0,
        ensures
            r.wf(),
            r == Field::of(value as int, modulus as int),
    {
        let v = value.checked_rem_euclid(modulus as i64).unwrap();
        Field { v: v as u32, n: modulus }
    }

    /// `self + o (mod n)`.
    pub fn add(&self, o: &Field) -> (r: Field)
        requires
            self.wf(),
            o.wf(),
            self.n == o.n,
        ensures
            r.wf(),
            r == self.add_spec(*o),
    {
        let s = self.v as u64 + o.v as u64;
        Field { v: (s % self.n as u64) as u32, n: self.n }
    }

    /// `self - o (mod n)`.
    pub fn sub(&self, o: &Field) -> (r: Field)
        requires
            self.wf(),
            o.wf(),
            self.n == o.n,
        ensures
            r.wf(),
            r == self.sub_spec(*o),
    {
        let s = self.v as u64 + self.n as u64 - o.v as u64;
        proof {
            lemma_mod_add_multiples_vanish(self.v - o.v, self.n as int);
        }
        Field { v: (s % self.n as u64) as u32, n: self.n }
    }

    /// `self * o (mod n)`.
    pub fn mul(&self, o: &Field) -> (r: Field)
        requires
            self.wf(),
            o.wf(),
            self.n == o.n,
        ensures
            r.wf(),
            r == self.mul_spec(*o),
    {
        proof {
            lemma_product_fits(self.v as int, o.v as int, self.n as int);
        }
        let s = self.v as u64 * o.v as u64;
        Field { v: (s % self.n as u64) as u32, n: self.n }
    }

    /// `-self (mod n)`.
    pub fn neg(&self) -> (r: Field)
        requires
            self.wf(),
        ensures
            r.wf(),
            r == self.neg_spec(),
    {
        let s = self.n as u64 - self.v as u64;
        proof {
            lemma_mod_add_multiples_vanish(-self.v, self.n as int);
        }
        Field { v: (s % self.n as u64) as u32, n: self.n }
    }

    /// `self * k (mod n)` for a non-negative integer `k`.
    pub fn scale(&self, k: u64) -> (r: Field)
        requires
            self.wf(),
        ensures
            r.wf(),
            r == self.scale_spec(k as int),
    {
        let n = self.n as u64;
        let k1 = k % n;
        proof {
            lemma_mul_mod_noop_right(self.v as int, k as int, n as int);
            lemma_product_fits(self.v as int, k1 as int, self.n as int);
        }
        let s = self.v as u64 * k1;
        Field { v: (s % n) as u32, n: self.n }
    }

    /// The multiplicative inverse, `v^(n-2) mod n` by square-and-multiply.
    pub fn invert(&self) -> (r: Field)
        requires
            self.wf(),
        ensures
            r.wf(),
            r == self.inv_spec(),
    {
        if self.n <= 2 {
            *self
        } else {
            let v = pow(self.v as u64, (self.n - 2) as u64, self.n as u64);
            Field { v: v as u32, n: self.n }
        }
    }

    /// `self / o`, that is `self * o^-1 (mod n)`.
    pub fn div(&self, o: &Field) -> (r: Field)
        requires
            self.wf(),
            o.wf(),
            self.n == o.n,
        ensures
            r.wf(),
            r == self.div_spec(*o),
    {
        let i = o.invert();
        self.mul(&i)
    }
}

proof fn lemma_product_fits(a: int, b: int, m: int)
    requires
        0 <= a < m,
        0 <= b < m,
        m <= 0x1_0000_0000,
    ensures
        0 <= a * b < 0x1_0000_0000_0000_0000,
{
    assert(0 <= a * b < 0x1_0000_0000_0000_0000) by (nonlinear_arith)
        requires
            0 <= a < m,
            0 <= b < m,
            m <= 0x1_0000_0000,
    ;
}

proof fn lemma_pow_step(acc: int, b: int, e: nat, p: int)
    requires
        p > 0,
    ensures
        (acc * int_pow(b, e)) % p == ((if e % 2 == 1 {
            (acc * b) % p
        } else {
            acc
        }) * int_pow((b * b) % p, e / 2)) % p,
{
    let h = e / 2;
    let x = int_pow(b * b, h);
    lemma_pow_adds(b, e % 2, 2 * h);
    lemma_pow_multiplies(b, 2, h);
    lemma_square_is_pow2(b);
    lemma_pow_mod_noop(b * b, h, p);
    let x1 = int_pow((b * b) % p, h);
    if e % 2 == 1 {
        lemma_pow1(b);
        lemma_mul_mod_noop_left(acc * b, x1, p);
        lemma_mul_mod_noop_right(acc * b, x1, p);
        lemma_mul_mod_noop_right(acc * b, x, p);
        vstd::arithmetic::mul::lemma_mul_is_associative(acc, b, x);
    } else {
        lemma_pow0(b);
        lemma_mul_mod_noop_right(acc, x1, p);
        lemma_mul_mod_noop_right(acc, x, p);
    }
}

/// `base^exp mod p`, by square-and-multiply.
fn pow(base: u64, exp: u64, p: u64) -> (r: u64)
    requires
        1 < p <= 0x1_0000_0000,
        base < p,
    ensures
        r == int_pow(base as int, exp as nat) % (p as int),
        r < p,
{
    let mut acc: u64 = 1;
    let mut b: u64 = base;
    let mut e: u64 = exp;
    proof {
        lemma_small_mod(1, p as nat);
    }
    while e > 0
        invariant
            1 < p <= 0x1_0000_0000,
            b < p,
            acc < p,
            (acc * int_pow(b as int, e as nat)) % (p as int) == int_pow(base as int, exp as nat) % (p as int),
        decreases e,
    {
        proof {
            lemma_pow_step(acc as int, b as int, e as nat, p as int);
            lemma_product_fits(acc as int, b as int, p as int);
            lemma_product_fits(b as int, b as int, p as int);
        }
        if e % 2 == 1 {
            acc = acc * b % p;
        }
        b = b * b % p;
        e = e / 2;
    }
    proof {
        lemma_pow0(b as int);
        lemma_small_mod(acc as nat, p as nat);
    }
    acc
}

/// For a prime modulus, every non-zero element times its inverse is one.
pub proof fn lemma_mul_inverse(x: Field)
    requires
        x.wf(),
        is_prime(x.n as int),
        x.v != 0,
    ensures
        x.mul_spec(x.inv_spec()).v == 1,
        x.mul_spec(x.inv_spec()) == Field::of(1, x.n as int),
{
    let p = x.n as int;
    let v = x.v as int;
    lemma_small_mod(x.v as nat, x.n as nat);
    lemma_small_mod(1, x.n as nat);
    lemma_fermat(v, p);
    if p == 2 {
        assert(v == 1);
    } else {
        let e = int_pow(v, (p - 2) as nat);
        lemma_pow_adds(v, 1, (p - 2) as nat);
        lemma_pow1(v);
        lemma_mul_mod_noop_right(v, e, p);
    }
}

} // verus!
