//! Facts of elementary number theory used by the field arithmetic:
//! Bézout's identity, Euclid's lemma and Fermat's little theorem.
use vstd::arithmetic::div_mod::*;
use vstd::arithmetic::mul::*;
use vstd::arithmetic::power::*;
use vstd::prelude::*;

verus! {

/// `p` is a prime number.
pub open spec fn is_prime(p: int) -> bool {
    &&& p > 1
    &&& forall|d: int| 1 < d < p ==> #[trigger] (p % d) != 0
}

/// Greatest common divisor, by Euclid's algorithm.
pub open spec fn gcd(a: nat, b: nat) -> nat
    decreases b,
{
    if b == 0 {
        a
    } else {
        gcd(b, a % b)
    }
}

/// Coefficients `(x, y)` with `a * x + b * y == gcd(a, b)`.
pub open spec fn bezout(a: nat, b: nat) -> (int, int)
    decreases b,
{
    if b == 0 {
        (1, 0)
    } else {
        let c = bezout(b, a % b);
        (c.1, c.0 - (a / b) * c.1)
    }
}

proof fn lemma_divides_combination(x: int, y: int, k: int, g: int)
    requires
        g > 0,
        x % g == 0,
        y % g == 0,
    ensures
        (k * x + y) % g == 0,
{
    lemma_fundamental_div_mod(x, g);
    lemma_fundamental_div_mod(y, g);
    assert(k * x + y == g * (k * (x / g) + y / g)) by (nonlinear_arith)
        requires
            x == g * (x / g) + x % g,
            y == g * (y / g) + y % g,
            x % g == 0,
            y % g == 0,
    ;
    lemma_mod_multiples_basic(k * (x / g) + y / g, g);
    lemma_mul_is_commutative(g, k * (x / g) + y / g);
}

/// Bézout's identity, and that the gcd divides both arguments.
pub proof fn lemma_bezout(a: nat, b: nat)
    ensures
        a * bezout(a, b).0 + b * bezout(a, b).1 == gcd(a, b),
        a > 0 || b > 0 ==> gcd(a, b) > 0,
        gcd(a, b) > 0 ==> a % gcd(a, b) == 0 && b % gcd(a, b) == 0,
    decreases b,
{
    if b == 0 {
        if a > 0 {
            lemma_mod_self_0(a as int);
        }
    } else {
        let r = a % b;
        lemma_bezout(b, r);
        let c = bezout(b, r);
        let q = a / b;
        lemma_fundamental_div_mod(a as int, b as int);
        assert(a * c.1 + b * (c.0 - q * c.1) == b * c.0 + r * c.1) by (nonlinear_arith)
            requires
                a == b * q + r,
        ;
        let g = gcd(a, b) as int;
        lemma_divides_combination(b as int, r as int, q as int, g);
        lemma_mul_is_commutative(b as int, q as int);
    }
}

/// A number strictly between zero and a prime `p` shares no factor with `p`.
pub proof fn lemma_gcd_with_prime(a: nat, p: nat)
    requires
        is_prime(p as int),
        0 < a < p,
    ensures
        gcd(a, p) == 1,
{
    lemma_bezout(a, p);
    let g = gcd(a, p);
    if g > a {
        lemma_small_mod(a, g);
    }
    if g > 1 {
        assert((p as int) % (g as int) != 0);
    }
}

/// Euclid's lemma: a prime that divides a product divides one of its factors.
pub proof fn lemma_euclid(a: int, b: int, p: int)
    requires
        is_prime(p),
        (a * b) % p == 0,
        a % p != 0,
    ensures
        b % p == 0,
{
    let a1 = a % p;
    lemma_mod_bound(a, p);
    lemma_gcd_with_prime(a1 as nat, p as nat);
    lemma_bezout(a1 as nat, p as nat);
    let c = bezout(a1 as nat, p as nat);
    lemma_mul_mod_noop_left(a, b, p);
    assert(b == (a1 * b) * c.0 + p * (b * c.1)) by (nonlinear_arith)
        requires
            a1 * c.0 + p * c.1 == 1,
    ;
    lemma_divides_combination(a1 * b, 0, c.0, p);
    lemma_mul_is_commutative(c.0, a1 * b);
    lemma_mod_multiples_vanish(b * c.1, (a1 * b) * c.0, p);
}

/// Binomial coefficient, by Pascal's rule.
pub open spec fn binom(n: nat, k: nat) -> nat
    decreases n,
{
    if k == 0 {
        1
    } else if n == 0 {
        0
    } else {
        binom((n - 1) as nat, (k - 1) as nat) + binom((n - 1) as nat, k)
    }
}

proof fn lemma_binom_absorption(n: nat, k: nat)
    requires
        1 <= k,
        1 <= n,
    ensures
        k * binom(n, k) == n * binom((n - 1) as nat, (k - 1) as nat),
    decreases n,
{
    if n == 1 {
        if k > 1 {
            assert(binom(0, (k - 1) as nat) == 0);
            assert(binom(0, k) == 0);
            assert(binom(1, k) == 0);
        } else {
            assert(binom(0, 0) == 1);
            assert(binom(0, 1) == 0);
            assert(binom(1, 1) == 1);
        }
    } else {
        let n1 = (n - 1) as nat;
        let k1 = (k - 1) as nat;
        lemma_binom_absorption(n1, k);
        if k == 1 {
            assert(binom(n1, 0) == 1);
            assert(binom((n - 2) as nat, 0) == 1);
            assert(binom(n, 1) == binom(n1, 0) + binom(n1, 1));
            assert(binom(n1, 1) == n1) by (nonlinear_arith)
                requires
                    1 * binom(n1, 1) == n1 * binom((n - 2) as nat, 0),
                    binom((n - 2) as nat, 0) == 1,
            ;
            assert(binom(n, 1) == n);
        } else {
            let n2 = (n - 2) as nat;
            let k2 = (k - 2) as nat;
            lemma_binom_absorption(n1, k1);
            assert(binom(n1, k1) == binom(n2, k2) + binom(n2, k1));
            assert(k * binom(n, k) == n * binom(n1, k1)) by (nonlinear_arith)
                requires
                    binom(n, k) == binom(n1, k1) + binom(n1, k),
                    k * binom(n1, k) == n1 * binom(n2, k1),
                    k1 * binom(n1, k1) == n1 * binom(n2, k2),
                    binom(n1, k1) == binom(n2, k2) + binom(n2, k1),
                    k1 == k - 1,
                    n1 == n - 1,
            ;
        }
    }
}

proof fn lemma_binom_prime(p: nat, k: nat)
    requires
        is_prime(p as int),
        0 < k < p,
    ensures
        binom(p, k) % p == 0,
{
    lemma_binom_absorption(p, k);
    let b = binom((p - 1) as nat, (k - 1) as nat) as int;
    lemma_mod_multiples_basic(b, p as int);
    lemma_mul_is_commutative(b, p as int);
    lemma_small_mod(k, p);
    lemma_euclid(k as int, binom(p, k) as int, p as int);
}

proof fn lemma_binom_above(n: nat, k: nat)
    requires
        k > n,
    ensures
        binom(n, k) == 0,
    decreases n,
{
    if n > 0 {
        lemma_binom_above((n - 1) as nat, (k - 1) as nat);
        lemma_binom_above((n - 1) as nat, k);
    }
}

/// The partial binomial sum `sum(k <= m) binom(n, k) * x^k`.
pub open spec fn binom_sum(n: nat, x: int, m: nat) -> int
    decreases m,
{
    if m == 0 {
        1
    } else {
        binom_sum(n, x, (m - 1) as nat) + binom(n, m) * pow(x, m)
    }
}

proof fn lemma_binom_sum_step(n: nat, x: int, m: nat)
    requires
        m >= 1,
    ensures
        binom_sum(n + 1, x, m) == binom_sum(n, x, m) + x * binom_sum(n, x, (m - 1) as nat),
    decreases m,
{
    reveal(pow);
    let m1 = (m - 1) as nat;
    assert(binom((n + 1) as nat, m) == binom(n, m1) + binom(n, m));
    assert(pow(x, m) == x * pow(x, m1));
    if m == 1 {
        assert(pow(x, 0) == 1);
        assert(binom(n, 0) == 1);
        assert(binom_sum(n + 1, x, 0) == 1);
        assert(binom_sum(n, x, 0) == 1);
        assert(binom_sum(n + 1, x, 1) == binom_sum(n, x, 1) + x * binom_sum(n, x, 0)) by (nonlinear_arith)
            requires
                binom_sum(n + 1, x, 1) == 1 + binom((n + 1) as nat, 1) * pow(x, 1),
                binom_sum(n, x, 1) == 1 + binom(n, 1) * pow(x, 1),
                binom_sum(n, x, 0) == 1,
                binom((n + 1) as nat, 1) == 1 + binom(n, 1),
                pow(x, 1) == x,
        ;
    } else {
        let m2 = (m - 2) as nat;
        lemma_binom_sum_step(n, x, m1);
        assert(binom_sum(n + 1, x, m) == binom_sum(n, x, m) + x * binom_sum(n, x, m1)) by (nonlinear_arith)
            requires
                binom_sum(n + 1, x, m) == binom_sum(n + 1, x, m1) + binom((n + 1) as nat, m) * pow(x, m),
                binom_sum(n + 1, x, m1) == binom_sum(n, x, m1) + x * binom_sum(n, x, m2),
                binom((n + 1) as nat, m) == binom(n, m1) + binom(n, m),
                pow(x, m) == x * pow(x, m1),
                binom_sum(n, x, m) == binom_sum(n, x, m1) + binom(n, m) * pow(x, m),
                binom_sum(n, x, m1) == binom_sum(n, x, m2) + binom(n, m1) * pow(x, m1),
        ;
    }
}

proof fn lemma_binom_sum_full(n: nat, x: int, m: nat)
    requires
        m >= n,
    ensures
        binom_sum(n, x, m) == binom_sum(n, x, n),
    decreases m,
{
    if m > n {
        lemma_binom_above(n, m);
        lemma_binom_sum_full(n, x, (m - 1) as nat);
    }
}

/// The binomial theorem for `(x + 1)^n`.
proof fn lemma_binomial_theorem(n: nat, x: int)
    ensures
        pow(x + 1, n) == binom_sum(n, x, n),
    decreases n,
{
    reveal(pow);
    if n > 0 {
        let n1 = (n - 1) as nat;
        lemma_binomial_theorem(n1, x);
        lemma_binom_sum_step(n1, x, n);
        lemma_binom_sum_full(n1, x, n);
        assert(pow(x + 1, n) == (x + 1) * pow(x + 1, n1));
        assert(pow(x + 1, n) == binom_sum(n, x, n)) by (nonlinear_arith)
            requires
                pow(x + 1, n) == (x + 1) * pow(x + 1, n1),
                pow(x + 1, n1) == binom_sum(n1, x, n1),
                binom_sum(n, x, n) == binom_sum(n1, x, n) + x * binom_sum(n1, x, n1),
                binom_sum(n1, x, n) == binom_sum(n1, x, n1),
        ;
    }
}

proof fn lemma_binom_sum_prime(p: nat, x: int, m: nat)
    requires
        is_prime(p as int),
        m < p,
    ensures
        binom_sum(p, x, m) % (p as int) == 1,
    decreases m,
{
    if m == 0 {
        lemma_small_mod(1, p);
    } else {
        let m1 = (m - 1) as nat;
        lemma_binom_sum_prime(p, x, m1);
        lemma_binom_prime(p, m);
        let t = binom(p, m) * pow(x, m);
        lemma_mul_mod_noop_left(binom(p, m) as int, pow(x, m), p as int);
        assert(0 * pow(x, m) == 0);
        lemma_small_mod(0, p);
        assert(t % (p as int) == 0);
        lemma_add_mod_noop(binom_sum(p, x, m1), t, p as int);
        lemma_small_mod(1, p);
    }
}

/// Fermat's little theorem in the form `x^p == x (mod p)`.
proof fn lemma_pow_prime_fixes(x: nat, p: nat)
    requires
        is_prime(p as int),
    ensures
        pow(x as int, p) % (p as int) == (x as int) % (p as int),
    decreases x,
{
    reveal(pow);
    let pi = p as int;
    if x == 0 {
        lemma0_pow(p);
    } else {
        let x1 = (x - 1) as nat;
        let p1 = (p - 1) as nat;
        lemma_pow_prime_fixes(x1, p);
        lemma_binomial_theorem(p, x1 as int);
        lemma_binom_sum_prime(p, x1 as int, p1);
        assert(binom(p, p) == 1) by {
            lemma_binom_absorption(p, p);
            lemma_binom_above(p1, p);
            assert(binom(p, p) == binom(p1, p1) + binom(p1, p));
            if p1 > 0 {
                lemma_binom_self(p1);
            }
        }
        assert(binom_sum(p, x1 as int, p) == binom_sum(p, x1 as int, p1) + pow(x1 as int, p));
        lemma_add_mod_noop(binom_sum(p, x1 as int, p1), pow(x1 as int, p), pi);
        lemma_add_mod_noop(1, x1 as int, pi);
        lemma_small_mod(1, p);
    }
}

proof fn lemma_binom_self(n: nat)
    ensures
        binom(n, n) == 1,
    decreases n,
{
    if n > 0 {
        lemma_binom_self((n - 1) as nat);
        lemma_binom_above((n - 1) as nat, n);
    }
}

/// Fermat's little theorem: `x^(p-1) == 1 (mod p)` for `x` not divisible by a prime `p`.
pub proof fn lemma_fermat(x: int, p: int)
    requires
        is_prime(p),
        x % p != 0,
    ensures
        pow(x, (p - 1) as nat) % p == 1,
{
    reveal(pow);
    let x0 = x % p;
    lemma_mod_bound(x, p);
    lemma_pow_mod_noop(x, (p - 1) as nat, p);
    lemma_pow_mod_noop(x, p as nat, p);
    lemma_pow_prime_fixes(x0 as nat, p as nat);
    let e = pow(x0, (p - 1) as nat);
    assert(pow(x0, p as nat) == x0 * e);
    lemma_mod_mod(x, p, p);
    // x0 * (e - 1) is divisible by p
    assert(x0 * (e - 1) == x0 * e - x0) by (nonlinear_arith);
    lemma_mod_equivalence(x0 * e, x0, p);
    lemma_small_mod(x0 as nat, p as nat);
    lemma_euclid(x0, e - 1, p);
    lemma_mod_equivalence(e, 1, p);
    lemma_small_mod(1, p as nat);
}

} // verus!
