//! The division law: over a prime field, `quot_rem` gives a quotient and a
//! remainder with `dividend == quotient * divisor + remainder` and
//! `degree(remainder) < degree(divisor)`.
use crate::manipulative::{
    all_in_ring, conv, degree, diff_seq, divide_steps, lemma_degree, lemma_top_nonzero, monomial,
    poly_wf, product, quot_rem, sum_seq, top_nonzero,
};
use crate::modulo::{lemma_mul_inverse, Field};
use crate::number_theory::is_prime;
use crate::ring::Ring;
use vstd::arithmetic::div_mod::*;
use vstd::arithmetic::mul::*;
use vstd::prelude::*;

verus! {

/// The value of the coefficient of degree `k`, zero past the end.
pub open spec fn coeff(s: Seq<Field>, k: int) -> int {
    if 0 <= k < s.len() {
        s[k].v as int
    } else {
        0
    }
}

/// `sum(i < m) a[i] * b[k - i]` over the integers, unreduced.
pub open spec fn isum(a: Seq<Field>, b: Seq<Field>, k: int, m: int) -> int
    decreases m,
{
    if m <= 0 {
        0
    } else if 0 <= k - (m - 1) < b.len() {
        isum(a, b, k, m - 1) + a[m - 1].v * b[k - (m - 1)].v
    } else {
        isum(a, b, k, m - 1)
    }
}

/// Every coefficient is a residue modulo `p`.
pub open spec fn mod_poly(s: Seq<Field>, p: int) -> bool {
    all_in_ring(s, p)
}

proof fn lemma_of(value: int, p: int)
    requires
        0 < p < 0x1_0000_0000,
    ensures
        Field::of(value, p).v == value % p,
        Field::of(value, p).n == p,
        Field::of(value, p).wf(),
{
    lemma_mod_bound(value, p);
}

proof fn lemma_conv(a: Seq<Field>, b: Seq<Field>, k: int, m: int, p: int)
    requires
        0 < p < 0x1_0000_0000,
        a.len() > 0,
        0 <= m <= a.len(),
        mod_poly(a, p),
        mod_poly(b, p),
    ensures
        conv(a, b, k, m).v == isum(a, b, k, m) % p,
        conv(a, b, k, m).n == p,
        conv(a, b, k, m).wf(),
    decreases m,
{
    if m <= 0 {
        lemma_small_mod(0, p as nat);
    } else {
        lemma_conv(a, b, k, m - 1, p);
        let i = m - 1;
        if 0 <= k - i < b.len() {
            let x = a[i].v * b[k - i].v;
            lemma_of(x, p);
            lemma_of(conv(a, b, k, i).v + (x % p), p);
            lemma_add_mod_noop(isum(a, b, k, i), x, p);
            lemma_mod_mod(x, p, p);
            lemma_mod_mod(isum(a, b, k, i), p, p);
            lemma_add_mod_noop(isum(a, b, k, i) % p, x % p, p);
        }
    }
}

proof fn lemma_isum_outside(a: Seq<Field>, b: Seq<Field>, k: int, m: int)
    requires
        0 <= m <= a.len(),
        k >= a.len() + b.len() - 1 || k < 0,
    ensures
        isum(a, b, k, m) == 0,
    decreases m,
{
    if m > 0 {
        lemma_isum_outside(a, b, k, m - 1);
    }
}

/// The coefficient values of a product are the convolution sums, reduced.
pub proof fn lemma_product_coeff(a: Seq<Field>, b: Seq<Field>, k: int, p: int)
    requires
        0 < p < 0x1_0000_0000,
        a.len() > 0,
        b.len() > 0,
        mod_poly(a, p),
        mod_poly(b, p),
        k >= 0,
    ensures
        coeff(product(a, b), k) == isum(a, b, k, a.len() as int) % p,
{
    if k < a.len() + b.len() - 1 {
        lemma_conv(a, b, k, a.len() as int, p);
    } else {
        lemma_isum_outside(a, b, k, a.len() as int);
        lemma_small_mod(0, p as nat);
    }
}

/// Products of residues modulo `p` are residues modulo `p`.
pub proof fn lemma_product_mod(a: Seq<Field>, b: Seq<Field>, p: int)
    requires
        0 < p < 0x1_0000_0000,
        a.len() > 0,
        b.len() > 0,
        mod_poly(a, p),
        mod_poly(b, p),
    ensures
        mod_poly(product(a, b), p),
        product(a, b).len() == a.len() + b.len() - 1,
{
    assert forall|k: int| 0 <= k < product(a, b).len() implies (#[trigger] product(a, b)[k]).valid()
        && product(a, b)[k].ring_of() == p by {
        lemma_conv(a, b, k, a.len() as int, p);
    }
}

/// Coefficient values of a difference.
pub proof fn lemma_diff_coeff(a: Seq<Field>, b: Seq<Field>, k: int, p: int)
    requires
        0 < p < 0x1_0000_0000,
        mod_poly(a, p),
        mod_poly(b, p),
        k >= 0,
    ensures
        coeff(diff_seq(a, b), k) == (coeff(a, k) - coeff(b, k)) % p,
        mod_poly(diff_seq(a, b), p),
{
    assert forall|t: int| 0 <= t < diff_seq(a, b).len() implies (#[trigger] diff_seq(a, b)[t]).valid()
        && diff_seq(a, b)[t].ring_of() == p by {
        if t < a.len() && t < b.len() {
            lemma_of(a[t].v - b[t].v, p);
        } else if t >= a.len() {
            lemma_of(-b[t].v, p);
        }
    }
    if k < a.len() && k < b.len() {
        lemma_of(a[k].v - b[k].v, p);
    } else if k < a.len() {
        lemma_small_mod(a[k].v as nat, p as nat);
    } else if k < b.len() {
        lemma_of(-b[k].v, p);
    } else {
        lemma_small_mod(0, p as nat);
    }
}

/// Coefficient values of a sum.
pub proof fn lemma_sum_coeff(a: Seq<Field>, b: Seq<Field>, k: int, p: int)
    requires
        0 < p < 0x1_0000_0000,
        mod_poly(a, p),
        mod_poly(b, p),
        k >= 0,
    ensures
        coeff(sum_seq(a, b), k) == (coeff(a, k) + coeff(b, k)) % p,
        mod_poly(sum_seq(a, b), p),
{
    assert forall|t: int| 0 <= t < sum_seq(a, b).len() implies (#[trigger] sum_seq(a, b)[t]).valid()
        && sum_seq(a, b)[t].ring_of() == p by {
        if t < a.len() && t < b.len() {
            lemma_of(a[t].v + b[t].v, p);
        }
    }
    if k < a.len() && k < b.len() {
        lemma_of(a[k].v + b[k].v, p);
    } else if k < a.len() {
        lemma_small_mod(a[k].v as nat, p as nat);
    } else if k < b.len() {
        lemma_small_mod(b[k].v as nat, p as nat);
    } else {
        lemma_small_mod(0, p as nat);
    }
}

proof fn lemma_isum_monomial(b: Seq<Field>, z: Field, m: nat, c: Field, k: int, t: int)
    requires
        z.v == 0,
        0 <= t <= b.len(),
    ensures
        isum(b, monomial(z, m, c), k, t) == if 0 <= k - m < t {
            b[k - m].v * c.v
        } else {
            0
        },
    decreases t,
{
    if t > 0 {
        lemma_isum_monomial(b, z, m, c, k, t - 1);
        let i = t - 1;
        let mono = monomial(z, m, c);
        if 0 <= k - i < mono.len() && k - i != m {
            assert(mono[k - i].v == 0);
            lemma_mul_by_zero_is_zero(b[i].v as int);
        }
    }
}

proof fn lemma_isum_update(q: Seq<Field>, b: Seq<Field>, m: int, c: Field, k: int, t: int)
    requires
        0 <= m < q.len(),
        0 <= t <= q.len(),
    ensures
        isum(q.update(m, c), b, k, t) == isum(q, b, k, t) + if m < t && 0 <= k - m < b.len() {
            (c.v - q[m].v) * b[k - m].v
        } else {
            0
        },
    decreases t,
{
    if t > 0 {
        lemma_isum_update(q, b, m, c, k, t - 1);
        if t - 1 == m && 0 <= k - m < b.len() {
            lemma_mul_is_distributive_sub_other_way(b[k - m].v as int, c.v as int, q[m].v as int);
        }
    }
}

proof fn lemma_isum_zero(q: Seq<Field>, b: Seq<Field>, k: int, t: int)
    requires
        0 <= t <= q.len(),
        forall|i: int| 0 <= i < q.len() ==> (#[trigger] q[i]).v == 0,
    ensures
        isum(q, b, k, t) == 0,
    decreases t,
{
    if t > 0 {
        lemma_isum_zero(q, b, k, t - 1);
        if 0 <= k - (t - 1) < b.len() {
            lemma_mul_by_zero_is_zero(b[k - (t - 1)].v as int);
        }
    }
}

proof fn lemma_mod_cancel(u: int, w: int, x: int, p: int)
    requires
        p > 0,
    ensures
        ((u - x % p) % p + w + x) % p == (u + w) % p,
{
    lemma_fundamental_div_mod(u - x % p, p);
    lemma_fundamental_div_mod(x, p);
    let t1 = (u - x % p) / p;
    let t2 = x / p;
    assert((u - x % p) % p + w + x == p * (t2 - t1) + (u + w)) by (nonlinear_arith)
        requires
            u - x % p == p * t1 + (u - x % p) % p,
            x == p * t2 + x % p,
    ;
    lemma_mod_multiples_vanish(t2 - t1, u + w, p);
}

/// The leading term cancels: `r - b * (r / b)` is zero for non-zero `b`.
proof fn lemma_cancel_lead(r: Field, b: Field, p: int)
    requires
        is_prime(p),
        p < 0x1_0000_0000,
        r.wf(),
        b.wf(),
        r.n == p,
        b.n == p,
        b.v != 0,
    ensures
        (r.v - (b.v * r.div_spec(b).v) % p) % p == 0,
{
    let inv = b.inv_spec();
    lemma_mul_inverse(b);
    let a = r.mul_spec(inv);
    lemma_of(r.v * inv.v, p);
    assert(inv.n == p) by {
        if p > 2 {
            lemma_of(vstd::arithmetic::power::pow(b.v as int, (p - 2) as nat), p);
        }
    }
    lemma_of(b.v * inv.v, p);
    // b * (r * inv % p) == r * (b * inv) == r  (mod p)
    lemma_mul_mod_noop_right(b.v as int, r.v * inv.v, p);
    lemma_mul_is_associative(b.v as int, r.v as int, inv.v as int);
    lemma_mul_is_associative(r.v as int, b.v as int, inv.v as int);
    lemma_mul_is_commutative(b.v as int, r.v as int);
    lemma_mul_mod_noop_right(r.v as int, b.v * inv.v, p);
    lemma_small_mod(r.v as nat, p as nat);
    lemma_mul_basics(r.v as int);
    lemma_sub_mod_noop(r.v as int, b.v * a.v, p);
    lemma_mod_self_0(p);
    assert((r.v - r.v) % p == 0) by {
        lemma_small_mod(0, p as nat);
    }
    lemma_mod_mod(b.v * a.v, p, p);
    lemma_sub_mod_noop(r.v as int, (b.v * a.v) % p, p);
}


proof fn lemma_steps(
    z: Field,
    r: Seq<Field>,
    q: Seq<Field>,
    b: Seq<Field>,
    j: int,
    i: int,
    d: Seq<Field>,
    p: int,
)
    requires
        is_prime(p),
        p < 0x1_0000_0000,
        z == (Field { v: 0, n: p as u32 }),
        mod_poly(r, p),
        mod_poly(q, p),
        mod_poly(b, p),
        b.len() > 0,
        j == degree(b),
        j >= 0,
        q.len() == d.len(),
        r.len() >= q.len(),
        i < q.len(),
        forall|k: int| k >= 0 ==> (coeff(r, k) + isum(q, b, k, q.len() as int)) % p == #[trigger] coeff(d, k),
        forall|t: int| 0 <= t <= i - j ==> (#[trigger] q[t]).v == 0,
        forall|k: int| i < k < r.len() ==> (#[trigger] r[k]).v == 0,
    ensures
        mod_poly(divide_steps(z, r, q, b, j, i).0, p),
        mod_poly(divide_steps(z, r, q, b, j, i).1, p),
        divide_steps(z, r, q, b, j, i).0.len() == q.len(),
        divide_steps(z, r, q, b, j, i).1.len() >= r.len(),
        forall|k: int|
            k >= 0 ==> (coeff(divide_steps(z, r, q, b, j, i).1, k) + isum(
                divide_steps(z, r, q, b, j, i).0,
                b,
                k,
                q.len() as int,
            )) % p == #[trigger] coeff(d, k),
        forall|k: int|
            j <= k < divide_steps(z, r, q, b, j, i).1.len() ==> (#[trigger] divide_steps(
                z,
                r,
                q,
                b,
                j,
                i,
            ).1[k]).v == 0,
    decreases i + 1,
{
    if i < j || i < 0 {
    } else if r[i] == r[i].zero_spec() {
        lemma_steps(z, r, q, b, j, i - 1, d, p);
    } else {
        lemma_degree(b);
        let m = i - j;
        let a = r[i].div_spec(b[j]);
        lemma_of(r[i].v * b[j].inv_spec().v, p);
        let mono = monomial(z, m as nat, a);
        let pr = product(b, mono);
        let r1 = diff_seq(r, pr);
        let q1 = q.update(m, a);
        assert(mod_poly(mono, p));
        lemma_product_mod(b, mono, p);
        lemma_diff_coeff(r, pr, 0, p);
        assert(mod_poly(q1, p));
        assert forall|k: int| k >= 0 implies (coeff(r1, k) + isum(q1, b, k, q.len() as int)) % p
            == #[trigger] coeff(d, k) by {
            lemma_product_coeff(b, mono, k, p);
            lemma_isum_monomial(b, z, m as nat, a, k, b.len() as int);
            lemma_diff_coeff(r, pr, k, p);
            lemma_isum_update(q, b, m, a, k, q.len() as int);
            let x = if 0 <= k - m < b.len() {
                b[k - m].v * a.v
            } else {
                0
            };
            if 0 <= k - m < b.len() {
                lemma_mul_is_commutative(b[k - m].v as int, a.v as int);
            }
            lemma_mod_cancel(coeff(r, k), isum(q, b, k, q.len() as int), x, p);
        }
        assert forall|k: int| i - 1 < k < r1.len() implies (#[trigger] r1[k]).v == 0 by {
            lemma_product_coeff(b, mono, k, p);
            lemma_isum_monomial(b, z, m as nat, a, k, b.len() as int);
            lemma_diff_coeff(r, pr, k, p);
            if k == i {
                lemma_cancel_lead(r[i], b[j], p);
            } else {
                if 0 <= k - m < b.len() {
                    assert(b[k - m] == b[k - m].zero_spec());
                    lemma_mul_by_zero_is_zero(a.v as int);
                }
                lemma_small_mod(0, p as nat);
            }
        }
        assert forall|t: int| 0 <= t <= i - 1 - j implies (#[trigger] q1[t]).v == 0 by {
            assert(q1[t] == q[t]);
        }
        lemma_steps(z, r1, q1, b, j, i - 1, d, p);
    }
}

/// Long division never shortens the remainder, and lengthens it at most to
/// the divisor's length plus the distance between the leading indices.
pub proof fn lemma_steps_len<T: Ring>(z: T, r: Seq<T>, q: Seq<T>, b: Seq<T>, j: int, i: int)
    requires
        0 <= j,
        i < r.len(),
        i - j < q.len(),
    ensures
        divide_steps(z, r, q, b, j, i).0.len() == q.len(),
        divide_steps(z, r, q, b, j, i).1.len() >= r.len(),
        divide_steps(z, r, q, b, j, i).1.len() <= r.len() || divide_steps(z, r, q, b, j, i).1.len()
            <= b.len() + top_nonzero(r, i + 1) - j,
    decreases i + 1,
{
    if i < j || i < 0 {
    } else if r[i] == r[i].zero_spec() {
        lemma_steps_len(z, r, q, b, j, i - 1);
    } else {
        let a = r[i].div_spec(b[j]);
        let r1 = diff_seq(r, product(b, monomial(z, (i - j) as nat, a)));
        lemma_steps_len(z, r1, q.update(i - j, a), b, j, i - 1);
        lemma_top_nonzero(r1, i);
    }
}

/// Lengths of the quotient and remainder of `a` by `b`.
pub proof fn lemma_quot_rem_len<T: Ring>(a: Seq<T>, b: Seq<T>)
    requires
        a.len() > 0,
        degree(b) >= 0,
    ensures
        quot_rem(a, b).0.len() == a.len(),
        quot_rem(a, b).1.len() >= a.len(),
        quot_rem(a, b).1.len() <= a.len() || quot_rem(a, b).1.len() <= b.len() + degree(a) - degree(b),
{
    let z = a[0].zero_spec();
    lemma_steps_len(z, a, Seq::new(a.len(), |i: int| z), b, degree(b), a.len() - 1);
}

/// The division law over a prime field: the quotient times the divisor plus
/// the remainder gives the dividend back, coefficient by coefficient, and
/// the remainder's degree is below the divisor's.
pub proof fn lemma_division_law(a: Seq<Field>, b: Seq<Field>)
    requires
        poly_wf(a),
        poly_wf(b),
        a[0].n == b[0].n,
        is_prime(a[0].n as int),
        degree(b) >= 0,
    ensures
        degree(quot_rem(a, b).1) < degree(b),
        forall|k: int|
            k >= 0 ==> #[trigger] coeff(sum_seq(product(quot_rem(a, b).0, b), quot_rem(a, b).1), k)
                == coeff(a, k),
        poly_wf(quot_rem(a, b).0),
        poly_wf(quot_rem(a, b).1),
        quot_rem(a, b).0[0].n == a[0].n,
        quot_rem(a, b).1[0].n == a[0].n,
{
    let p = a[0].n as int;
    let z = a[0].zero_spec();
    let q0 = Seq::new(a.len(), |i: int| z);
    let j = degree(b);
    assert forall|k: int| k >= 0 implies (coeff(a, k) + isum(q0, b, k, a.len() as int)) % p
        == #[trigger] coeff(a, k) by {
        lemma_isum_zero(q0, b, k, a.len() as int);
        if k < a.len() {
            lemma_small_mod(a[k].v as nat, p as nat);
        } else {
            lemma_small_mod(0, p as nat);
        }
    }
    lemma_steps(z, a, q0, b, j, a.len() - 1, a, p);
    let qr = quot_rem(a, b);
    let (q, r) = qr;
    lemma_degree(r);
    if degree(r) >= j {
        assert(r[degree(r)].v == 0);
    }
    lemma_product_mod(q, b, p);
    assert forall|k: int| k >= 0 implies #[trigger] coeff(sum_seq(product(q, b), r), k) == coeff(a, k) by {
        lemma_sum_coeff(product(q, b), r, k, p);
        lemma_product_coeff(q, b, k, p);
        lemma_mod_bound(coeff(r, k), p);
        lemma_add_mod_noop(isum(q, b, k, q.len() as int), coeff(r, k), p);
        lemma_mod_mod(isum(q, b, k, q.len() as int), p, p);
        if k < r.len() {
            lemma_small_mod(r[k].v as nat, p as nat);
        } else {
            lemma_small_mod(0, p as nat);
        }
        lemma_add_mod_noop(isum(q, b, k, q.len() as int) % p, coeff(r, k), p);
        lemma_small_mod(coeff(r, k) as nat, p as nat);
    }
}

} // verus!
