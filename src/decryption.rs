//! Decoding by the extended Euclidean algorithm: syndromes, then the error
//! locator and evaluator, then the error values by Forney's formula.
use crate::division::{lemma_division_law, lemma_quot_rem_len};
use crate::error::Error;
use crate::manipulative::{
    degree, derivative, diff_seq, horner, lemma_degree, poly_wf, product, quot_rem, Manipulative,
};
use crate::modulo::Field;
use crate::number_theory::is_prime;
use crate::ring::Ring;
use vstd::prelude::*;

verus! {

/// `start * step^k`, by `k` multiplications.
pub open spec fn powers(start: Field, step: Field, k: nat) -> Field
    decreases k,
{
    if k == 0 {
        start
    } else {
        powers(start, step, (k - 1) as nat).mul_spec(step)
    }
}

/// The received word as residues modulo `p`.
pub open spec fn lift(y: Seq<i32>, p: int) -> Seq<Field> {
    Seq::new(y.len(), |i: int| Field::of(y[i] as int, p))
}

/// The syndromes `Y(a^1), ..., Y(a^m)`.
pub open spec fn syndromes(yp: Seq<Field>, a: Field, m: nat) -> Seq<Field> {
    Seq::new(m, |i: int| horner(yp, powers(Field::of(1, a.n as int), a, (i + 1) as nat), 0))
}

/// The extended Euclidean algorithm on `(r_prev, r_cur)` with the auxiliary
/// pair `(t_prev, t_cur)`: one division step, then stop once the new
/// remainder's degree is at most `bound`. Returns the last remainder (the
/// error evaluator) and the last auxiliary polynomial (the error locator).
/// The remainder's degree drops at each step (see `lemma_division_law`);
/// the recursion also stops where it would not.
pub open spec fn euclid_steps(
    r_prev: Seq<Field>,
    r_cur: Seq<Field>,
    t_prev: Seq<Field>,
    t_cur: Seq<Field>,
    bound: int,
) -> (Seq<Field>, Seq<Field>)
    decreases degree(r_cur) + 1,
{
    let qr = quot_rem(r_prev, r_cur);
    let t_next = diff_seq(t_prev, product(qr.0, t_cur));
    if degree(qr.1) <= bound || !(-1 <= degree(qr.1) < degree(r_cur)) {
        (qr.1, t_next)
    } else {
        euclid_steps(r_cur, qr.1, t_cur, t_next, bound)
    }
}

/// The error pattern's entry at the point `x`: where `x` is a root of the
/// locator, minus `evaluator(x) / locator'(x)`; zero elsewhere.
pub open spec fn error_value(evaluator: Seq<Field>, locator: Seq<Field>, x: Field) -> Field {
    let z = Field { v: 0, n: x.n };
    if horner(locator, x, 0) == z {
        z.sub_spec(horner(evaluator, x, 0).div_spec(horner(derivative(locator), x, 0)))
    } else {
        z
    }
}

/// The error pattern over the positions `0..n`; position `e` is tested at
/// `a * a_inv^(e+1)`.
pub open spec fn error_word(
    evaluator: Seq<Field>,
    locator: Seq<Field>,
    a: Field,
    a_inv: Field,
    n: nat,
) -> Seq<Field> {
    Seq::new(n, |e: int| error_value(evaluator, locator, powers(a, a_inv, (e + 1) as nat)))
}

/// `x^(d-1)`.
pub open spec fn top_power(p: int, d: nat) -> Seq<Field> {
    Seq::new(d, |i: int| if i < d - 1 { Field::of(0, p) } else { Field::of(1, p) })
}

/// The corrected word for code parameters `p, n, d, a` and received word `y`.
pub open spec fn decoded(p: int, n: nat, d: nat, a: int, y: Seq<i32>) -> Seq<Field> {
    let yp = lift(y, p);
    let af = Field::of(a, p);
    let s = syndromes(yp, af, (d - 1) as nat);
    if degree(s) == -1 {
        yp
    } else {
        let el = euclid_steps(
            top_power(p, d),
            s,
            seq![Field::of(0, p)],
            seq![Field::of(1, p)],
            (d - 1) / 2 - 1,
        );
        diff_seq(yp, error_word(el.0, el.1, af, af.inv_spec(), n))
    }
}


/// A received word whose syndromes are all zero is already a codeword:
/// decoding returns it unchanged, as residues modulo `p`.
pub proof fn lemma_clean_word_unchanged(p: int, n: nat, d: nat, a: int, y: Seq<i32>)
    requires
        degree(syndromes(lift(y, p), Field::of(a, p), (d - 1) as nat)) == -1,
    ensures
        decoded(p, n, d, a, y) == lift(y, p),
{
}

proof fn lemma_lift_wf(y: Seq<i32>, p: int)
    requires
        1 < p < 0x1_0000_0000,
    ensures
        forall|i: int| 0 <= i < y.len() ==> (#[trigger] lift(y, p)[i]).wf() && lift(y, p)[i].n == p,
{
    assert forall|i: int| 0 <= i < y.len() implies (#[trigger] lift(y, p)[i]).wf() && lift(y, p)[i].n
        == p by {
        vstd::arithmetic::div_mod::lemma_mod_bound(y[i] as int, p);
    }
}

/// Decodes the received word `y` (lowest degree first) of the code with
/// field characteristic `p`, `n` candidate error positions, distance
/// parameter `d` and evaluation base `a`.
///
/// Fails with `InvalidDistanceRange` unless `2 <= d <= n`, and with
/// `EmptyPolynomial` when `y` is empty.
pub fn euclid_decrypt(p: u32, n: usize, d: usize, a: i32, y: &[i32]) -> (r: Result<
    Manipulative<Field>,
    Error,
>)
    requires
        is_prime(p as int),
        2 <= d <= n ==> 2 * d * d <= usize::MAX,
    ensures
        d < 2 || d > n ==> r == Err::<Manipulative<Field>, Error>(Error::InvalidDistanceRange),
        2 <= d <= n && y@.len() == 0 ==> r == Err::<Manipulative<Field>, Error>(
            Error::EmptyPolynomial,
        ),
        2 <= d <= n && y@.len() > 0 ==> (r matches Ok(w) && w@ == decoded(
            p as int,
            n as nat,
            d as nat,
            a as int,
            y@,
        ) && w.wf()),
{
    if d < 2 || d > n {
        return Err(Error::InvalidDistanceRange);
    }
    if y.len() == 0 {
        return Err(Error::EmptyPolynomial);
    }
    let ghost pi = p as int;
    proof {
        lemma_lift_wf(y@, pi);
        assert(d < 0x1_0000_0000) by (nonlinear_arith)
            requires
                2 * d * d <= usize::MAX,
                usize::MAX <= u64::MAX,
        ;
    }
    // the received word
    let mut yv: Vec<Field> = Vec::with_capacity(y.len());
    let mut i: usize = 0;
    while i < y.len()
        invariant
            1 < pi < 0x1_0000_0000,
            pi == p,
            i <= y@.len(),
            yv@ == lift(y@, pi).subrange(0, i as int),
        decreases y@.len() - i,
    {
        yv.push(Field::new(y[i] as i64, p));
        i += 1;
    }
    proof {
        assert(yv@ =~= lift(y@, pi));
    }
    let yp = match Manipulative::new(yv) {
        Ok(w) => w,
        Err(e) => return Err(e),
    };
    // the syndromes
    let af = Field::new(a as i64, p);
    let zero = Field::new(0, p);
    let one = Field::new(1, p);
    let ghost m = (d - 1) as nat;
    let mut pw = one;
    let mut sv: Vec<Field> = Vec::with_capacity(d - 1);
    let mut i: usize = 0;
    while i < d - 1
        invariant
            1 < pi < 0x1_0000_0000,
            pi == p,
            yp@ == lift(y@, pi),
            yp.wf(),
            yp.ring_id() == pi,
            af == Field::of(a as int, pi),
            one == Field::of(1, pi),
            m == d - 1,
            i <= m,
            pw == powers(one, af, i as nat),
            pw.wf(),
            pw.n == p,
            sv@ == syndromes(yp@, af, m).subrange(0, i as int),
            forall|k: int| 0 <= k < i ==> (#[trigger] sv@[k]).wf() && sv@[k].n == p,
        decreases m - i,
    {
        pw = pw.mul(&af);
        let v = yp.assign(pw);
        sv.push(v);
        i += 1;
    }
    proof {
        assert(sv@ =~= syndromes(yp@, af, m));
    }
    let s_poly = match Manipulative::new(sv) {
        Ok(w) => w,
        Err(e) => return Err(e),
    };
    proof {
        lemma_degree(s_poly@);
        assert(d * 2 < i64::MAX);
    }
    if s_poly.deg() == -1 {
        return Ok(yp);
    }
    // the extended Euclidean algorithm
    let mut rv: Vec<Field> = Vec::with_capacity(d);
    let mut i: usize = 0;
    while i < d - 1
        invariant
            i <= d - 1,
            zero == Field::of(0, pi),
            one == Field::of(1, pi),
            rv@ == top_power(pi, d as nat).subrange(0, i as int),
        decreases d - 1 - i,
    {
        rv.push(zero);
        i += 1;
    }
    rv.push(one);
    proof {
        assert(rv@ =~= top_power(pi, d as nat));
        vstd::arithmetic::div_mod::lemma_small_mod(1, p as nat);
        assert(rv@[d - 1] == one);
        assert(degree(rv@) == d - 1);
    }
    let mut r_m1 = match Manipulative::new(rv) {
        Ok(w) => w,
        Err(e) => return Err(e),
    };
    let mut r_0 = s_poly;
    let mut t_m1 = match Manipulative::new(vec![zero]) {
        Ok(w) => w,
        Err(e) => return Err(e),
    };
    let mut t_0 = match Manipulative::new(vec![one]) {
        Ok(w) => w,
        Err(e) => return Err(e),
    };
    let bound: i64 = ((d - 1) / 2) as i64 - 1;
    proof {
        assert(t_m1@ =~= seq![zero]);
        assert(t_0@ =~= seq![one]);
    }
    let ghost target = euclid_steps(
        top_power(pi, d as nat),
        syndromes(yp@, af, m),
        seq![zero],
        seq![one],
        bound as int,
    );
    let ghost dd = d as int;
    let ghost mut c: int = 0;
    let mut go = true;
    while go
        invariant
            1 < pi < 0x1_0000_0000,
            is_prime(pi),
            pi == p,
            dd == d,
            2 <= dd,
            2 * dd * dd <= usize::MAX,
            dd < 0x1_0000_0000,
            bound == (dd - 1) / 2 - 1,
            r_m1.wf(),
            r_0.wf(),
            t_m1.wf(),
            t_0.wf(),
            r_m1.ring_id() == pi,
            r_0.ring_id() == pi,
            t_m1.ring_id() == pi,
            t_0.ring_id() == pi,
            go ==> euclid_steps(r_m1@, r_0@, t_m1@, t_0@, bound as int) == target,
            !go ==> (r_0@, t_0@) == target,
            go ==> 0 <= degree(r_0@) < degree(r_m1@),
            go ==> degree(r_0@) + c <= dd - 2,
            go ==> r_0@.len() + degree(r_m1@) <= 2 * dd - 2,
            go ==> r_m1@.len() + degree(r_0@) <= 2 * dd - 2,
            go ==> t_0@.len() <= 1 + 2 * dd * c,
            go ==> t_m1@.len() <= 1 + 2 * dd * c,
            0 <= c,
        decreases (if go {
            degree(r_0@) + 2
        } else {
            0
        }),
    {
        proof {
            lemma_degree(r_0@);
            lemma_degree(r_m1@);
            assert(r_m1@.len() + r_0@.len() <= usize::MAX) by (nonlinear_arith)
                requires
                    r_0@.len() + degree(r_m1@) <= 2 * dd - 2,
                    r_m1@.len() + degree(r_0@) <= 2 * dd - 2,
                    degree(r_0@) >= 0,
                    degree(r_m1@) >= 0,
                    2 * dd * dd <= usize::MAX,
            ;
            lemma_division_law(r_m1@, r_0@);
            lemma_quot_rem_len(r_m1@, r_0@);
        }
        let (q, nr) = match r_m1.divide_by(&r_0) {
            Ok(x) => x,
            Err(e) => return Err(e),
        };
        proof {
            assert(q@.len() + t_0@.len() <= usize::MAX) by (nonlinear_arith)
                requires
                    q@.len() == r_m1@.len(),
                    r_m1@.len() + degree(r_0@) <= 2 * dd - 2,
                    degree(r_0@) >= 0,
                    degree(r_0@) + c <= dd - 2,
                    t_0@.len() <= 1 + 2 * dd * c,
                    2 * dd * dd <= usize::MAX,
                    0 <= c,
            ;
            lemma_degree(nr@);
        }
        let prod = q.mul(&t_0);
        let nt = t_m1.sub(&prod);
        proof {
            assert(nt@.len() <= 1 + 2 * dd * (c + 1)) by (nonlinear_arith)
                requires
                    nt@.len() == if t_m1@.len() >= prod@.len() {
                        t_m1@.len()
                    } else {
                        prod@.len()
                    },
                    prod@.len() == q@.len() + t_0@.len() - 1,
                    q@.len() + degree(r_0@) <= 2 * dd - 2,
                    degree(r_0@) >= 0,
                    t_0@.len() <= 1 + 2 * dd * c,
                    t_m1@.len() <= 1 + 2 * dd * c,
                    0 <= c,
            ;
            assert(t_0@.len() <= 1 + 2 * dd * (c + 1)) by (nonlinear_arith)
                requires
                    t_0@.len() <= 1 + 2 * dd * c,
                    0 <= c,
                    dd >= 0,
            ;
            c = c + 1;
        }
        r_m1 = r_0;
        r_0 = nr;
        t_m1 = t_0;
        t_0 = nt;
        if r_0.deg() <= bound {
            go = false;
        }
    }
    // the error pattern
    let dt = t_0.diff();
    let a_inv = af.invert();
    let mut x = af;
    let ghost ev = r_0@;
    let ghost loc = t_0@;
    let mut ev_v: Vec<Field> = Vec::with_capacity(n);
    let mut e: usize = 0;
    while e < n
        invariant
            1 < pi < 0x1_0000_0000,
            pi == p,
            e <= n,
            r_0.wf(),
            t_0.wf(),
            r_0.ring_id() == pi,
            t_0.ring_id() == pi,
            r_0@ == ev,
            t_0@ == loc,
            dt@ == derivative(loc),
            dt.wf(),
            dt.ring_id() == pi,
            af.wf(),
            af.n == p,
            a_inv == af.inv_spec(),
            a_inv.wf(),
            a_inv.n == p,
            x == powers(af, a_inv, e as nat),
            x.wf(),
            x.n == p,
            ev_v@ == error_word(ev, loc, af, a_inv, n as nat).subrange(0, e as int),
            forall|k: int| 0 <= k < e ==> (#[trigger] ev_v@[k]).wf() && ev_v@[k].n == p,
        decreases n - e,
    {
        x = x.mul(&a_inv);
        let z = Field { v: 0, n: p };
        let mut err = z;
        if t_0.assign(x).is_zero() {
            let mag = r_0.assign(x).div(&dt.assign(x));
            err = z.sub(&mag);
        }
        ev_v.push(err);
        e += 1;
    }
    proof {
        assert(ev_v@ =~= error_word(ev, loc, af, a_inv, n as nat));
    }
    let err_poly = match Manipulative::new(ev_v) {
        Ok(w) => w,
        Err(e) => return Err(e),
    };
    Ok(yp.sub(&err_poly))
}

} // verus!
