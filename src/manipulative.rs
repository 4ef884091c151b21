//! Polynomials with coefficients in a [`Ring`], lowest degree first.
use crate::error::Error;
use crate::modulo::Field;
use crate::ring::Ring;
use vstd::prelude::*;

verus! {

/// Every coefficient is well formed and belongs to the ring `id`.
pub open spec fn all_in_ring<T: Ring>(s: Seq<T>, id: int) -> bool {
    forall|i: int| 0 <= i < s.len() ==> (#[trigger] s[i]).valid() && s[i].ring_of() == id
}

/// A coefficient sequence that a polynomial may hold: non-empty, one ring.
pub open spec fn poly_wf<T: Ring>(s: Seq<T>) -> bool {
    s.len() > 0 && all_in_ring(s, s[0].ring_of())
}

/// The index of the highest non-zero coefficient below `m`, or `-1`.
pub open spec fn top_nonzero<T: Ring>(s: Seq<T>, m: int) -> int
    decreases m,
{
    if m <= 0 {
        -1
    } else if s[m - 1] != s[m - 1].zero_spec() {
        m - 1
    } else {
        top_nonzero(s, m - 1)
    }
}

/// The degree: the highest index of a non-zero coefficient, `-1` for the
/// zero polynomial.
pub open spec fn degree<T: Ring>(s: Seq<T>) -> int {
    top_nonzero(s, s.len() as int)
}

/// Horner evaluation of the coefficients from index `i` up, at `x`.
pub open spec fn horner<T: Ring>(s: Seq<T>, x: T, i: int) -> T
    decreases s.len() - i,
{
    if i >= s.len() || i < 0 {
        x.zero_spec()
    } else {
        horner(s, x, i + 1).mul_spec(x).add_spec(s[i])
    }
}

/// Coefficient-wise sum; the longer operand's tail is kept.
pub open spec fn sum_seq<T: Ring>(a: Seq<T>, b: Seq<T>) -> Seq<T> {
    Seq::new(
        if a.len() >= b.len() {
            a.len()
        } else {
            b.len()
        },
        |i: int|
            if i < a.len() && i < b.len() {
                a[i].add_spec(b[i])
            } else if i < a.len() {
                a[i]
            } else {
                b[i]
            },
    )
}

/// Coefficient-wise difference; a longer subtrahend's tail is negated.
pub open spec fn diff_seq<T: Ring>(a: Seq<T>, b: Seq<T>) -> Seq<T> {
    Seq::new(
        if a.len() >= b.len() {
            a.len()
        } else {
            b.len()
        },
        |i: int|
            if i < a.len() && i < b.len() {
                a[i].sub_spec(b[i])
            } else if i < a.len() {
                a[i]
            } else {
                b[i].neg_spec()
            },
    )
}

/// `sum(i < m) a[i] * b[k - i]`, accumulated from `i = 0` up, starting at zero.
pub open spec fn conv<T: Ring>(a: Seq<T>, b: Seq<T>, k: int, m: int) -> T
    decreases m,
{
    if m <= 0 {
        a[0].zero_spec()
    } else if 0 <= k - (m - 1) < b.len() {
        conv(a, b, k, m - 1).add_spec(a[m - 1].mul_spec(b[k - (m - 1)]))
    } else {
        conv(a, b, k, m - 1)
    }
}

/// The product: the full convolution, of length `len(a) + len(b) - 1`.
pub open spec fn product<T: Ring>(a: Seq<T>, b: Seq<T>) -> Seq<T> {
    Seq::new((a.len() + b.len() - 1) as nat, |k: int| conv(a, b, k, a.len() as int))
}

/// The formal derivative; a constant polynomial gives the single zero.
pub open spec fn derivative(s: Seq<Field>) -> Seq<Field> {
    if s.len() <= 1 {
        seq![Field { v: 0, n: s[0].n }]
    } else {
        Seq::new((s.len() - 1) as nat, |i: int| s[i + 1].scale_spec(i + 1))
    }
}

/// `[z; m] ++ [c]`: the monomial `c * x^m`, with `z` for zero.
pub open spec fn monomial<T: Ring>(z: T, m: nat, c: T) -> Seq<T> {
    Seq::new(m + 1, |i: int| if i < m { z } else { c })
}

/// Long division by `b`, whose leading index is `j`, from index `i` of the
/// remainder `r` down to `j`: a non-zero `r[i]` gives the quotient term
/// `a = r[i] / b[j]` at index `i - j`, and `a * x^(i-j) * b` leaves `r`.
pub open spec fn divide_steps<T: Ring>(z: T, r: Seq<T>, q: Seq<T>, b: Seq<T>, j: int, i: int) -> (
    Seq<T>,
    Seq<T>,
)
    decreases i + 1,
{
    if i < j || i < 0 {
        (q, r)
    } else if r[i] == r[i].zero_spec() {
        divide_steps(z, r, q, b, j, i - 1)
    } else {
        let a = r[i].div_spec(b[j]);
        divide_steps(
            z,
            diff_seq(r, product(b, monomial(z, (i - j) as nat, a))),
            q.update(i - j, a),
            b,
            j,
            i - 1,
        )
    }
}

/// Quotient and remainder of `a` divided by `b`. The quotient has as many
/// coefficients as `a`, all zero but the terms that the division placed.
pub open spec fn quot_rem<T: Ring>(a: Seq<T>, b: Seq<T>) -> (Seq<T>, Seq<T>) {
    let z = a[0].zero_spec();
    divide_steps(z, a, Seq::new(a.len(), |i: int| z), b, degree(b), a.len() - 1)
}

/// A polynomial: its coefficients, the one of degree `i` at index `i`.
/// The sequence is never empty; trailing zeros are kept.
#[derive(Clone, Debug, PartialEq)]
pub struct Manipulative<T> {
    factors: Vec<T>,
}

impl<T: Ring> View for Manipulative<T> {
    type V = Seq<T>;

    closed spec fn view(&self) -> Seq<T> {
        self.factors@
    }
}

/// What `top_nonzero` means: a non-zero coefficient, with only zeros above it below `m`.
pub proof fn lemma_top_nonzero<T: Ring>(s: Seq<T>, m: int)
    requires
        0 <= m <= s.len(),
    ensures
        -1 <= top_nonzero(s, m) < m,
        top_nonzero(s, m) >= 0 ==> s[top_nonzero(s, m)] != s[top_nonzero(s, m)].zero_spec(),
        forall|k: int| top_nonzero(s, m) < k < m ==> s[k] == (#[trigger] s[k]).zero_spec(),
    decreases m,
{
    if m > 0 {
        lemma_top_nonzero(s, m - 1);
    }
}

/// What `degree` means: `d` is `-1` or the index of a non-zero coefficient,
/// and every coefficient above `d` is zero.
pub proof fn lemma_degree<T: Ring>(s: Seq<T>)
    ensures
        -1 <= degree(s) < s.len(),
        degree(s) >= 0 ==> s[degree(s)] != s[degree(s)].zero_spec(),
        forall|k: int| degree(s) < k < s.len() ==> s[k] == (#[trigger] s[k]).zero_spec(),
{
    lemma_top_nonzero(s, s.len() as int);
}

impl<T: Ring> Manipulative<T> {
    pub open spec fn wf(&self) -> bool {
        poly_wf(self@)
    }

    /// The ring of the coefficients.
    pub open spec fn ring_id(&self) -> int {
        self@[0].ring_of()
    }

    /// Builds the polynomial with the given coefficients.
    pub fn new(factors: Vec<T>) -> (r: Result<Manipulative<T>, Error>)
        requires
            forall|i: int| 0 <= i < factors@.len() ==> (#[trigger] factors@[i]).valid(),
        ensures
            factors@.len() == 0 ==> r == Err::<Manipulative<T>, Error>(Error::EmptyPolynomial),
            factors@.len() > 0 && !all_in_ring(factors@, factors@[0].ring_of()) ==> r == Err::<
                Manipulative<T>,
                Error,
            >(Error::ModulusMismatch),
            poly_wf(factors@) ==> (r matches Ok(p) && p@ == factors@ && p.wf()),
    {
        if factors.len() == 0 {
            return Err(Error::EmptyPolynomial);
        }
        let mut i: usize = 1;
        while i < factors.len()
            invariant
                1 <= i <= factors@.len(),
                forall|k: int| 0 <= k < factors@.len() ==> (#[trigger] factors@[k]).valid(),
                forall|k: int| 0 <= k < i ==> (#[trigger] factors@[k]).ring_of() == factors@[0].ring_of(),
            decreases factors@.len() - i,
        {
            if !factors[i].same_ring(&factors[0]) {
                return Err(Error::ModulusMismatch);
            }
            i += 1;
        }
        Ok(Manipulative { factors })
    }

    /// The coefficients, lowest degree first.
    pub fn factors(&self) -> (r: &Vec<T>)
        ensures
            r@ == self@,
    {
        &self.factors
    }

    /// The number of coefficients held.
    pub fn len(&self) -> (r: usize)
        ensures
            r == self@.len(),
    {
        self.factors.len()
    }

    /// A copy of the polynomial.
    fn duplicate(&self) -> (r: Manipulative<T>)
        ensures
            r@ == self@,
    {
        let mut v: Vec<T> = Vec::with_capacity(self.factors.len());
        let mut i: usize = 0;
        while i < self.factors.len()
            invariant
                i <= self@.len(),
                v@ == self@.subrange(0, i as int),
            decreases self@.len() - i,
        {
            v.push(self.factors[i]);
            i += 1;
        }
        proof {
            assert(v@ =~= self@);
        }
        Manipulative { factors: v }
    }

    /// The degree: the highest index of a non-zero coefficient, `-1` when
    /// every coefficient is zero.
    pub fn deg(&self) -> (r: i64)
        requires
            self@.len() < i64::MAX,
        ensures
            r == degree(self@),
    {
        let mut i: usize = self.factors.len();
        while i > 0
            invariant
                i <= self@.len(),
                self@.len() < i64::MAX,
                top_nonzero(self@, i as int) == degree(self@),
            decreases i,
        {
            if !self.factors[i - 1].is_zero() {
                return (i - 1) as i64;
            }
            i -= 1;
        }
        -1
    }

    /// The value at `x`, by Horner's rule.
    pub fn assign(&self, x: T) -> (r: T)
        requires
            self.wf(),
            x.valid(),
            x.ring_of() == self.ring_id(),
        ensures
            r == horner(self@, x, 0),
            r.valid(),
            r.ring_of() == self.ring_id(),
    {
        let mut result = x.zero();
        let mut i: usize = self.factors.len();
        while i > 0
            invariant
                i <= self@.len(),
                self.wf(),
                x.valid(),
                x.ring_of() == self.ring_id(),
                result == horner(self@, x, i as int),
                result.valid(),
                result.ring_of() == self.ring_id(),
            decreases i,
        {
            result = result.multiply(&x);
            result = result.add(&self.factors[i - 1]);
            i -= 1;
        }
        result
    }

    /// Adds `other` coefficient by coefficient, in place.
    pub fn add_assign(&mut self, other: &Manipulative<T>)
        requires
            old(self).wf(),
            other.wf(),
            old(self).ring_id() == other.ring_id(),
        ensures
            final(self)@ == sum_seq(old(self)@, other@),
            final(self).wf(),
            final(self).ring_id() == old(self).ring_id(),
    {
        let ghost a = self@;
        let n = self.factors.len();
        let m = other.factors.len();
        let mut i: usize = 0;
        while i < n && i < m
            invariant
                n == a.len(),
                m == other@.len(),
                i <= n,
                i <= m,
                self@.len() == n,
                poly_wf(a),
                other.wf(),
                a[0].ring_of() == other@[0].ring_of(),
                forall|k: int| 0 <= k < i ==> #[trigger] self@[k] == sum_seq(a, other@)[k],
                forall|k: int| i <= k < n ==> #[trigger] self@[k] == a[k],
                all_in_ring(self@, a[0].ring_of()),
            decreases n - i,
        {
            let s = self.factors[i].add(&other.factors[i]);
            self.factors.set(i, s);
            i += 1;
        }
        while i < m
            invariant
                n == a.len(),
                m == other@.len(),
                n < m ==> n <= i <= m,
                n >= m ==> i == m,
                self@.len() == if n >= m { n } else { i },
                poly_wf(a),
                other.wf(),
                a[0].ring_of() == other@[0].ring_of(),
                forall|k: int| 0 <= k < self@.len() ==> #[trigger] self@[k] == sum_seq(a, other@)[k],
                all_in_ring(self@, a[0].ring_of()),
            decreases m - i,
        {
            self.factors.push(other.factors[i]);
            i += 1;
        }
        proof {
            assert(self@ =~= sum_seq(a, other@));
        }
    }

    /// Subtracts `other` coefficient by coefficient, in place; where `other`
    /// is longer, its negated tail is appended.
    pub fn sub_assign(&mut self, other: &Manipulative<T>)
        requires
            old(self).wf(),
            other.wf(),
            old(self).ring_id() == other.ring_id(),
        ensures
            final(self)@ == diff_seq(old(self)@, other@),
            final(self).wf(),
            final(self).ring_id() == old(self).ring_id(),
    {
        let ghost a = self@;
        let n = self.factors.len();
        let m = other.factors.len();
        let mut i: usize = 0;
        while i < n && i < m
            invariant
                n == a.len(),
                m == other@.len(),
                i <= n,
                i <= m,
                self@.len() == n,
                poly_wf(a),
                other.wf(),
                a[0].ring_of() == other@[0].ring_of(),
                forall|k: int| 0 <= k < i ==> #[trigger] self@[k] == diff_seq(a, other@)[k],
                forall|k: int| i <= k < n ==> #[trigger] self@[k] == a[k],
                all_in_ring(self@, a[0].ring_of()),
            decreases n - i,
        {
            let s = self.factors[i].subtract(&other.factors[i]);
            self.factors.set(i, s);
            i += 1;
        }
        while i < m
            invariant
                n == a.len(),
                m == other@.len(),
                n < m ==> n <= i <= m,
                n >= m ==> i == m,
                self@.len() == if n >= m { n } else { i },
                poly_wf(a),
                other.wf(),
                a[0].ring_of() == other@[0].ring_of(),
                forall|k: int| 0 <= k < self@.len() ==> #[trigger] self@[k] == diff_seq(a, other@)[k],
                all_in_ring(self@, a[0].ring_of()),
            decreases m - i,
        {
            self.factors.push(other.factors[i].negate());
            i += 1;
        }
        proof {
            assert(self@ =~= diff_seq(a, other@));
        }
    }

    /// The sum `self + other`.
    pub fn add(&self, other: &Manipulative<T>) -> (r: Manipulative<T>)
        requires
            self.wf(),
            other.wf(),
            self.ring_id() == other.ring_id(),
        ensures
            r@ == sum_seq(self@, other@),
            r.wf(),
            r.ring_id() == self.ring_id(),
    {
        let mut r = self.duplicate();
        r.add_assign(other);
        r
    }

    /// The difference `self - other`.
    pub fn sub(&self, other: &Manipulative<T>) -> (r: Manipulative<T>)
        requires
            self.wf(),
            other.wf(),
            self.ring_id() == other.ring_id(),
        ensures
            r@ == diff_seq(self@, other@),
            r.wf(),
            r.ring_id() == self.ring_id(),
    {
        let mut r = self.duplicate();
        r.sub_assign(other);
        r
    }

    /// The product `self * other`: the full convolution of the coefficients.
    pub fn mul(&self, other: &Manipulative<T>) -> (r: Manipulative<T>)
        requires
            self.wf(),
            other.wf(),
            self.ring_id() == other.ring_id(),
            self@.len() + other@.len() <= usize::MAX,
        ensures
            r@ == product(self@, other@),
            r@.len() == self@.len() + other@.len() - 1,
            r.wf(),
            r.ring_id() == self.ring_id(),
    {
        let len = self.factors.len() + other.factors.len() - 1;
        let z = self.factors[0].zero();
        let mut nf: Vec<T> = Vec::with_capacity(len);
        let mut k: usize = 0;
        while k < len
            invariant
                k <= len,
                nf@.len() == k,
                self@.len() > 0,
                z == self@[0].zero_spec(),
                forall|t: int| 0 <= t < k ==> #[trigger] nf@[t] == z,
            decreases len - k,
        {
            nf.push(z);
            k += 1;
        }
        let ghost id = self.ring_id();
        let mut i: usize = 0;
        while i < self.factors.len()
            invariant
                self.wf(),
                other.wf(),
                id == self.ring_id(),
                id == other.ring_id(),
                len == self@.len() + other@.len() - 1,
                i <= self@.len(),
                nf@.len() == len,
                forall|t: int| 0 <= t < len ==> #[trigger] nf@[t] == conv(self@, other@, t, i as int),
                all_in_ring(nf@, id),
            decreases self@.len() - i,
        {
            let mut j: usize = 0;
            while j < other.factors.len()
                invariant
                    self.wf(),
                    other.wf(),
                    id == self.ring_id(),
                    id == other.ring_id(),
                    len == self@.len() + other@.len() - 1,
                    i < self@.len(),
                    j <= other@.len(),
                    nf@.len() == len,
                    forall|t: int|
                        0 <= t < len ==> #[trigger] nf@[t] == if i <= t < i + j {
                            conv(self@, other@, t, i + 1)
                        } else {
                            conv(self@, other@, t, i as int)
                        },
                    all_in_ring(nf@, id),
                decreases other@.len() - j,
            {
                let p = self.factors[i].multiply(&other.factors[j]);
                let s = nf[i + j].add(&p);
                nf.set(i + j, s);
                j += 1;
            }
            i += 1;
        }
        proof {
            assert(nf@ =~= product(self@, other@));
        }
        Manipulative { factors: nf }
    }

    /// The polynomial `c * x^m`: `m` copies of `z`, then `c`.
    fn monomial_poly(z: T, m: usize, c: T) -> (r: Manipulative<T>)
        requires
            z.valid(),
            c.valid(),
            z.ring_of() == c.ring_of(),
            m < usize::MAX,
        ensures
            r@ == monomial(z, m as nat, c),
            r.wf(),
            r.ring_id() == c.ring_of(),
    {
        let mut v: Vec<T> = Vec::with_capacity(m + 1);
        let mut i: usize = 0;
        while i < m
            invariant
                i <= m,
                v@ == monomial(z, m as nat, c).subrange(0, i as int),
            decreases m - i,
        {
            v.push(z);
            i += 1;
        }
        v.push(c);
        proof {
            assert(v@ =~= monomial(z, m as nat, c));
        }
        Manipulative { factors: v }
    }

    /// Long division: the quotient and remainder of `self` divided by
    /// `other`, or `DivisionByZero` when every coefficient of `other` is zero.
    pub fn divide_by(&self, other: &Manipulative<T>) -> (r: Result<
        (Manipulative<T>, Manipulative<T>),
        Error,
    >)
        requires
            self.wf(),
            other.wf(),
            self.ring_id() == other.ring_id(),
            self@.len() + other@.len() <= usize::MAX,
        ensures
            degree(other@) == -1 ==> r == Err::<(Manipulative<T>, Manipulative<T>), Error>(
                Error::DivisionByZero,
            ),
            degree(other@) >= 0 ==> (r matches Ok((q, rem)) && (q@, rem@) == quot_rem(self@, other@)
                && q.wf() && rem.wf() && q.ring_id() == self.ring_id() && rem.ring_id()
                == self.ring_id()),
    {
        let ghost id = self.ring_id();
        let mut top = other.factors.len();
        while top > 0 && other.factors[top - 1].is_zero()
            invariant
                top <= other@.len(),
                top_nonzero(other@, top as int) == degree(other@),
            decreases top,
        {
            top -= 1;
        }
        if top == 0 {
            return Err(Error::DivisionByZero);
        }
        let j = top - 1;
        proof {
            lemma_degree(other@);
        }
        let d = other.factors[j];
        let len = self.factors.len();
        let z = self.factors[0].zero();
        let mut qv: Vec<T> = Vec::with_capacity(len);
        let mut k: usize = 0;
        while k < len
            invariant
                k <= len,
                qv@ == Seq::new(len as nat, |i: int| z).subrange(0, k as int),
            decreases len - k,
        {
            qv.push(z);
            k += 1;
        }
        proof {
            assert(qv@ =~= Seq::new(len as nat, |i: int| z));
        }
        let mut q = Manipulative { factors: qv };
        let mut r = self.duplicate();
        let mut k: usize = len;
        while k > j
            invariant
                j < other@.len(),
                j as int == degree(other@),
                d == other@[j as int],
                d != d.zero_spec(),
                len == self@.len(),
                self.wf(),
                other.wf(),
                id == self.ring_id(),
                id == other.ring_id(),
                self@.len() + other@.len() <= usize::MAX,
                z == self@[0].zero_spec(),
                z.valid(),
                z.ring_of() == id,
                k <= len,
                q@.len() == len,
                r@.len() >= len,
                q.wf(),
                r.wf(),
                q.ring_id() == id,
                r.ring_id() == id,
                divide_steps(z, r@, q@, other@, j as int, k - 1) == quot_rem(self@, other@),
            decreases k,
        {
            let i = k - 1;
            if !r.factors[i].is_zero() {
                let a = r.factors[i].divide(&d);
                q.factors.set(i - j, a);
                let mono = Manipulative::monomial_poly(z, i - j, a);
                let o = other.mul(&mono);
                r.sub_assign(&o);
            }
            k = i;
        }
        Ok((q, r))
    }

    /// Replaces `self` by the product `self * other`.
    pub fn mul_assign(&mut self, other: &Manipulative<T>)
        requires
            old(self).wf(),
            other.wf(),
            old(self).ring_id() == other.ring_id(),
            old(self)@.len() + other@.len() <= usize::MAX,
        ensures
            final(self)@ == product(old(self)@, other@),
            final(self).wf(),
            final(self).ring_id() == old(self).ring_id(),
    {
        let r = self.mul(other);
        *self = r;
    }
}

impl Manipulative<Field> {
    /// The formal derivative: the coefficient of degree `i` becomes
    /// `(i + 1)` times the old coefficient of degree `i + 1`.
    pub fn diff(&self) -> (r: Manipulative<Field>)
        requires
            self.wf(),
        ensures
            r@ == derivative(self@),
            r.wf(),
            r.ring_id() == self.ring_id(),
    {
        let n = self.factors[0].n;
        if self.factors.len() == 1 {
            let v = vec![Field { v: 0, n }];
            proof {
                assert(v@ =~= derivative(self@));
            }
            return Manipulative { factors: v };
        }
        let mut nf: Vec<Field> = Vec::with_capacity(self.factors.len() - 1);
        let mut i: usize = 1;
        while i < self.factors.len()
            invariant
                self.wf(),
                self@[0].n == n,
                1 <= i <= self@.len(),
                nf@.len() == i - 1,
                forall|t: int| 0 <= t < i - 1 ==> #[trigger] nf@[t] == self@[t + 1].scale_spec(t + 1),
                forall|t: int| 0 <= t < i - 1 ==> (#[trigger] nf@[t]).wf() && nf@[t].n == n,
            decreases self@.len() - i,
        {
            let c = self.factors[i].scale(i as u64);
            nf.push(c);
            i += 1;
        }
        proof {
            assert(nf@ =~= derivative(self@));
        }
        Manipulative { factors: nf }
    }
}

} // verus!
