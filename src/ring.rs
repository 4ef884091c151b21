//! The operations that a polynomial needs of its coefficients.
use crate::modulo::Field;
use vstd::prelude::*;

verus! {

/// Coefficients of a polynomial: elements with addition, subtraction,
/// multiplication, division, negation and a zero.
///
/// Each element belongs to one ring (`ring_of`); the binary operations take
/// two well-formed elements of the same ring and stay in it.
pub trait Ring: Sized + Copy {
    /// The element is well formed.
    spec fn valid(self) -> bool;

    /// Which ring the element belongs to.
    spec fn ring_of(self) -> int;

    /// The zero of the element's ring.
    spec fn zero_spec(self) -> Self;

    spec fn add_spec(self, o: Self) -> Self;

    spec fn sub_spec(self, o: Self) -> Self;

    spec fn mul_spec(self, o: Self) -> Self;

    spec fn div_spec(self, o: Self) -> Self;

    spec fn neg_spec(self) -> Self;

    fn zero(&self) -> (r: Self)
        requires
            self.valid(),
        ensures
            r == self.zero_spec(),
            r.valid(),
            r.ring_of() == self.ring_of(),
    ;

    fn is_zero(&self) -> (r: bool)
        ensures
            r == (*self == self.zero_spec()),
    ;

    fn same_ring(&self, o: &Self) -> (r: bool)
        ensures
            r == (self.ring_of() == o.ring_of()),
    ;

    fn add(&self, o: &Self) -> (r: Self)
        requires
            self.valid(),
            o.valid(),
            self.ring_of() == o.ring_of(),
        ensures
            r == self.add_spec(*o),
            r.valid(),
            r.ring_of() == self.ring_of(),
    ;

    fn subtract(&self, o: &Self) -> (r: Self)
        requires
            self.valid(),
            o.valid(),
            self.ring_of() == o.ring_of(),
        ensures
            r == self.sub_spec(*o),
            r.valid(),
            r.ring_of() == self.ring_of(),
    ;

    fn multiply(&self, o: &Self) -> (r: Self)
        requires
            self.valid(),
            o.valid(),
            self.ring_of() == o.ring_of(),
        ensures
            r == self.mul_spec(*o),
            r.valid(),
            r.ring_of() == self.ring_of(),
    ;

    fn divide(&self, o: &Self) -> (r: Self)
        requires
            self.valid(),
            o.valid(),
            self.ring_of() == o.ring_of(),
            *o != o.zero_spec(),
        ensures
            r == self.div_spec(*o),
            r.valid(),
            r.ring_of() == self.ring_of(),
    ;

    fn negate(&self) -> (r: Self)
        requires
            self.valid(),
        ensures
            r == self.neg_spec(),
            r.valid(),
            r.ring_of() == self.ring_of(),
    ;
}

/// Residues modulo `n`: one ring per modulus.
impl Ring for Field {
    open spec fn valid(self) -> bool {
        self.wf()
    }

    open spec fn ring_of(self) -> int {
        self.n as int
    }

    open spec fn zero_spec(self) -> Field {
        Field { v: 0, n: self.n }
    }

    open spec fn add_spec(self, o: Field) -> Field {
        Field::add_spec(self, o)
    }

    open spec fn sub_spec(self, o: Field) -> Field {
        Field::sub_spec(self, o)
    }

    open spec fn mul_spec(self, o: Field) -> Field {
        Field::mul_spec(self, o)
    }

    open spec fn div_spec(self, o: Field) -> Field {
        Field::div_spec(self, o)
    }

    open spec fn neg_spec(self) -> Field {
        Field::neg_spec(self)
    }

    fn zero(&self) -> (r: Field) {
        Field { v: 0, n: self.n }
    }

    fn is_zero(&self) -> (r: bool) {
        self.v == 0
    }

    fn same_ring(&self, o: &Field) -> (r: bool) {
        self.n == o.n
    }

    fn add(&self, o: &Field) -> (r: Field) {
        Field::add(self, o)
    }

    fn subtract(&self, o: &Field) -> (r: Field) {
        Field::sub(self, o)
    }

    fn multiply(&self, o: &Field) -> (r: Field) {
        Field::mul(self, o)
    }

    fn divide(&self, o: &Field) -> (r: Field) {
        Field::div(self, o)
    }

    fn negate(&self) -> (r: Field) {
        Field::neg(self)
    }
}

/// 32-bit integers with wrapping arithmetic (the ring of integers modulo
/// `2^32`) and truncating division.
impl Ring for i32 {
    open spec fn valid(self) -> bool {
        true
    }

    open spec fn ring_of(self) -> int {
        0
    }

    open spec fn zero_spec(self) -> i32 {
        0
    }

    open spec fn add_spec(self, o: i32) -> i32 {
        vstd::wrapping::i32_specs::wrapping_add(self, o)
    }

    open spec fn sub_spec(self, o: i32) -> i32 {
        vstd::wrapping::i32_specs::wrapping_sub(self, o)
    }

    open spec fn mul_spec(self, o: i32) -> i32 {
        vstd::wrapping::i32_specs::wrapping_mul(self, o)
    }

    open spec fn div_spec(self, o: i32) -> i32 {
        match self.checked_div(o) {
            Some(q) => q,
            None => self,
        }
    }

    open spec fn neg_spec(self) -> i32 {
        vstd::wrapping::i32_specs::wrapping_sub(0, self)
    }

    fn zero(&self) -> (r: i32) {
        0
    }

    fn is_zero(&self) -> (r: bool) {
        *self == 0
    }

    fn same_ring(&self, o: &i32) -> (r: bool) {
        true
    }

    fn add(&self, o: &i32) -> (r: i32) {
        self.wrapping_add(*o)
    }

    fn subtract(&self, o: &i32) -> (r: i32) {
        self.wrapping_sub(*o)
    }

    fn multiply(&self, o: &i32) -> (r: i32) {
        self.wrapping_mul(*o)
    }

    fn divide(&self, o: &i32) -> (r: i32) {
        match self.checked_div(*o) {
            Some(q) => q,
            None => *self,
        }
    }

    fn negate(&self) -> (r: i32) {
        0i32.wrapping_sub(*self)
    }
}

} // verus!
