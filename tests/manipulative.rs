use finite_field::error::Error;
use finite_field::manipulative::Manipulative;
use finite_field::modulo::Field;

fn poly(v: Vec<i32>) -> Manipulative<i32> {
    Manipulative::new(v).unwrap()
}

fn fpoly(v: &[i64], p: u32) -> Manipulative<Field> {
    Manipulative::new(v.iter().map(|x| Field::new(*x, p)).collect()).unwrap()
}

fn fields(v: &[i64], p: u32) -> Vec<Field> {
    v.iter().map(|x| Field::new(*x, p)).collect()
}

#[test]
fn manipulative_add_test() {
    let a = poly(vec![1, 5]);
    let b = poly(vec![2, 2, 3]);
    assert_eq!(a.add(&b).factors(), &vec![3, 7, 3]);
    assert_eq!(b.add(&a).factors(), &vec![3, 7, 3]);
}

#[test]
fn manipulative_sub_test() {
    let a = poly(vec![1, 5]);
    let b = poly(vec![2, 2, 3]);
    assert_eq!(a.sub(&b).factors(), &vec![-1, 3, -3]);
    assert_eq!(b.sub(&a).factors(), &vec![1, -3, 3]);
}

#[test]
fn manipulative_mul_test() {
    let a = poly(vec![1, 2]);
    let b = poly(vec![1, 1]);
    assert_eq!(a.mul(&b).factors(), &vec![1, 3, 2]);
    assert_eq!(b.mul(&a).factors(), &vec![1, 3, 2]);
}

fn check_div(a: Vec<i32>, b: Vec<i32>, q: Vec<i32>, r: Vec<i32>) {
    let (qq, rr) = poly(a).divide_by(&poly(b)).unwrap();
    assert_eq!(qq.factors(), &q);
    assert_eq!(rr.factors(), &r);
}

#[test]
fn manipulative_div_test() {
    check_div(vec![1, 2, 1], vec![1, 1], vec![1, 1, 0], vec![0, 0, 0]);
    check_div(
        vec![-2, -3, -1, 0],
        vec![1, 1, 0, 0, 0],
        vec![-2, -1, 0, 0],
        vec![0, 0, 0, 0, 0, 0],
    );
    check_div(vec![2, 3, 1, 0], vec![1, 0, 0], vec![2, 3, 1, 0], vec![0, 0, 0, 0, 0]);
    check_div(vec![2, 3, 1, 0], vec![0, 1, 0], vec![3, 1, 0, 0], vec![2, 0, 0, 0]);
    check_div(vec![2, 3, 1, 0], vec![1, 1, 1, 0], vec![1, 0, 0, 0], vec![1, 2, 0, 0]);
}

#[test]
fn assign_test() {
    let a = poly(vec![2, -3, 1, 0]);
    assert_eq!(a.assign(3), 2);
}

#[test]
fn empty_polynomial_is_refused() {
    let r = Manipulative::<i32>::new(vec![]);
    assert!(matches!(r, Err(Error::EmptyPolynomial)));
}

#[test]
fn mixed_moduli_are_refused() {
    let r = Manipulative::new(vec![Field::new(1, 5), Field::new(1, 7)]);
    assert!(matches!(r, Err(Error::ModulusMismatch)));
}

#[test]
fn division_by_zero_polynomial() {
    let a = fpoly(&[1, 2, 3], 5);
    let b = fpoly(&[0, 0], 5);
    assert!(matches!(a.divide_by(&b), Err(Error::DivisionByZero)));
}

#[test]
fn division_skips_zero_leading_coefficients() {
    // divisor [1, 2, 0, 0] has degree 1 though it holds four coefficients
    let a = fpoly(&[3, 0, 4, 1], 7);
    let b = fpoly(&[1, 2, 0, 0], 7);
    let (q, r) = a.divide_by(&b).unwrap();
    assert!(r.deg() < b.deg());
    let back = q.mul(&b).add(&r);
    let want = fields(&[3, 0, 4, 1], 7);
    for (k, c) in back.factors().iter().enumerate() {
        if k < want.len() {
            assert_eq!(*c, want[k]);
        } else {
            assert_eq!(c.v, 0);
        }
    }
}

#[test]
fn division_law_holds_on_field_polynomials() {
    let p = 11;
    let cases: Vec<(Vec<i64>, Vec<i64>)> = vec![
        (vec![5, 0, 3, 7, 1, 9], vec![2, 1]),
        (vec![1, 2, 3, 4, 5, 6, 7], vec![3, 0, 5]),
        (vec![4, 4], vec![1, 2, 3, 4]),
        (vec![0, 0, 0], vec![7]),
        (vec![10, 9, 8, 7], vec![6, 5, 0, 0, 0, 0]),
    ];
    for (a, b) in cases {
        let pa = fpoly(&a, p);
        let pb = fpoly(&b, p);
        let (q, r) = pa.divide_by(&pb).unwrap();
        assert_eq!(q.len(), pa.len());
        assert!(r.deg() < pb.deg());
        let back = q.mul(&pb).add(&r);
        let want = fields(&a, p);
        for (k, c) in back.factors().iter().enumerate() {
            let w = if k < want.len() { want[k].v } else { 0 };
            assert_eq!(c.v, w);
        }
    }
}

#[test]
fn product_length_is_sum_minus_one() {
    for la in 1..5usize {
        for lb in 1..5usize {
            let a = fpoly(&vec![3; la], 7);
            let b = fpoly(&vec![0; lb], 7);
            assert_eq!(a.mul(&b).len(), la + lb - 1);
        }
    }
}

#[test]
fn product_over_field() {
    // (1 + x)(4 + x) = 4 + 5x + x^2 == 4 + 0x + x^2 (mod 5)
    let a = fpoly(&[1, 1], 5);
    let b = fpoly(&[4, 1], 5);
    assert_eq!(a.mul(&b).factors(), &fields(&[4, 0, 1], 5));
}

#[test]
fn degree_ignores_trailing_zeros() {
    assert_eq!(fpoly(&[1, 2, 0, 0], 5).deg(), 1);
    assert_eq!(fpoly(&[0, 0, 0], 5).deg(), -1);
    assert_eq!(fpoly(&[5], 5).deg(), -1);
    assert_eq!(fpoly(&[0, 0, 3], 5).deg(), 2);
}

#[test]
fn derivative_of_polynomial() {
    // d/dx (1 + 2x + 3x^2 + 4x^3) = 2 + 6x + 12x^2 == 2 + x + 2x^2 (mod 5)
    let a = fpoly(&[1, 2, 3, 4], 5);
    assert_eq!(a.diff().factors(), &fields(&[2, 1, 2], 5));
    let c = fpoly(&[3], 5);
    assert_eq!(c.diff().factors(), &fields(&[0], 5));
}

#[test]
fn evaluation_over_field() {
    // 1 + 2x + 3x^2 at x = 2: 1 + 4 + 12 = 17 == 3 (mod 7)
    let a = fpoly(&[1, 2, 3], 7);
    assert_eq!(a.assign(Field::new(2, 7)), Field::new(3, 7));
}

#[test]
fn subtraction_over_field_negates_tail() {
    let a = fpoly(&[1], 5);
    let b = fpoly(&[2, 3], 5);
    assert_eq!(a.sub(&b).factors(), &fields(&[4, 2], 5));
}
