use finite_field::modulo::Field;

#[test]
fn modulo_add_test() {
    let mut x = Field::new(1, 3).add(&Field::new(4, 3));
    assert_eq!(x, Field::new(2, 3));
    x = x.add(&x.clone());
    assert_eq!(x, Field::new(1, 3));
}

#[test]
fn modulo_sub_test() {
    let x = Field::new(2, 3).sub(&Field::new(4, 3));
    assert_eq!(x, Field::new(1, 3));
}

#[test]
fn modulo_mul_test() {
    let x = Field::new(2, 5).mul(&Field::new(4, 5));
    assert_eq!(x, Field::new(3, 5));
}

#[test]
fn modulo_div_test() {
    let mut x = Field::new(2, 5).div(&Field::new(3, 5));
    assert_eq!(x, Field::new(4, 5));
    x = x.div(&x.clone());
    assert_eq!(x, Field::new(1, 5));
}

#[test]
fn not_test() {
    // modulo 2, one is its own inverse and zero maps to zero
    let x = Field::new(1, 2).invert();
    assert_eq!(x, Field::new(1, 2));
    assert_eq!(Field::new(0, 2).invert(), Field::new(0, 2));
}

#[test]
fn neg_test() {
    let x = Field::new(2, 3).neg();
    assert_eq!(x, Field::new(1, 3));
}

#[test]
fn new_normalizes_negative_values() {
    assert_eq!(Field::new(-1, 5), Field { v: 4, n: 5 });
    assert_eq!(Field::new(-11, 11), Field { v: 0, n: 11 });
    assert_eq!(Field::new(23, 7), Field { v: 2, n: 7 });
    assert_eq!(Field::new(i64::MIN, 3).v, 1);
}

#[test]
fn inverse_times_element_is_one() {
    for p in [2u32, 3, 5, 7, 11, 13, 65521] {
        for v in 1..p.min(200) {
            let x = Field::new(v as i64, p);
            assert_eq!(x.mul(&x.invert()), Field::new(1, p));
        }
    }
}

#[test]
fn inverse_by_fermat() {
    // 3^(7-2) = 243 == 5 (mod 7)
    assert_eq!(Field::new(3, 7).invert(), Field::new(5, 7));
    assert_eq!(Field::new(0, 7).invert(), Field::new(0, 7));
}

#[test]
fn large_modulus_does_not_overflow() {
    let p = 4_294_967_291u32; // the largest prime below 2^32
    let x = Field::new(p as i64 - 1, p);
    assert_eq!(x.mul(&x), Field::new(1, p));
    assert_eq!(x.add(&x), Field::new(p as i64 - 2, p));
    assert_eq!(x.mul(&x.invert()), Field::new(1, p));
    assert_eq!(x.scale(u64::MAX).v as u64, (u64::MAX % p as u64 * (p as u64 - 1)) % p as u64);
}
