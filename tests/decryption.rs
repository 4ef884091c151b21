use finite_field::decryption::euclid_decrypt;
use finite_field::error::Error;
use finite_field::modulo::Field;

fn fields(v: &[i64], p: u32) -> Vec<Field> {
    v.iter().map(|x| Field::new(*x, p)).collect()
}

#[test]
fn decryption_test() {
    let w = euclid_decrypt(5, 4, 3, 2, &[1, 0, 2, 1]).unwrap();
    assert_eq!(w.factors(), &fields(&[4, 0, 2, 1], 5));
    let w = euclid_decrypt(5, 4, 3, 2, &[4, 0, 2, 1]).unwrap();
    assert_eq!(w.factors(), &fields(&[4, 0, 2, 1], 5));
    let w = euclid_decrypt(11, 7, 5, 2, &[1, -1, 1, 0, 3, 2, 0, 1]).unwrap();
    assert_eq!(w.factors(), &fields(&[1, 10, 1, 8, 3, 2, 5, 1], 11));
}

#[test]
fn single_error_is_corrected() {
    let w = euclid_decrypt(5, 4, 3, 2, &[1, 0, 2, 1]).unwrap();
    assert_eq!(w.factors(), &fields(&[4, 0, 2, 1], 5));
}

#[test]
fn clean_word_is_returned_unchanged() {
    let w = euclid_decrypt(5, 4, 3, 2, &[4, 0, 2, 1]).unwrap();
    assert_eq!(w.factors(), &fields(&[4, 0, 2, 1], 5));
    let w = euclid_decrypt(11, 7, 5, 2, &[1, 10, 1, 8, 3, 2, 5, 1]).unwrap();
    assert_eq!(w.factors(), &fields(&[1, 10, 1, 8, 3, 2, 5, 1], 11));
}

#[test]
fn two_errors_are_corrected() {
    let w = euclid_decrypt(11, 7, 5, 2, &[1, -1, 1, 0, 3, 2, 0, 1]).unwrap();
    assert_eq!(w.factors(), &fields(&[1, 10, 1, 8, 3, 2, 5, 1], 11));
}

#[test]
fn distance_out_of_range() {
    assert!(matches!(
        euclid_decrypt(5, 4, 1, 2, &[1, 0, 2, 1]),
        Err(Error::InvalidDistanceRange)
    ));
    assert!(matches!(
        euclid_decrypt(5, 4, 5, 2, &[1, 0, 2, 1]),
        Err(Error::InvalidDistanceRange)
    ));
    assert!(matches!(
        euclid_decrypt(11, 7, 8, 2, &[1, -1, 1, 0, 3, 2, 0, 1]),
        Err(Error::InvalidDistanceRange)
    ));
    assert!(matches!(
        euclid_decrypt(11, 7, 0, 2, &[1, -1, 1, 0, 3, 2, 0, 1]),
        Err(Error::InvalidDistanceRange)
    ));
    assert!(euclid_decrypt(5, 4, 2, 2, &[4, 0, 2, 1]).is_ok());
    assert!(euclid_decrypt(5, 4, 4, 2, &[4, 0, 2, 1]).is_ok());
}

#[test]
fn empty_word_is_refused() {
    assert!(matches!(
        euclid_decrypt(5, 4, 3, 2, &[]),
        Err(Error::EmptyPolynomial)
    ));
}
