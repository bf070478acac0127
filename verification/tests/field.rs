use limbed_bigint::convert::{biguint_to_fe, fe_to_biguint};
use limbed_bigint::field::{FieldElement, PrimeField};
use num_bigint::BigUint;

fn big(n: u64) -> BigUint {
    BigUint::from(n)
}

fn small_field() -> PrimeField {
    PrimeField::new(big(97), 1).unwrap()
}

fn el(n: u64, field: &PrimeField) -> FieldElement {
    biguint_to_fe(big(n), field)
}

fn val(e: &FieldElement) -> BigUint {
    fe_to_biguint(e)
}

#[test]
fn field_needs_a_characteristic_above_one() {
    assert!(PrimeField::new(big(0), 1).is_none());
    assert!(PrimeField::new(big(1), 1).is_none());
    assert!(PrimeField::new(big(2), 1).is_some());
}

#[test]
fn field_needs_a_representation_that_holds_the_characteristic() {
    assert!(PrimeField::new(big(97), 0).is_none());
    assert!(PrimeField::new(big(u64::MAX), 1).is_some());
    assert!(PrimeField::new(big(1) << 64, 1).is_none());
    assert!(PrimeField::new(big(1) << 64, 2).is_some());
    assert!(PrimeField::new(big(97), usize::MAX).is_none());
}

#[test]
fn field_keeps_what_it_was_made_with() {
    let field = PrimeField::new(big(97), 3).unwrap();
    assert_eq!(field.characteristic, big(97));
    assert_eq!(field.repr_words, 3);
    assert!(field.is_well_formed());
    assert!(!PrimeField { characteristic: big(1), repr_words: 1 }.is_well_formed());
    assert!(!PrimeField { characteristic: big(1) << 64, repr_words: 1 }.is_well_formed());
}

#[test]
fn field_contains_canonical_elements_only() {
    let field = small_field();
    assert!(field.contains(&FieldElement { words: vec![0] }));
    assert!(field.contains(&FieldElement { words: vec![96] }));
    assert!(!field.contains(&FieldElement { words: vec![97] }));
    assert!(!field.contains(&FieldElement { words: vec![5, 0] }));
    assert!(!field.contains(&FieldElement { words: vec![] }));
}

#[test]
fn field_zero_and_one() {
    let field = small_field();
    assert_eq!(val(&field.zero()), big(0));
    assert_eq!(val(&field.one()), big(1));
}

#[test]
fn field_addition_wraps_at_the_characteristic() {
    let field = small_field();
    assert_eq!(val(&field.add(&el(40, &field), &el(50, &field))), big(90));
    assert_eq!(val(&field.add(&el(40, &field), &el(57, &field))), big(0));
    assert_eq!(val(&field.add(&el(96, &field), &el(96, &field))), big(95));
    assert_eq!(val(&field.double(&el(50, &field))), big(3));
    assert_eq!(val(&field.double(&el(1, &field))), big(2));
}

#[test]
fn field_multiplication_wraps_at_the_characteristic() {
    let field = small_field();
    assert_eq!(val(&field.mul(&el(9, &field), &el(10, &field))), big(90));
    assert_eq!(val(&field.mul(&el(10, &field), &el(10, &field))), big(3));
    assert_eq!(val(&field.mul(&el(96, &field), &el(96, &field))), big(1));
    assert_eq!(val(&field.mul(&el(0, &field), &el(96, &field))), big(0));
}

#[test]
fn field_negation() {
    let field = small_field();
    assert_eq!(val(&field.negate(&el(0, &field))), big(0));
    assert_eq!(val(&field.negate(&el(1, &field))), big(96));
    assert_eq!(val(&field.negate(&el(96, &field))), big(1));
}

#[test]
fn field_inverse_of_every_element_of_a_prime_field() {
    let field = small_field();
    assert!(field.inverse(&el(0, &field)).is_none());
    for a in 1..97u64 {
        let inv = field.inverse(&el(a, &field)).unwrap();
        assert!(field.contains(&inv));
        assert_eq!(val(&field.mul(&inv, &el(a, &field))), big(1));
    }
    assert_eq!(val(&field.inverse(&el(2, &field)).unwrap()), big(49));
}

#[test]
fn ring_inverse_only_of_the_units() {
    let ring = PrimeField::new(big(15), 1).unwrap();
    assert!(ring.inverse(&el(3, &ring)).is_none());
    assert!(ring.inverse(&el(10, &ring)).is_none());
    assert_eq!(val(&ring.inverse(&el(2, &ring)).unwrap()), big(8));
    assert_eq!(val(&ring.inverse(&el(14, &ring)).unwrap()), big(14));
}

#[test]
fn element_clone_is_equal() {
    let field = small_field();
    let a = el(42, &field);
    assert_eq!(a.clone(), a);
}

#[test]
fn element_from_decimal_text() {
    let field = small_field();
    assert_eq!(field.from_str("0"), Some(el(0, &field)));
    assert_eq!(field.from_str("7"), Some(el(7, &field)));
    assert_eq!(field.from_str("96"), Some(el(96, &field)));
    assert_eq!(field.from_str("10"), Some(el(10, &field)));
}

#[test]
fn element_from_decimal_text_is_reduced() {
    let field = small_field();
    assert_eq!(field.from_str("97"), Some(el(0, &field)));
    assert_eq!(field.from_str("1000"), Some(el(1000 % 97, &field)));
    assert_eq!(
        field.from_str("340282366920938463463374607431768211456"),
        Some(el(35, &field))
    );
}

#[test]
fn element_from_text_that_is_no_number() {
    let field = small_field();
    assert_eq!(field.from_str(""), None);
    assert_eq!(field.from_str("00"), None);
    assert_eq!(field.from_str("012"), None);
    assert_eq!(field.from_str("12a"), None);
    assert_eq!(field.from_str("a12"), None);
    assert_eq!(field.from_str("-1"), None);
    assert_eq!(field.from_str("+1"), None);
    assert_eq!(field.from_str("1 2"), None);
    assert_eq!(field.from_str("1.5"), None);
    assert_eq!(field.from_str("\u{0663}"), None);
    assert_eq!(field.from_str("/"), None);
    assert_eq!(field.from_str(":"), None);
}

#[test]
fn element_from_big_integer() {
    let field = PrimeField::new(big(1) << 100usize, 3).unwrap();
    let v: BigUint = (big(5) << 64usize) + big(9);
    assert_eq!(field.from_biguint(v.clone()).words, vec![9, 5, 0]);
    assert_eq!(field.reduce(&v).words, vec![9, 5, 0]);
    assert_eq!(field.reduce(&((big(1) << 100usize) + big(3))).words, vec![3, 0, 0]);
    assert_eq!(field.reduce(&(big(7) << 100usize)).words, vec![0, 0, 0]);
}
