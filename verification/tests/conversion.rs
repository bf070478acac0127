use limbed_bigint::convert::{biguint_to_fe, fe_to_biguint, get_num_bits, repr_to_biguint};
use limbed_bigint::field::{FieldElement, PrimeField};
use num_bigint::BigUint;

fn big(n: u64) -> BigUint {
    BigUint::from(n)
}

fn pow2(k: usize) -> BigUint {
    big(1) << k
}

fn bn254_scalar_field() -> PrimeField {
    let modulus = BigUint::parse_bytes(
        b"21888242871839275222246405745257275088548364400416034343698204186575808495617",
        10,
    )
    .unwrap();
    PrimeField::new(modulus, 4).unwrap()
}

#[test]
fn bit_length_of_zero_is_zero() {
    let field = bn254_scalar_field();
    assert_eq!(get_num_bits(&biguint_to_fe(big(0), &field)), 0);
    assert_eq!(get_num_bits(&FieldElement { words: vec![0, 0, 0, 0] }), 0);
    assert_eq!(get_num_bits(&FieldElement { words: vec![] }), 0);
}

#[test]
fn bit_length_of_a_power_of_two() {
    let field = bn254_scalar_field();
    for k in [0usize, 1, 2, 31, 32, 62, 63, 64, 65, 127, 128, 129, 191, 192, 200, 252] {
        let el = biguint_to_fe(pow2(k), &field);
        assert_eq!(get_num_bits(&el), k + 1);
    }
}

#[test]
fn bit_length_of_a_power_of_two_less_one() {
    let field = bn254_scalar_field();
    for k in [0usize, 1, 2, 31, 32, 62, 63, 64, 65, 127, 128, 129, 191, 192, 200, 253] {
        let el = biguint_to_fe(pow2(k) - big(1), &field);
        assert_eq!(get_num_bits(&el), k);
    }
}

#[test]
fn bit_length_is_exact_not_rounded_to_words() {
    assert_eq!(get_num_bits(&FieldElement { words: vec![5] }), 3);
    assert_eq!(get_num_bits(&FieldElement { words: vec![u64::MAX] }), 64);
    assert_eq!(get_num_bits(&FieldElement { words: vec![0, 1] }), 65);
    assert_eq!(get_num_bits(&FieldElement { words: vec![u64::MAX, 0x10, 0, 0] }), 69);
    assert_eq!(get_num_bits(&FieldElement { words: vec![0, 0, 0, 1 << 63] }), 256);
}

#[test]
fn bit_length_agrees_with_the_big_integer() {
    let field = bn254_scalar_field();
    let v = BigUint::parse_bytes(b"1234567890abcdef1234567890abcdef1234567890abcdef", 16).unwrap();
    assert_eq!(get_num_bits(&biguint_to_fe(v.clone(), &field)) as u64, v.bits());
}

#[test]
fn representation_is_read_least_significant_word_first() {
    assert_eq!(repr_to_biguint(&[]), big(0));
    assert_eq!(repr_to_biguint(&[7]), big(7));
    assert_eq!(repr_to_biguint(&[1, 2]), big(1) + (big(2) << 64));
    assert_eq!(repr_to_biguint(&[0, 0, 3, 0]), big(3) << 128);
    assert_eq!(repr_to_biguint(&[u64::MAX, u64::MAX]), pow2(128) - big(1));
}

#[test]
fn element_holds_the_words_of_its_value() {
    let field = bn254_scalar_field();
    let el = biguint_to_fe(big(1) + (big(2) << 64) + (big(3) << 192), &field);
    assert_eq!(el.words, vec![1, 2, 0, 3]);
    assert_eq!(el.into_repr(), &[1u64, 2, 0, 3][..]);
    assert_eq!(biguint_to_fe(big(0), &field).words, vec![0, 0, 0, 0]);
}

#[test]
fn conversion_round_trip() {
    let field = bn254_scalar_field();
    let top = &field.characteristic - big(1);
    let values = vec![
        big(0),
        big(1),
        big(u64::MAX),
        pow2(64),
        pow2(200) + big(12345),
        BigUint::parse_bytes(b"1234567890abcdef1234567890abcdef1234567890abcdef", 16).unwrap(),
        top,
    ];
    for v in values {
        assert_eq!(fe_to_biguint(&biguint_to_fe(v.clone(), &field)), v);
    }
}

#[test]
fn conversion_round_trip_in_a_one_word_field() {
    let field = PrimeField::new(big((1 << 61) - 1), 1).unwrap();
    for v in [0u64, 1, 2, 65536, (1 << 61) - 2] {
        let el = biguint_to_fe(big(v), &field);
        assert_eq!(el.words, vec![v]);
        assert_eq!(fe_to_biguint(&el), big(v));
    }
}
