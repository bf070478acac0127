use limbed_bigint::inverse::{mod_inverse, normalize_residue, try_mod_inverse};
use num_bigint::{BigInt, BigUint};

fn big(n: u64) -> BigUint {
    BigUint::from(n)
}

fn bn254_scalar_modulus() -> BigUint {
    BigUint::parse_bytes(
        b"21888242871839275222246405745257275088548364400416034343698204186575808495617",
        10,
    )
    .unwrap()
}

#[test]
fn mod_inverse_of_small_values() {
    assert_eq!(mod_inverse(&big(3), &big(7)), big(5));
    assert_eq!(mod_inverse(&big(10), &big(17)), big(12));
    assert_eq!(mod_inverse(&big(1), &big(2)), big(1));
    assert_eq!(mod_inverse(&big(7), &big(10)), big(3));
}

#[test]
fn mod_inverse_of_one_is_one() {
    assert_eq!(mod_inverse(&big(1), &big(97)), big(1));
    assert_eq!(mod_inverse(&big(1), &bn254_scalar_modulus()), big(1));
}

#[test]
fn mod_inverse_of_value_above_the_modulus() {
    assert_eq!(mod_inverse(&big(10), &big(7)), big(5));
    assert_eq!(mod_inverse(&big(7 * 1000 + 3), &big(7)), big(5));
}

#[test]
fn mod_inverse_modulo_one_is_zero() {
    assert_eq!(mod_inverse(&big(5), &big(1)), big(0));
}

#[test]
fn mod_inverse_times_element_is_one() {
    let m = bn254_scalar_modulus();
    for a in [2u64, 3, 65536, 0xdead_beef, u64::MAX] {
        let a = big(a);
        let inv = mod_inverse(&a, &m);
        assert!(inv < m);
        assert_eq!((&inv * &a) % &m, big(1));
    }
    let a = &m - big(1);
    assert_eq!(mod_inverse(&a, &m), a);
}

#[test]
fn mod_inverse_for_every_unit_of_a_small_modulus() {
    let m = 36u64;
    for a in 1..m {
        let coprime = (1..=a).filter(|d| a % d == 0 && m % d == 0).count() == 1;
        let found = try_mod_inverse(&big(a), &big(m));
        assert_eq!(found.is_some(), coprime);
        if let Some(inv) = found {
            assert!(inv < big(m));
            assert_eq!((inv * big(a)) % big(m), big(1));
            assert_eq!(mod_inverse(&big(a), &big(m)) * big(a) % big(m), big(1));
        }
    }
}

#[test]
fn try_mod_inverse_of_zero_is_none() {
    assert_eq!(try_mod_inverse(&big(0), &big(7)), None);
    assert_eq!(try_mod_inverse(&big(0), &big(1)), None);
}

#[test]
fn try_mod_inverse_modulo_zero_is_none() {
    assert_eq!(try_mod_inverse(&big(1), &big(0)), None);
    assert_eq!(try_mod_inverse(&big(5), &big(0)), None);
}

#[test]
fn try_mod_inverse_with_common_divisor_is_none() {
    assert_eq!(try_mod_inverse(&big(6), &big(9)), None);
    assert_eq!(try_mod_inverse(&big(9), &big(9)), None);
    assert_eq!(try_mod_inverse(&big(4), &big(2)), None);
}

#[test]
fn try_mod_inverse_agrees_with_mod_inverse() {
    assert_eq!(try_mod_inverse(&big(3), &big(7)), Some(big(5)));
    assert_eq!(try_mod_inverse(&big(10), &big(7)), Some(big(5)));
    assert_eq!(try_mod_inverse(&big(5), &big(1)), Some(big(0)));
}

#[test]
fn normalize_residue_keeps_a_residue() {
    assert_eq!(normalize_residue(&BigInt::from(0), &big(7)), big(0));
    assert_eq!(normalize_residue(&BigInt::from(6), &big(7)), big(6));
}

#[test]
fn normalize_residue_raises_a_negative_coefficient() {
    assert_eq!(normalize_residue(&BigInt::from(-1), &big(7)), big(6));
    assert_eq!(normalize_residue(&BigInt::from(-6), &big(7)), big(1));
    assert_eq!(normalize_residue(&BigInt::from(-7), &big(7)), big(0));
}

#[test]
fn normalize_residue_reduces_what_is_out_of_range() {
    assert_eq!(normalize_residue(&BigInt::from(7), &big(7)), big(0));
    assert_eq!(normalize_residue(&BigInt::from(23), &big(7)), big(2));
    assert_eq!(normalize_residue(&BigInt::from(-8), &big(7)), big(6));
    assert_eq!(normalize_residue(&BigInt::from(-23), &big(7)), big(5));
    assert_eq!(normalize_residue(&BigInt::from(-23), &big(1)), big(0));
}
