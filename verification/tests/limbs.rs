use limbed_bigint::convert::{biguint_to_fe, fe_to_biguint};
use limbed_bigint::field::{FieldElement, PrimeField};
use limbed_bigint::limb::Limb;
use limbed_bigint::limbed::LimbedBigUint;
use limbed_bigint::params::LimbedRepresentationParameters;
use limbed_bigint::split::split_into_fixed_number_of_limbs;
use limbed_bigint::term::{AllocatedNum, Collapsed, Num, Term, Variable};
use num_bigint::BigUint;

const P61: u64 = (1 << 61) - 1;

fn big(n: u64) -> BigUint {
    BigUint::from(n)
}

fn field61() -> PrimeField {
    PrimeField::new(big(P61), 1).unwrap()
}

fn el(n: u64, field: &PrimeField) -> FieldElement {
    biguint_to_fe(big(n), field)
}

fn constant_limb(value: u64, bound: u64, field: &PrimeField) -> Limb {
    Limb::new(Term::from_constant(el(value, field), field), big(bound))
}

fn variable_limb(value: Option<u64>, index: usize, bound: u64, field: &PrimeField) -> Limb {
    let num = Num::Variable(AllocatedNum {
        value: value.map(|v| el(v, field)),
        variable: Variable { index },
    });
    Limb::new(Term::from_num(num, field), big(bound))
}

#[test]
fn limb_keeps_term_and_bound() {
    let field = field61();
    let limb = constant_limb(5, 10, &field);
    assert_eq!(limb.max_value(), big(10));
    assert_eq!(limb.max_value, big(10));
    assert_eq!(limb.get_value(&field), big(5));
    assert_eq!(limb.get_field_value(&field), el(5, &field));
    assert!(limb.is_constant());
}

#[test]
fn max_bits_has_one_bit_of_margin() {
    let field = field61();
    assert_eq!(constant_limb(0, 0, &field).max_bits(), 1);
    assert_eq!(constant_limb(0, 1, &field).max_bits(), 2);
    assert_eq!(constant_limb(0, 255, &field).max_bits(), 9);
    assert_eq!(constant_limb(0, 256, &field).max_bits(), 10);
    let mut wide = Limb::new(Term::from_constant(el(0, &field), &field), (big(1) << 200) - big(1));
    assert_eq!(wide.max_bits(), 201);
    assert_eq!(wide.max_value(), (big(1) << 200) - big(1));
}

#[test]
fn inc_max_adds_to_the_bound_only() {
    let field = field61();
    let mut limb = constant_limb(5, 10, &field);
    limb.inc_max(&big(7));
    assert_eq!(limb.max_value(), big(17));
    assert_eq!(limb.get_value(&field), big(5));
    limb.inc_max(&big(0));
    assert_eq!(limb.max_value(), big(17));
}

#[test]
fn scale_max_multiplies_the_bound_only() {
    let field = field61();
    let mut limb = constant_limb(5, 10, &field);
    limb.scale_max(&big(7));
    assert_eq!(limb.max_value(), big(70));
    assert_eq!(limb.get_value(&field), big(5));
    limb.scale_max(&(big(1) << 100));
    assert_eq!(limb.max_value(), big(70) << 100);
}

#[test]
fn scale_multiplies_value_and_bound() {
    let field = field61();
    let mut limb = constant_limb(5, 10, &field);
    limb.scale(&el(3, &field), &field);
    assert_eq!(limb.get_value(&field), big(15));
    assert_eq!(limb.max_value(), big(30));
}

#[test]
fn scale_of_a_variable_limb() {
    let field = field61();
    let mut limb = variable_limb(Some(6), 3, 6, &field);
    limb.add_constant(&el(4, &field), &field);
    limb.inc_max(&big(4));
    limb.scale(&el(5, &field), &field);
    assert_eq!(limb.get_value(&field), big(50));
    assert_eq!(limb.max_value(), big(50));
    assert_eq!(limb.term.coeff, el(5, &field));
    assert_eq!(limb.term.constant_term, el(20, &field));
    assert!(!limb.is_constant());
}

#[test]
fn scale_that_wraps_stays_within_the_bound() {
    let field = field61();
    let mut limb = constant_limb(15, 20, &field);
    limb.scale(&el(P61 - 1, &field), &field);
    assert_eq!(limb.get_value(&field), big(P61 - 15));
    assert_eq!(limb.max_value(), big(20) * big(P61 - 1));
    assert!(limb.get_value(&field) <= limb.max_value());
}

#[test]
fn negate_leaves_the_bound() {
    let field = field61();
    let mut limb = constant_limb(5, 10, &field);
    limb.negate(&field);
    assert_eq!(limb.get_value(&field), big(P61 - 5));
    assert_eq!(limb.max_value(), big(10));
    limb.negate(&field);
    assert_eq!(limb.get_value(&field), big(5));
    let mut zero = constant_limb(0, 0, &field);
    zero.negate(&field);
    assert_eq!(zero.get_value(&field), big(0));
}

#[test]
fn negate_of_a_shifted_variable_limb() {
    let field = field61();
    let mut limb = variable_limb(Some(6), 0, 100, &field);
    limb.scale(&el(2, &field), &field);
    limb.add_constant(&el(1, &field), &field);
    limb.negate(&field);
    assert_eq!(limb.get_value(&field), big(P61 - 13));
    assert_eq!(limb.term.coeff, el(P61 - 2, &field));
    assert_eq!(limb.term.constant_term, el(P61 - 1, &field));
}

#[test]
fn add_constant_leaves_the_bound() {
    let field = field61();
    let mut limb = constant_limb(5, 10, &field);
    limb.add_constant(&el(7, &field), &field);
    assert_eq!(limb.get_value(&field), big(12));
    assert_eq!(limb.max_value(), big(10));
    limb.add_constant(&el(P61 - 12, &field), &field);
    assert_eq!(limb.get_value(&field), big(0));
}

#[test]
fn bound_holds_after_a_sequence_of_paired_operations() {
    let field = field61();
    let mut limb = variable_limb(Some(65535), 0, 65535, &field);
    let steps: Vec<(u8, u64)> = vec![
        (0, 3),
        (1, 12),
        (2, 5),
        (0, 65536),
        (0, P61 - 1),
        (1, 0),
        (2, 1),
        (0, 0x1234_5678_9abc),
        (0, 1),
        (2, 1000),
    ];
    for (kind, by) in steps {
        match kind {
            0 => limb.scale(&el(by, &field), &field),
            1 => limb.inc_max(&big(by)),
            _ => limb.scale_max(&big(by)),
        }
        assert!(limb.get_value(&field) <= limb.max_value());
    }
    limb.scale(&el(0, &field), &field);
    assert_eq!(limb.get_value(&field), big(0));
    assert_eq!(limb.max_value(), big(0));
}

#[test]
fn scale_max_by_zero_can_break_the_bound() {
    let field = field61();
    let mut limb = constant_limb(1, 1, &field);
    limb.scale_max(&big(0));
    assert_eq!(limb.max_value(), big(0));
    assert!(limb.get_value(&field) > limb.max_value());
}

#[test]
fn term_without_an_assignment_has_no_value() {
    let field = field61();
    let limb = variable_limb(None, 4, 10, &field);
    assert_eq!(limb.term.get_value(&field), None);
    assert!(!limb.term.is_constant());
    assert!(limb.term.is_over(&field));
}

#[test]
fn term_is_over_its_field_only() {
    let field = field61();
    let small = PrimeField::new(big(97), 1).unwrap();
    let limb = constant_limb(100, 100, &field);
    assert!(limb.term.is_over(&field));
    assert!(!limb.term.is_over(&small));
    let num = Num::Variable(AllocatedNum { value: Some(el(100, &field)), variable: Variable { index: 0 } });
    assert!(num.is_over(&field));
    assert!(!num.is_over(&small));
}

#[test]
fn collapse_of_a_constant_limb() {
    let field = field61();
    let mut limb = constant_limb(5, 10, &field);
    limb.scale(&el(3, &field), &field);
    limb.add_constant(&el(1, &field), &field);
    assert_eq!(limb.collapse_into_constant(&field), el(16, &field));
    assert_eq!(limb.collapse_into_num(&field), Collapsed::Ready(Num::Constant(el(16, &field))));
    assert_eq!(limb.term.get_constant_value(&field), el(16, &field));
}

#[test]
fn collapse_of_a_plain_variable_is_the_variable() {
    let field = field61();
    let limb = variable_limb(Some(9), 7, 10, &field);
    let expected = Num::Variable(AllocatedNum { value: Some(el(9, &field)), variable: Variable { index: 7 } });
    assert_eq!(limb.collapse_into_num(&field), Collapsed::Ready(expected));
    let unassigned = variable_limb(None, 8, 10, &field);
    let expected = Num::Variable(AllocatedNum { value: None, variable: Variable { index: 8 } });
    assert_eq!(unassigned.collapse_into_num(&field), Collapsed::Ready(expected));
}

#[test]
fn collapse_of_a_changed_variable_asks_for_a_new_one() {
    let field = field61();
    let mut limb = variable_limb(Some(9), 7, 10, &field);
    limb.scale(&el(2, &field), &field);
    assert_eq!(limb.collapse_into_num(&field), Collapsed::Allocate(Some(el(18, &field))));
    let mut shifted = variable_limb(Some(9), 7, 10, &field);
    shifted.add_constant(&el(1, &field), &field);
    assert_eq!(shifted.collapse_into_num(&field), Collapsed::Allocate(Some(el(10, &field))));
    let mut unassigned = variable_limb(None, 7, 10, &field);
    unassigned.negate(&field);
    assert_eq!(unassigned.collapse_into_num(&field), Collapsed::Allocate(None));
}

#[test]
fn limbed_value_weights_the_first_limb_least() {
    let field = field61();
    let params = LimbedRepresentationParameters::new(field, 16, 40);
    let limbs = vec![
        constant_limb(0x2345, 0xffff, &params.field),
        constant_limb(0x1, 0xffff, &params.field),
        constant_limb(0x0, 0xffff, &params.field),
    ];
    let number = LimbedBigUint::new(&params, limbs);
    assert_eq!(number.num_limbs, 3);
    assert!(number.is_constant);
    assert_eq!(number.get_value(), big(0x1_2345));
}

#[test]
fn limbed_value_of_limbs_above_their_width() {
    let field = field61();
    let params = LimbedRepresentationParameters::new(field, 16, 40);
    let limbs = vec![
        constant_limb(0x1_0005, 0x1_ffff, &params.field),
        variable_limb(Some(0x3_0000), 0, 0x3_ffff, &params.field),
    ];
    let number = LimbedBigUint::new(&params, limbs);
    assert!(!number.is_constant);
    assert_eq!(number.get_value(), big(0x1_0005 + (0x3_0000 << 16)));
}

#[test]
fn limbed_value_of_no_limbs_is_zero() {
    let field = field61();
    let params = LimbedRepresentationParameters::new(field, 16, 40);
    let number = LimbedBigUint::new(&params, Vec::new());
    assert_eq!(number.num_limbs, 0);
    assert!(number.is_constant);
    assert_eq!(number.get_value(), big(0));
}

#[test]
fn limbed_value_of_split_limbs_is_the_value() {
    let field = field61();
    let params = LimbedRepresentationParameters::new(field, 16, 40);
    let v = BigUint::parse_bytes(b"123456789abcdef0fedcba9876543210", 16).unwrap();
    let raw = split_into_fixed_number_of_limbs(v.clone(), 16, 10);
    let limbs = raw
        .iter()
        .map(|limb| Limb::new(Term::from_constant(biguint_to_fe(limb.clone(), &params.field), &params.field), params.limb_max_value.clone()))
        .collect();
    assert_eq!(LimbedBigUint::new(&params, limbs).get_value(), v);
}

#[test]
fn limbed_from_big_integer() {
    let field = field61();
    let params = LimbedRepresentationParameters::new(field, 16, 40);
    let number = LimbedBigUint::from_biguint(&params, big(0x1_2345), 3).unwrap();
    assert_eq!(number.num_limbs, 3);
    assert!(number.is_constant);
    let values: Vec<BigUint> = number.limbs.iter().map(|l| l.get_value(&params.field)).collect();
    assert_eq!(values, vec![big(0x2345), big(0x1), big(0x0)]);
    for limb in &number.limbs {
        assert_eq!(limb.max_value(), big(0xffff));
        assert_eq!(fe_to_biguint(&limb.term.coeff), big(1));
    }
    assert_eq!(number.get_value(), big(0x1_2345));
}

#[test]
fn limbed_from_big_integer_with_too_few_limbs() {
    let field = field61();
    let params = LimbedRepresentationParameters::new(field, 16, 40);
    let number = LimbedBigUint::from_biguint(&params, big(0xabcd_1234_5678), 2).unwrap();
    assert_eq!(number.get_value(), big(0x1234_5678));
}

#[test]
fn limbed_from_big_integer_needs_limbs_below_the_characteristic() {
    let wide = LimbedRepresentationParameters::new(PrimeField::new(big(97), 1).unwrap(), 8, 8);
    assert!(LimbedBigUint::from_biguint(&wide, big(5), 2).is_none());
    let at_limit = LimbedRepresentationParameters::new(PrimeField::new(big(257), 1).unwrap(), 8, 8);
    let number = LimbedBigUint::from_biguint(&at_limit, big(0x1ff), 2).unwrap();
    assert_eq!(number.get_value(), big(0x1ff));
    let narrow = LimbedRepresentationParameters::new(PrimeField::new(big(97), 1).unwrap(), 6, 8);
    let number = LimbedBigUint::from_biguint(&narrow, big(0b1_000011), 2).unwrap();
    assert_eq!(number.get_value(), big(0b1_000011));
}
