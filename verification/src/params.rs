//! The parameters of a limbed representation: the limb width, the bit budget
//! of a limb between two range checks, and the field constants that go with
//! them.

use vstd::prelude::*;
use vstd::arithmetic::power2::{pow2, lemma_pow2_pos, lemma2_to64, lemma_pow2_strictly_increases};
use vstd::arithmetic::div_mod::{
    lemma_small_mod, lemma_fundamental_div_mod, lemma_mul_mod_noop_general, lemma_mod_bound,
};
use vstd::arithmetic::mul::{
    lemma_mul_is_commutative, lemma_mul_is_associative, lemma_mul_inequality,
};
use num_bigint::BigUint;
use crate::big::{
    uint_value, uint_from_u64, uint_shl, uint_sub, uint_rem, uint_is_zero, uint_to_str_radix,
};
use crate::field::{FieldElement, PrimeField, mul_mod};
use crate::numeric::{lemma_pow2_coprime_odd, lemma_gcd_mod, lemma_coprime_not_multiple};

verus! {

/// What a limbed representation over one field is built with. Made once for
/// a field, a limb width and an intermediate capacity, and shared by all the
/// limbs and big integers that use them.
#[derive(Clone, Debug)]
pub struct LimbedRepresentationParameters {
    /// The field whose elements carry the limbs.
    pub field: PrimeField,
    /// The width of a limb in bits.
    pub limb_size_bits: usize,
    /// `2^limb_size_bits - 1`, the largest value of a limb that was just
    /// range checked.
    pub limb_max_value: BigUint,
    /// `2^limb_intermediate_value_capacity - 1`, the largest value that a
    /// limb may reach before it has to be range checked again.
    pub limb_max_intermediate_value: BigUint,
    /// The bit budget of a limb between two range checks.
    pub limb_intermediate_value_capacity: usize,
    /// The field element that stands for `2^limb_size_bits`: that number
    /// itself where it is below the characteristic, else its residue.
    pub shift_left_by_limb_constant: FieldElement,
    /// The inverse of `shift_left_by_limb_constant` in the field.
    pub shift_right_by_limb_constant: FieldElement,
    /// The field element two.
    pub mul_two_constant: FieldElement,
    /// The inverse of two in the field.
    pub div_two_constant: FieldElement,
}

impl LimbedRepresentationParameters {
    /// The derived quantities are what the limb width, the capacity and the
    /// field say they are.
    pub open spec fn wf(&self) -> bool {
        let p = self.field.modulus();
        &&& self.field.wf()
        &&& 0 < self.limb_size_bits <= self.limb_intermediate_value_capacity
        &&& uint_value(self.limb_max_value) == pow2(self.limb_size_bits as nat) - 1
        &&& uint_value(self.limb_max_intermediate_value) == pow2(
            self.limb_intermediate_value_capacity as nat,
        ) - 1
        &&& self.shift_left_by_limb_constant.in_field(&self.field)
        &&& self.shift_left_by_limb_constant.value() == pow2(self.limb_size_bits as nat) % p
        &&& self.shift_right_by_limb_constant.in_field(&self.field)
        &&& mul_mod(
            self.shift_left_by_limb_constant.value(),
            self.shift_right_by_limb_constant.value(),
            p,
        ) == 1
        &&& self.mul_two_constant.in_field(&self.field)
        &&& self.mul_two_constant.value() == 2
        &&& self.div_two_constant.in_field(&self.field)
        &&& mul_mod(self.mul_two_constant.value(), self.div_two_constant.value(), p) == 1
    }

    /// The parameters for limbs of `limb_size` bits with an intermediate
    /// capacity of `intermediate_value_capacity` bits over `field`.
    ///
    /// The characteristic must be odd, so that two and `2^limb_size` have
    /// inverses in the field. Every prime above two is. Where `2^limb_size`
    /// is not below the characteristic, the shift constant is its residue.
    pub fn new(field: PrimeField, limb_size: usize, intermediate_value_capacity: usize) -> (r: Self)
        requires
            field.wf(),
            0 < limb_size <= intermediate_value_capacity,
            field.modulus() % 2 == 1,
        ensures
            r.wf(),
            r.field == field,
            r.limb_size_bits == limb_size,
            r.limb_intermediate_value_capacity == intermediate_value_capacity,
            1 <= uint_value(r.limb_max_value) <= uint_value(r.limb_max_intermediate_value),
            forall|x: nat|
                x < field.modulus() / pow2(limb_size as nat) ==> #[trigger] mul_mod(
                    x,
                    r.shift_left_by_limb_constant.value(),
                    field.modulus(),
                ) == x * pow2(limb_size as nat),
    {
        let ghost p = field.modulus();
        let ghost l = limb_size as nat;
        proof {
            lemma_pow2_pos(l);
            lemma_pow2_pos(intermediate_value_capacity as nat);
            lemma_pow2_coprime_odd(l, p);
            lemma_gcd_mod(pow2(l), p);
            lemma_coprime_not_multiple(pow2(l), p);
            lemma_pow2_coprime_odd(1, p);
            lemma2_to64();
            lemma_small_mod(2, p);
            lemma_pow2_strictly_increases(0, l);
            if limb_size < intermediate_value_capacity {
                lemma_pow2_strictly_increases(l, intermediate_value_capacity as nat);
            }
        }
        let one = uint_from_u64(1);
        let radix = uint_shl(&one, limb_size);
        let limb_max_value = uint_sub(&radix, &one);
        let shift_left_by_limb_constant = field.from_str(
            uint_to_str_radix(&radix, 10).as_str(),
        ).unwrap();
        let shift_right_by_limb_constant = field.inverse(&shift_left_by_limb_constant).unwrap();
        let two = field.double(&field.one());
        let div_two_constant = field.inverse(&two).unwrap();
        let limb_max_intermediate_value = uint_sub(
            &uint_shl(&one, intermediate_value_capacity),
            &one,
        );
        proof {
            lemma_mul_is_commutative(
                shift_left_by_limb_constant.value() as int,
                shift_right_by_limb_constant.value() as int,
            );
            lemma_mul_is_commutative(two.value() as int, div_two_constant.value() as int);
            assert forall|x: nat| x < p / pow2(l) implies #[trigger] mul_mod(
                x,
                shift_left_by_limb_constant.value(),
                p,
            ) == x * pow2(l) by {
                lemma_shift_no_wrap(x, l, p);
            }
        }
        LimbedRepresentationParameters {
            field,
            limb_size_bits: limb_size,
            limb_max_value,
            limb_max_intermediate_value,
            limb_intermediate_value_capacity: intermediate_value_capacity,
            shift_left_by_limb_constant,
            shift_right_by_limb_constant,
            mul_two_constant: two,
            div_two_constant,
        }
    }

    /// The parameters as [`LimbedRepresentationParameters::new`] makes them,
    /// where it can: the field is well formed, its characteristic is odd, the
    /// limb width is not zero and the capacity is not below it.
    pub fn try_new(field: PrimeField, limb_size: usize, intermediate_value_capacity: usize) -> (r:
        Option<Self>)
        ensures
            r.is_some() <==> field.wf() && 0 < limb_size <= intermediate_value_capacity
                && field.modulus() % 2 == 1,
            r.is_some() ==> r.unwrap().wf() && r.unwrap().field == field
                && r.unwrap().limb_size_bits == limb_size
                && r.unwrap().limb_intermediate_value_capacity == intermediate_value_capacity,
    {
        if limb_size == 0 || intermediate_value_capacity < limb_size {
            return None;
        }
        if !field.is_well_formed() {
            return None;
        }
        let parity = uint_rem(&field.characteristic, &uint_from_u64(2));
        if uint_is_zero(&parity) {
            return None;
        }
        Some(LimbedRepresentationParameters::new(field, limb_size, intermediate_value_capacity))
    }
}

/// Multiplying by the residue of `2^l` modulo `p` multiplies by `2^l` without
/// wrapping around, for every number below `p` divided by `2^l`.
pub proof fn lemma_shift_no_wrap(x: nat, l: nat, p: nat)
    requires
        p > 0,
        x < p / pow2(l),
    ensures
        mul_mod(x, pow2(l) % p, p) == x * pow2(l),
{
    let m = p as int;
    let radix = pow2(l) as int;
    lemma_pow2_pos(l);
    lemma_fundamental_div_mod(m, radix);
    lemma_mod_bound(m, radix);
    lemma_mul_inequality(x as int + 1, m / radix, radix);
    lemma_mul_is_commutative(radix, m / radix);
    assert((x + 1) * radix == x * radix + radix) by (nonlinear_arith);
    assert(0 <= x * radix) by (nonlinear_arith)
        requires
            0 <= x,
            0 < radix,
    ;
    lemma_mul_mod_noop_general(x as int, radix, m);
    lemma_small_mod((x * radix) as nat, p);
}

/// Multiplying by the shift-left constant shifts by one limb without wrapping
/// around, for every element whose value is below the characteristic divided
/// by `2^limb_size_bits`.
pub proof fn lemma_shift_left_exact(params: LimbedRepresentationParameters, x: nat)
    requires
        params.wf(),
        x < params.field.modulus() / pow2(params.limb_size_bits as nat),
    ensures
        mul_mod(x, params.shift_left_by_limb_constant.value(), params.field.modulus()) == x * pow2(
            params.limb_size_bits as nat,
        ),
{
    lemma_shift_no_wrap(x, params.limb_size_bits as nat, params.field.modulus());
}

/// Multiplying by the shift-right constant undoes multiplying by the
/// shift-left constant, for every element of the field.
pub proof fn lemma_shift_right_undoes_left(params: LimbedRepresentationParameters, x: nat)
    requires
        params.wf(),
        x < params.field.modulus(),
    ensures
        mul_mod(
            mul_mod(x, params.shift_left_by_limb_constant.value(), params.field.modulus()),
            params.shift_right_by_limb_constant.value(),
            params.field.modulus(),
        ) == x,
{
    let p = params.field.modulus() as int;
    let l = params.shift_left_by_limb_constant.value() as int;
    let r = params.shift_right_by_limb_constant.value() as int;
    lemma_mul_mod_noop_general(x * l, r, p);
    lemma_mul_is_associative(x as int, l, r);
    lemma_mul_mod_noop_general(x as int, l * r, p);
    assert(x * 1 == x) by (nonlinear_arith);
    lemma_small_mod(x, p as nat);
}

} // verus!
