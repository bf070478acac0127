//! Conversions between field elements and big integers, and the bit length of
//! a field element.

use vstd::prelude::*;
use vstd::arithmetic::power2::pow2;
use vstd::arithmetic::div_mod::lemma_small_mod;
use vstd::std_specs::bits::u64_leading_zeros;
use num_bigint::BigUint;
use crate::big::{uint_value, uint_from_u64, uint_shl, uint_add, uint_to_str_radix};
use crate::field::{FieldElement, PrimeField};
use crate::numeric::{
    bit_length, words_value, word_nats, radix_value, canonical_words, lemma_words_value_top,
    lemma_bit_length_shifted, lemma_words_canonical,
};

verus! {

/// A 64-bit word has 64 bits less its leading zeros.
pub proof fn lemma_word_bit_length(x: u64)
    ensures
        bit_length(x as nat) == 64 - u64_leading_zeros(x),
    decreases x,
{
    reveal(u64_leading_zeros);
    if x != 0 {
        lemma_word_bit_length(x / 2);
    }
}

/// The exact number of bits of the value of `el`: the position of its highest
/// set bit plus one, and zero for zero.
pub fn get_num_bits(el: &FieldElement) -> (num_bits: usize)
    requires
        el.wf(),
    ensures
        num_bits == bit_length(el.value()),
{
    let repr = el.into_repr();
    let mut num_bits: usize = repr.len() * 64;
    let mut i: usize = repr.len();
    proof {
        assert(repr@.take(i as int) =~= repr@);
    }
    while i > 0
        invariant
            i <= repr@.len(),
            repr@ == el.words@,
            64 * repr@.len() <= usize::MAX,
            num_bits == 64 * i,
            words_value(repr@) == words_value(repr@.take(i as int)),
        decreases i,
    {
        let limb = repr[i - 1];
        proof {
            let low = repr@.take(i as int);
            assert(low.drop_last() =~= repr@.take(i - 1));
            assert(low.last() == limb);
            lemma_words_value_top(low);
            lemma_word_bit_length(limb);
            let shift = pow2(64 * (i - 1) as nat);
            let below = words_value(low.drop_last());
            assert(words_value(low) == limb * shift + below);
            if limb != 0 {
                lemma_bit_length_shifted(limb as nat, 64 * (i - 1) as nat, below);
            } else {
                assert(0 * shift == 0) by (nonlinear_arith);
            }
        }
        if limb == 0 {
            num_bits = num_bits - 64;
        } else {
            num_bits = num_bits - limb.leading_zeros() as usize;
            return num_bits;
        }
        i = i - 1;
    }
    proof {
        assert(repr@.take(0) =~= Seq::<u64>::empty());
        assert(word_nats(Seq::<u64>::empty()).reverse() =~= Seq::<nat>::empty());
    }
    num_bits
}

/// The number that a fixed-width word array stands for, the least significant
/// word first: the words are taken up from the most significant down, each
/// step shifting what was taken so far by one word.
pub fn repr_to_biguint(repr: &[u64]) -> (b: BigUint)
    ensures
        uint_value(b) == words_value(repr@),
{
    let ghost digits = word_nats(repr@).reverse();
    let mut b = uint_from_u64(0);
    let mut i: usize = repr.len();
    while i > 0
        invariant
            i <= repr@.len(),
            digits == word_nats(repr@).reverse(),
            uint_value(b) == radix_value(digits.take(repr@.len() - i), 64),
        decreases i,
    {
        let limb = repr[i - 1];
        b = uint_shl(&b, 64);
        b = uint_add(&b, &uint_from_u64(limb));
        proof {
            let taken = digits.take(repr@.len() - i + 1);
            assert(taken.drop_last() =~= digits.take(repr@.len() - i));
            assert(taken.last() == limb as nat);
        }
        i = i - 1;
    }
    proof {
        assert(digits.take(repr@.len() as int) =~= digits);
    }
    b
}

/// The value of a field element as a big integer.
pub fn fe_to_biguint(el: &FieldElement) -> (b: BigUint)
    ensures
        uint_value(b) == el.value(),
{
    repr_to_biguint(el.into_repr())
}

/// The element of `field` with the given value, which must be below the
/// characteristic. The value goes by its decimal notation, which the field
/// reads.
pub fn biguint_to_fe(value: BigUint, field: &PrimeField) -> (el: FieldElement)
    requires
        field.wf(),
        uint_value(value) < field.modulus(),
    ensures
        el.words@ == canonical_words(uint_value(value), field.num_words()),
        el.value() == uint_value(value),
        el.in_field(field),
        el.wf(),
{
    let text = uint_to_str_radix(&value, 10);
    let el = field.from_str(text.as_str()).unwrap();
    proof {
        lemma_small_mod(uint_value(value), field.modulus());
        lemma_words_canonical(el.words@);
    }
    el
}

} // verus!
