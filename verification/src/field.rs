//! Prime fields and their elements, as far as limb accounting needs them.
//!
//! A field is given by its characteristic. An element is held in its
//! canonical representation: a fixed number of 64-bit words, the least
//! significant first, whose value is below the characteristic.

use vstd::prelude::*;
use vstd::arithmetic::power2::pow2;
use num_bigint::BigUint;
use vstd::arithmetic::div_mod::{lemma_mod_bound, lemma_small_mod, lemma_mod_self_0};
use vstd::arithmetic::div_mod::{lemma_mul_mod_noop_general, lemma_add_mod_noop};
use vstd::arithmetic::power2::{lemma2_to64, lemma2_to64_rest};
use vstd::string::StrSliceExecFns;
use crate::big::{
    uint_value, uint_values, uint_bits, uint_from_u64, uint_lt, uint_add, uint_sub, uint_mul,
    uint_rem, uint_is_zero, uint_to_u64,
};
use crate::convert::fe_to_biguint;
use crate::inverse::try_mod_inverse;
use crate::numeric::{
    words_value, gcd, canonical_words, lsb_limbs, is_decimal, is_decimal_digit, digit_value,
    decimal_value, lemma_bit_length_bound, lemma_limb_at_bound, lemma_canonical_words_value,
};
use crate::split::split_into_fixed_number_of_limbs;

verus! {

/// The sum of `a` and `b` modulo `p`.
pub open spec fn add_mod(a: nat, b: nat, p: nat) -> nat {
    (a + b) % p
}

/// The product of `a` and `b` modulo `p`.
pub open spec fn mul_mod(a: nat, b: nat, p: nat) -> nat {
    (a * b) % p
}

/// The additive inverse modulo `p` of an `a` below `p`.
pub open spec fn neg_mod(a: nat, p: nat) -> nat {
    if a == 0 {
        0
    } else {
        (p - a) as nat
    }
}

/// A prime field: its characteristic, and the number of 64-bit words in the
/// representation of its elements.
///
/// The arithmetic below is arithmetic modulo the characteristic and is stated
/// for every characteristic above one. What holds for a prime only says so.
#[derive(Clone, Debug)]
pub struct PrimeField {
    pub characteristic: BigUint,
    pub repr_words: usize,
}

/// An element of a prime field: the words of its canonical representation,
/// the least significant first.
#[derive(Debug, PartialEq, Eq)]
pub struct FieldElement {
    pub words: Vec<u64>,
}

impl Clone for FieldElement {
    fn clone(&self) -> (r: Self)
        ensures
            r.words@ == self.words@,
    {
        FieldElement { words: self.words.clone() }
    }
}

impl PrimeField {
    /// The characteristic as a number.
    pub open spec fn modulus(&self) -> nat {
        uint_value(self.characteristic)
    }

    /// The number of words of a representation.
    pub open spec fn num_words(&self) -> nat {
        self.repr_words as nat
    }

    /// The characteristic is above one and fits the representation, whose
    /// width in bits fits a `usize`.
    pub open spec fn wf(&self) -> bool {
        &&& self.modulus() > 1
        &&& self.modulus() < pow2(64 * self.num_words())
        &&& 64 * self.num_words() <= usize::MAX
    }

    /// The field of the given characteristic with representations of
    /// `repr_words` words, where the characteristic is above one and fits
    /// that many words.
    pub fn new(characteristic: BigUint, repr_words: usize) -> (r: Option<PrimeField>)
        ensures
            r.is_some() <==> uint_value(characteristic) > 1 && uint_value(characteristic) < pow2(
                64 * repr_words as nat,
            ) && 64 * repr_words <= usize::MAX,
            r.is_some() ==> r.unwrap().wf() && r.unwrap().modulus() == uint_value(characteristic)
                && r.unwrap().repr_words == repr_words,
    {
        let field = PrimeField { characteristic, repr_words };
        if field.is_well_formed() {
            Some(field)
        } else {
            None
        }
    }

    /// Whether the characteristic is above one and fits the representation:
    /// what every operation of the field asks for.
    pub fn is_well_formed(&self) -> (r: bool)
        ensures
            r == self.wf(),
    {
        if self.repr_words > usize::MAX / 64 {
            return false;
        }
        let one = uint_from_u64(1);
        if !uint_lt(&one, &self.characteristic) {
            return false;
        }
        let width: usize = self.repr_words * 64;
        proof {
            lemma_bit_length_bound(self.modulus(), width as nat);
        }
        uint_bits(&self.characteristic) <= width as u64
    }

    /// Whether `el` is an element of this field in canonical form.
    pub fn contains(&self, el: &FieldElement) -> (r: bool)
        requires
            self.wf(),
        ensures
            r == el.in_field(self),
    {
        if el.words.len() != self.repr_words {
            return false;
        }
        let value = fe_to_biguint(el);
        uint_lt(&value, &self.characteristic)
    }

    /// The element with the given value, which must be below the
    /// characteristic: its words are the limbs of 64 bits of the value.
    pub fn from_biguint(&self, value: BigUint) -> (el: FieldElement)
        requires
            self.wf(),
            uint_value(value) < self.modulus(),
        ensures
            el.words@ == canonical_words(uint_value(value), self.num_words()),
            el.value() == uint_value(value),
            el.in_field(self),
            el.wf(),
    {
        let ghost v = uint_value(value);
        let ghost n = self.num_words();
        let limbs = split_into_fixed_number_of_limbs(value, 64, self.repr_words);
        let mut words: Vec<u64> = Vec::new();
        let mut i: usize = 0;
        while i < limbs.len()
            invariant
                i <= limbs@.len(),
                limbs@.len() == n,
                uint_values(limbs@) == lsb_limbs(v, 64, n),
                words@.len() == i,
                words@ == canonical_words(v, n).take(i as int),
            decreases limbs@.len() - i,
        {
            proof {
                lemma_limb_at_bound(v, 64, i as nat);
                lemma2_to64();
                lemma2_to64_rest();
                assert(uint_values(limbs@)[i as int] == lsb_limbs(v, 64, n)[i as int]);
            }
            let word = uint_to_u64(&limbs[i]).unwrap();
            words.push(word);
            proof {
                assert(words@ =~= canonical_words(v, n).take(i + 1));
            }
            i = i + 1;
        }
        proof {
            assert(words@ =~= canonical_words(v, n));
            lemma_canonical_words_value(v, n);
        }
        FieldElement { words }
    }

    /// The element whose value is `value` modulo the characteristic.
    pub fn reduce(&self, value: &BigUint) -> (el: FieldElement)
        requires
            self.wf(),
        ensures
            el.in_field(self),
            el.value() == uint_value(*value) % self.modulus(),
    {
        proof {
            lemma_mod_bound(uint_value(*value) as int, self.modulus() as int);
        }
        self.from_biguint(uint_rem(value, &self.characteristic))
    }

    /// The element that a text in decimal notation stands for: its number
    /// modulo the characteristic. A text that is empty, holds anything but
    /// decimal digits, or has a zero in front of other digits stands for
    /// none.
    pub fn from_str(&self, s: &str) -> (r: Option<FieldElement>)
        requires
            self.wf(),
        ensures
            r.is_some() <==> is_decimal(s@),
            r.is_some() ==> r.unwrap().in_field(self) && r.unwrap().value() == decimal_value(s@)
                % self.modulus(),
    {
        let n = s.unicode_len();
        if n == 0 {
            return None;
        }
        let ghost p = self.modulus() as int;
        let ten = self.reduce(&uint_from_u64(10));
        let mut res = self.zero();
        let mut i: usize = 0;
        proof {
            lemma_small_mod(0, self.modulus());
        }
        while i < n
            invariant
                i <= n,
                n == s@.len(),
                self.wf(),
                p == self.modulus(),
                ten.in_field(self),
                ten.value() == 10int % p,
                res.in_field(self),
                res.value() == decimal_value(s@.take(i as int)) % self.modulus(),
                forall|j: int| 0 <= j < i ==> is_decimal_digit(#[trigger] s@[j]),
                i > 0 && n > 1 ==> s@[0] != '0',
            decreases n - i,
        {
            let c = s.get_char(i);
            if c < '0' || c > '9' {
                return None;
            }
            if i == 0 && n > 1 && c == '0' {
                return None;
            }
            let digit = self.reduce(&uint_from_u64((c as u32 - '0' as u32) as u64));
            let ghost before = decimal_value(s@.take(i as int)) as int;
            let ghost d = digit_value(c) as int;
            res = self.add(&self.mul(&res, &ten), &digit);
            proof {
                let taken = s@.take(i + 1);
                assert(taken.drop_last() =~= s@.take(i as int));
                assert(taken.last() == c);
                assert(decimal_value(taken) == before * 10 + d);
                lemma_mul_mod_noop_general(before, 10, p);
                lemma_add_mod_noop(before * 10, d, p);
            }
            i = i + 1;
        }
        proof {
            assert(s@.take(n as int) =~= s@);
        }
        Some(res)
    }

    /// The zero of the field.
    pub fn zero(&self) -> (r: FieldElement)
        requires
            self.wf(),
        ensures
            r.in_field(self),
            r.value() == 0,
    {
        self.from_biguint(uint_from_u64(0))
    }

    /// The one of the field.
    pub fn one(&self) -> (r: FieldElement)
        requires
            self.wf(),
        ensures
            r.in_field(self),
            r.value() == 1,
    {
        self.from_biguint(uint_from_u64(1))
    }

    /// The sum of two elements.
    pub fn add(&self, a: &FieldElement, b: &FieldElement) -> (r: FieldElement)
        requires
            self.wf(),
            a.in_field(self),
            b.in_field(self),
        ensures
            r.in_field(self),
            r.value() == add_mod(a.value(), b.value(), self.modulus()),
    {
        self.reduce(&uint_add(&fe_to_biguint(a), &fe_to_biguint(b)))
    }

    /// Twice an element.
    pub fn double(&self, a: &FieldElement) -> (r: FieldElement)
        requires
            self.wf(),
            a.in_field(self),
        ensures
            r.in_field(self),
            r.value() == add_mod(a.value(), a.value(), self.modulus()),
    {
        self.add(a, a)
    }

    /// The product of two elements.
    pub fn mul(&self, a: &FieldElement, b: &FieldElement) -> (r: FieldElement)
        requires
            self.wf(),
            a.in_field(self),
            b.in_field(self),
        ensures
            r.in_field(self),
            r.value() == mul_mod(a.value(), b.value(), self.modulus()),
    {
        self.reduce(&uint_mul(&fe_to_biguint(a), &fe_to_biguint(b)))
    }

    /// The additive inverse of an element.
    pub fn negate(&self, a: &FieldElement) -> (r: FieldElement)
        requires
            self.wf(),
            a.in_field(self),
        ensures
            r.in_field(self),
            r.value() == neg_mod(a.value(), self.modulus()),
            add_mod(a.value(), r.value(), self.modulus()) == 0,
    {
        let value = fe_to_biguint(a);
        proof {
            let p = self.modulus();
            if a.value() == 0 {
                lemma_small_mod(0, p);
            } else {
                lemma_mod_self_0(p as int);
            }
        }
        if uint_is_zero(&value) {
            self.from_biguint(value)
        } else {
            self.from_biguint(uint_sub(&self.characteristic, &value))
        }
    }

    /// The multiplicative inverse of an element where there is one: the
    /// element is not zero and has no divisor in common with the
    /// characteristic. In a field of prime characteristic that is every
    /// element but zero.
    pub fn inverse(&self, a: &FieldElement) -> (r: Option<FieldElement>)
        requires
            self.wf(),
            a.in_field(self),
        ensures
            r.is_some() <==> a.value() != 0 && gcd(a.value(), self.modulus()) == 1,
            r.is_some() ==> r.unwrap().in_field(self) && mul_mod(
                r.unwrap().value(),
                a.value(),
                self.modulus(),
            ) == 1,
    {
        match try_mod_inverse(&fe_to_biguint(a), &self.characteristic) {
            Some(inv) => {
                proof {
                    lemma_small_mod(1, self.modulus());
                }
                Some(self.from_biguint(inv))
            },
            None => None,
        }
    }
}

impl FieldElement {
    /// The number that the element stands for.
    pub open spec fn value(&self) -> nat {
        words_value(self.words@)
    }

    /// The width of the representation in bits fits a `usize`.
    pub open spec fn wf(&self) -> bool {
        64 * self.words@.len() <= usize::MAX
    }

    /// The element has the representation width of `field` and a value below
    /// its characteristic.
    pub open spec fn in_field(&self, field: &PrimeField) -> bool {
        &&& self.words@.len() == field.num_words()
        &&& self.value() < field.modulus()
    }

    /// The words of the canonical representation, the least significant first.
    pub fn into_repr(&self) -> (r: &[u64])
        ensures
            r@ == self.words@,
    {
        self.words.as_slice()
    }
}

} // verus!
