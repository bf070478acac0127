//! Splitting a big integer into limbs of a fixed width.
//!
//! The two functions return their limbs in opposite orders:
//! [`split_into_fixed_width_limbs`] gives the most significant limb first,
//! [`split_into_fixed_number_of_limbs`] the least significant limb first.

use vstd::prelude::*;
use vstd::arithmetic::power2::{pow2, lemma_pow2_pos, lemma_pow2_adds, lemma2_to64};
use vstd::arithmetic::div_mod::{
    lemma_div_denominator, lemma_small_mod, lemma_div_is_ordered_by_denominator,
};
use vstd::arithmetic::mul::lemma_mul_is_distributive_add;
use num_bigint::BigUint;
use crate::big::{uint_value, uint_values, uint_from_u64, uint_shl, uint_shr, uint_rem, uint_bits};
use crate::numeric::{
    lsb_limbs, radix_value, limbs_needed, lemma_lsb_limbs_value, lemma_enough_limbs,
    lemma_high_limbs_zero,
};

verus! {

/// The first `count` limbs of `fe` in radix `2^bits_per_limb`, least
/// significant first.
fn extract_limbs(fe: BigUint, bits_per_limb: usize, count: u64) -> (limbs: Vec<BigUint>)
    ensures
        uint_values(limbs@) == lsb_limbs(uint_value(fe), bits_per_limb as nat, count as nat),
{
    let ghost v = uint_value(fe);
    let ghost w = bits_per_limb as nat;
    let mut rest = fe;
    let mut limbs: Vec<BigUint> = Vec::new();
    let modulus = uint_shl(&uint_from_u64(1), bits_per_limb);
    proof {
        lemma_pow2_pos(w);
        assert(w * 0 == 0);
        lemma2_to64();
        assert(v / pow2(w * 0) == v);
    }
    let mut i: u64 = 0;
    while i < count
        invariant
            i <= count,
            w == bits_per_limb as nat,
            uint_value(modulus) == pow2(w),
            uint_value(rest) == v / pow2(w * (i as nat)),
            limbs@.len() == i,
            uint_values(limbs@) == lsb_limbs(v, w, i as nat),
        decreases count - i,
    {
        proof {
            lemma_pow2_pos(w);
        }
        let limb = uint_rem(&rest, &modulus);
        let ghost before = limbs@;
        limbs.push(limb);
        rest = uint_shr(&rest, bits_per_limb);
        proof {
            let k = i as nat;
            lemma_pow2_pos(w * k);
            lemma_pow2_adds(w * k, w);
            lemma_mul_is_distributive_add(w as int, k as int, 1);
            assert(w * (k + 1) == w * k + w);
            lemma_div_denominator(v as int, pow2(w * k) as int, pow2(w) as int);
            assert(uint_values(limbs@) =~= lsb_limbs(v, w, k + 1)) by {
                assert forall|j: int| 0 <= j < k + 1 implies uint_values(limbs@)[j] == lsb_limbs(
                    v,
                    w,
                    k + 1,
                )[j] by {
                    if j < k {
                        assert(limbs@[j] == before[j]);
                        assert(uint_values(before)[j] == lsb_limbs(v, w, k)[j]);
                    }
                }
            }
        }
        i = i + 1;
    }
    limbs
}

/// The same items in the opposite order.
fn reversed<T>(items: Vec<T>) -> (r: Vec<T>)
    ensures
        r@ == items@.reverse(),
{
    let ghost all = items@;
    let mut src = items;
    let mut out: Vec<T> = Vec::new();
    while src.len() > 0
        invariant
            src@.len() + out@.len() == all.len(),
            src@ == all.subrange(0, src@.len() as int),
            out@ == all.subrange(src@.len() as int, all.len() as int).reverse(),
        decreases src@.len(),
    {
        let ghost n = src@.len();
        let item = src.pop().unwrap();
        out.push(item);
        proof {
            assert(src@ =~= all.subrange(0, n - 1));
            assert(out@ =~= all.subrange(n - 1, all.len() as int).reverse());
        }
    }
    proof {
        assert(out@ =~= all.reverse());
    }
    out
}

/// Splits `fe` into limbs of `bits_per_limb` bits, as few as hold it, and
/// returns them most significant limb first. Zero gives no limb at all.
///
/// Read in that order, each step multiplying by `2^bits_per_limb` and adding
/// the next limb, the limbs give `fe` back.
pub fn split_into_fixed_width_limbs(fe: BigUint, bits_per_limb: usize) -> (limbs: Vec<BigUint>)
    requires
        bits_per_limb > 0,
    ensures
        uint_values(limbs@) == lsb_limbs(
            uint_value(fe),
            bits_per_limb as nat,
            limbs_needed(uint_value(fe), bits_per_limb as nat),
        ).reverse(),
        radix_value(uint_values(limbs@), bits_per_limb as nat) == uint_value(fe),
{
    let ghost v = uint_value(fe);
    let ghost w = bits_per_limb as nat;
    let bits = uint_bits(&fe);
    let width = bits_per_limb as u64;
    let mut num_limbs = bits / width;
    if bits % width != 0 {
        proof {
            lemma_div_is_ordered_by_denominator(bits as int, 2, width as int);
        }
        num_limbs = num_limbs + 1;
    }
    let limbs = extract_limbs(fe, bits_per_limb, num_limbs);
    let limbs = reversed(limbs);
    proof {
        let n = limbs_needed(v, w);
        assert(uint_values(limbs@) =~= lsb_limbs(v, w, n).reverse());
        lemma_lsb_limbs_value(v, w, n);
        lemma_enough_limbs(v, w, n);
        lemma_small_mod(v, pow2(w * n));
    }
    limbs
}

/// Splits `fe` into exactly `num_limbs` limbs of `bits_per_limb` bits and
/// returns them least significant limb first. Limbs that `fe` does not reach
/// are zero; bits of `fe` beyond the last limb are dropped.
///
/// Read in the opposite order, each step multiplying by `2^bits_per_limb` and
/// adding the next limb, the limbs give `fe` modulo
/// `2^(bits_per_limb * num_limbs)`, which is `fe` itself where `num_limbs` is
/// at least the number of limbs that `fe` needs.
pub fn split_into_fixed_number_of_limbs(fe: BigUint, bits_per_limb: usize, num_limbs: usize) -> (limbs:
    Vec<BigUint>)
    ensures
        uint_values(limbs@) == lsb_limbs(uint_value(fe), bits_per_limb as nat, num_limbs as nat),
        radix_value(uint_values(limbs@).reverse(), bits_per_limb as nat) == uint_value(fe) % pow2(
            bits_per_limb as nat * num_limbs as nat,
        ),
        bits_per_limb > 0 && num_limbs >= limbs_needed(uint_value(fe), bits_per_limb as nat)
            ==> radix_value(uint_values(limbs@).reverse(), bits_per_limb as nat) == uint_value(fe),
        forall|i: int|
            bits_per_limb > 0 && limbs_needed(uint_value(fe), bits_per_limb as nat) <= i
                < num_limbs ==> uint_value(#[trigger] limbs@[i]) == 0,
{
    let ghost v = uint_value(fe);
    let ghost w = bits_per_limb as nat;
    let ghost n = num_limbs as nat;
    let limbs = extract_limbs(fe, bits_per_limb, num_limbs as u64);
    proof {
        lemma_lsb_limbs_value(v, w, n);
        if w > 0 && n >= limbs_needed(v, w) {
            lemma_enough_limbs(v, w, n);
            lemma_small_mod(v, pow2(w * n));
        }
        assert forall|i: int| w > 0 && limbs_needed(v, w) <= i < n implies uint_value(
            #[trigger] limbs@[i],
        ) == 0 by {
            lemma_high_limbs_zero(v, w, i as nat);
            assert(uint_values(limbs@)[i] == lsb_limbs(v, w, n)[i]);
        }
    }
    limbs
}

} // verus!
