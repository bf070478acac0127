//! The inverse of one integer modulo another.

use vstd::prelude::*;
use vstd::arithmetic::div_mod::{
    lemma_small_mod, lemma_mod_multiples_vanish, lemma_mul_mod_noop_left, lemma_mod_bound,
};
use num_bigint::{BigInt, BigUint};
use crate::big::{
    uint_value, int_value, uint_is_zero, uint_lt, uint_from_u64, uint_eq, int_from_uint, int_zero,
    int_lt, int_add, int_to_uint, int_mod_floor, int_extended_gcd,
};
use crate::numeric::{gcd, lemma_gcd_symmetric};

verus! {

/// Whether `r` is the inverse of `a` modulo `m` that lies in `[0, m)`.
pub open spec fn is_inverse_mod(r: nat, a: nat, m: nat) -> bool {
    r < m && (r * a) % m == 1nat % m
}

/// A coefficient `y` with `x * m + y * a == 1` for some `x` is an inverse of
/// `a` modulo `m`, and so is its residue.
pub proof fn lemma_bezout_inverse(x: int, y: int, a: nat, m: nat)
    requires
        m > 0,
        x * m + y * a == 1,
    ensures
        is_inverse_mod((y % (m as int)) as nat, a, m),
{
    let mi = m as int;
    lemma_mod_bound(y, mi);
    lemma_mul_mod_noop_left(y, a as int, mi);
    assert(y * a == mi * (-x) + 1) by (nonlinear_arith)
        requires
            x * mi + y * a == 1,
    ;
    lemma_mod_multiples_vanish(-x, 1, mi);
}

/// The residue of `y` modulo a positive `modulus`: the one value in
/// `[0, modulus)` that differs from `y` by a multiple of `modulus`.
///
/// A negative `y` is first raised by `modulus` once, which is enough for a
/// coefficient below `modulus` in size; any other `y` is reduced in full.
pub fn normalize_residue(y: &BigInt, modulus: &BigUint) -> (r: BigUint)
    requires
        uint_value(*modulus) > 0,
    ensures
        uint_value(r) == int_value(*y) % (uint_value(*modulus) as int),
{
    let zero = int_zero();
    let modulus_signed = int_from_uint(modulus.clone());
    let ghost m = uint_value(*modulus) as int;
    let ghost yv = int_value(*y);
    let raised = if int_lt(y, &zero) {
        int_to_uint(&int_add(y, &modulus_signed))
    } else {
        int_to_uint(y)
    };
    if let Some(v) = raised {
        if uint_lt(&v, modulus) {
            proof {
                lemma_small_mod(uint_value(v), m as nat);
                if yv < 0 {
                    lemma_mod_multiples_vanish(1, yv, m);
                }
            }
            return v;
        }
    }
    let reduced = int_mod_floor(y, &modulus_signed);
    proof {
        lemma_mod_bound(yv, m);
    }
    int_to_uint(&reduced).unwrap()
}

/// The inverse of `el` modulo `modulus`, in `[0, modulus)`.
///
/// `el` must not be zero and must have no divisor in common with `modulus`.
pub fn mod_inverse(el: &BigUint, modulus: &BigUint) -> (r: BigUint)
    requires
        uint_value(*el) != 0,
        uint_value(*modulus) != 0,
        gcd(uint_value(*el), uint_value(*modulus)) == 1,
    ensures
        is_inverse_mod(uint_value(r), uint_value(*el), uint_value(*modulus)),
        uint_value(*modulus) > 1 ==> (uint_value(r) * uint_value(*el)) % uint_value(*modulus) == 1,
{
    proof {
        if uint_value(*modulus) > 1 {
            lemma_small_mod(1, uint_value(*modulus));
        }
    }
    let el_signed = int_from_uint(el.clone());
    let modulus_signed = int_from_uint(modulus.clone());
    let (g, x, y) = int_extended_gcd(&modulus_signed, &el_signed);
    proof {
        lemma_gcd_symmetric(uint_value(*el), uint_value(*modulus));
        lemma_bezout_inverse(int_value(x), int_value(y), uint_value(*el), uint_value(*modulus));
    }
    normalize_residue(&y, modulus)
}

/// The inverse of `el` modulo `modulus` where there is one: `el` is not zero,
/// `modulus` is not zero, and the two have no divisor in common.
pub fn try_mod_inverse(el: &BigUint, modulus: &BigUint) -> (r: Option<BigUint>)
    ensures
        r.is_some() <==> uint_value(*el) != 0 && uint_value(*modulus) != 0 && gcd(
            uint_value(*el),
            uint_value(*modulus),
        ) == 1,
        r.is_some() ==> is_inverse_mod(
            uint_value(r.unwrap()),
            uint_value(*el),
            uint_value(*modulus),
        ),
{
    if uint_is_zero(el) || uint_is_zero(modulus) {
        return None;
    }
    let el_signed = int_from_uint(el.clone());
    let modulus_signed = int_from_uint(modulus.clone());
    let (g, x, y) = int_extended_gcd(&modulus_signed, &el_signed);
    proof {
        lemma_gcd_symmetric(uint_value(*el), uint_value(*modulus));
    }
    let one = uint_from_u64(1);
    match int_to_uint(&g) {
        Some(g) => {
            if uint_eq(&g, &one) {
                proof {
                    lemma_bezout_inverse(
                        int_value(x),
                        int_value(y),
                        uint_value(*el),
                        uint_value(*modulus),
                    );
                }
                Some(normalize_residue(&y, modulus))
            } else {
                None
            }
        },
        None => None,
    }
}

} // verus!
