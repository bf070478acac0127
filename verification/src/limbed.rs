//! A big integer as a sequence of limbs.

use vstd::prelude::*;
use vstd::arithmetic::power2::pow2;
use vstd::arithmetic::div_mod::lemma_small_mod;
use num_bigint::BigUint;
use crate::big::{uint_value, uint_values, uint_from_u64, uint_shl, uint_add, uint_lt};
use crate::convert::biguint_to_fe;
use crate::limb::Limb;
use crate::numeric::{
    radix_value, weighted_sum, lsb_limbs, limbs_needed, lemma_limb_at_bound, lemma_lsb_limbs_value,
    lemma_enough_limbs, lemma_weighted_sum_reverse,
};
use crate::params::LimbedRepresentationParameters;
use crate::split::split_into_fixed_number_of_limbs;
use crate::term::Term;

verus! {

/// A big integer held as limbs of `params.limb_size_bits` bits, the least
/// significant limb first: it stands for the sum of `limbs[i]` times
/// `2^(limb_size_bits * i)`.
pub struct LimbedBigUint<'a> {
    pub params: &'a LimbedRepresentationParameters,
    pub num_limbs: usize,
    pub limbs: Vec<Limb>,
    pub is_constant: bool,
}

impl<'a> LimbedBigUint<'a> {
    /// The values of the limbs, in the order in which they are stored.
    pub open spec fn limb_values(&self) -> Seq<nat> {
        Seq::new(self.limbs@.len(), |i: int| self.limbs@[i].term.value(self.params.field.modulus()))
    }

    /// The parameters are well formed, there are `num_limbs` limbs over their
    /// field, and `is_constant` says whether all of them stand over
    /// constants.
    pub open spec fn wf(&self) -> bool {
        &&& self.params.wf()
        &&& self.limbs@.len() == self.num_limbs
        &&& forall|i: int| 0 <= i < self.limbs@.len() ==> self.limbs@[i].wf(&self.params.field)
        &&& self.is_constant <==> forall|i: int|
            0 <= i < self.limbs@.len() ==> self.limbs@[i].term.constant()
    }

    /// Every limb has a value.
    pub open spec fn has_value(&self) -> bool {
        forall|i: int| 0 <= i < self.limbs@.len() ==> self.limbs@[i].term.has_value()
    }

    /// The number that the limbs stand for: the sum of `limbs[i]` times
    /// `2^(limb_size_bits * i)`.
    pub open spec fn value(&self) -> nat {
        weighted_sum(self.limb_values(), self.params.limb_size_bits as nat)
    }

    /// The big integer with the given limbs, the least significant first.
    pub fn new(params: &'a LimbedRepresentationParameters, limbs: Vec<Limb>) -> (r: Self)
        requires
            params.wf(),
            forall|i: int| 0 <= i < limbs@.len() ==> limbs@[i].wf(&params.field),
        ensures
            r.wf(),
            r.params == params,
            r.limbs == limbs,
    {
        let mut is_constant = true;
        let mut i: usize = 0;
        while i < limbs.len()
            invariant
                i <= limbs@.len(),
                is_constant <==> forall|j: int| 0 <= j < i ==> limbs@[j].term.constant(),
            decreases limbs@.len() - i,
        {
            if !limbs[i].is_constant() {
                is_constant = false;
            }
            i = i + 1;
        }
        LimbedBigUint { params, num_limbs: limbs.len(), limbs, is_constant }
    }

    /// The constant big integer of `num_limbs` limbs that stands for `value`
    /// modulo `2^(limb_size_bits * num_limbs)`, which is `value` itself
    /// where that many limbs hold it. Every limb is bounded by the largest
    /// value of a limb.
    ///
    /// There is none where `2^limb_size_bits` is not below the
    /// characteristic: a limb could then be too large for a field element.
    pub fn from_biguint(
        params: &'a LimbedRepresentationParameters,
        value: BigUint,
        num_limbs: usize,
    ) -> (made: Option<Self>)
        requires
            params.wf(),
        ensures
            made.is_some() <==> pow2(params.limb_size_bits as nat) < params.field.modulus(),
            made.is_some() ==> ({
                let r = made.unwrap();
                &&& r.wf()
                &&& r.params == params
                &&& r.num_limbs == num_limbs
                &&& r.is_constant
                &&& r.has_value()
                &&& r.limb_values() == lsb_limbs(
                    uint_value(value),
                    params.limb_size_bits as nat,
                    num_limbs as nat,
                )
                &&& r.value() == uint_value(value) % pow2(
                    params.limb_size_bits as nat * num_limbs as nat,
                )
                &&& num_limbs >= limbs_needed(uint_value(value), params.limb_size_bits as nat)
                    ==> r.value() == uint_value(value)
                &&& forall|i: int|
                    0 <= i < num_limbs ==> (#[trigger] r.limbs@[i]).bound() == pow2(
                        params.limb_size_bits as nat,
                    ) - 1 && r.limbs@[i].sound(params.field.modulus())
            }),
    {
        let radix = uint_shl(&uint_from_u64(1), params.limb_size_bits);
        if !uint_lt(&radix, &params.field.characteristic) {
            return None;
        }
        let ghost v = uint_value(value);
        let ghost w = params.limb_size_bits as nat;
        let ghost n = num_limbs as nat;
        let ghost p = params.field.modulus();
        let raw = split_into_fixed_number_of_limbs(value, params.limb_size_bits, num_limbs);
        let mut limbs: Vec<Limb> = Vec::new();
        let mut i: usize = 0;
        while i < raw.len()
            invariant
                i <= raw@.len(),
                raw@.len() == n,
                params.wf(),
                w == params.limb_size_bits as nat,
                p == params.field.modulus(),
                pow2(w) < p,
                uint_values(raw@) == lsb_limbs(v, w, n),
                limbs@.len() == i,
                forall|j: int|
                    0 <= j < i ==> {
                        &&& (#[trigger] limbs@[j]).wf(&params.field)
                        &&& limbs@[j].term.constant()
                        &&& limbs@[j].term.has_value()
                        &&& limbs@[j].term.value(p) == lsb_limbs(v, w, n)[j]
                        &&& limbs@[j].bound() == pow2(w) - 1
                    },
            decreases raw@.len() - i,
        {
            proof {
                lemma_limb_at_bound(v, w, i as nat);
                assert(uint_values(raw@)[i as int] == lsb_limbs(v, w, n)[i as int]);
            }
            let element = biguint_to_fe(raw[i].clone(), &params.field);
            let term = Term::from_constant(element, &params.field);
            let ghost before = limbs@;
            limbs.push(Limb::new(term, params.limb_max_value.clone()));
            proof {
                assert(forall|j: int| 0 <= j < i ==> limbs@[j] == before[j]);
            }
            i = i + 1;
        }
        let r = LimbedBigUint { params, num_limbs, limbs, is_constant: true };
        proof {
            assert(r.limb_values() =~= lsb_limbs(v, w, n));
            lemma_lsb_limbs_value(v, w, n);
            lemma_weighted_sum_reverse(r.limb_values(), w);
            if n >= limbs_needed(v, w) {
                lemma_enough_limbs(v, w, n);
                lemma_small_mod(v, pow2(w * n));
            }
            assert forall|j: int| 0 <= j < num_limbs implies (#[trigger] r.limbs@[j]).bound()
                == pow2(w) - 1 && r.limbs@[j].sound(p) by {
                lemma_limb_at_bound(v, w, j as nat);
            }
        }
        Some(r)
    }

    /// The number that the limbs stand for. Every limb must have a value.
    ///
    /// The limbs are read from the last one, the most significant, down to
    /// the first, each step shifting what was read so far by one limb.
    pub fn get_value(&self) -> (result: BigUint)
        requires
            self.wf(),
            self.has_value(),
        ensures
            uint_value(result) == self.value(),
    {
        let shift = self.params.limb_size_bits;
        let ghost digits = self.limb_values().reverse();
        let mut result = uint_from_u64(0);
        let mut i: usize = self.limbs.len();
        while i > 0
            invariant
                i <= self.limbs@.len(),
                self.wf(),
                self.has_value(),
                shift == self.params.limb_size_bits,
                digits == self.limb_values().reverse(),
                uint_value(result) == radix_value(
                    digits.take(self.limbs@.len() - i),
                    shift as nat,
                ),
            decreases i,
        {
            let limb = self.limbs[i - 1].get_value(&self.params.field);
            result = uint_shl(&result, shift);
            result = uint_add(&result, &limb);
            proof {
                let taken = digits.take(self.limbs@.len() - i + 1);
                assert(taken.drop_last() =~= digits.take(self.limbs@.len() - i));
                assert(taken.last() == self.limb_values()[i - 1]);
            }
            i = i - 1;
        }
        proof {
            assert(digits.take(self.limbs@.len() as int) =~= digits);
            lemma_weighted_sum_reverse(self.limb_values(), shift as nat);
        }
        result
    }
}

} // verus!
