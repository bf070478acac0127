//! A limb: a value inside the circuit together with an upper bound on it.

use vstd::prelude::*;
use vstd::arithmetic::div_mod::lemma_mod_decreases;
use vstd::arithmetic::mul::lemma_mul_inequality;
use num_bigint::BigUint;
use crate::big::{uint_value, uint_add, uint_mul, uint_bits};
use crate::convert::fe_to_biguint;
use crate::field::{FieldElement, PrimeField, add_mod, mul_mod, neg_mod};
use crate::numeric::bit_length;
use crate::term::{Term, Collapsed};

verus! {

/// A value in the circuit, carried by a term, with an upper bound on the
/// number that the value stands for.
///
/// Scaling keeps the bound in step with the value. Negating and adding a
/// constant leave the bound as it is: whoever calls them adjusts the bound
/// with [`Limb::inc_max`] and [`Limb::scale_max`].
#[derive(Clone, Debug)]
pub struct Limb {
    pub term: Term,
    pub max_value: BigUint,
}

/// What the bound accounting sees of a limb: its value and its bound.
pub struct LimbState {
    pub value: nat,
    pub bound: nat,
}

/// An operation on a limb that changes its value or its bound in step.
pub enum LimbOp {
    /// [`Limb::scale`] by a field element of this value.
    Scale(nat),
    /// [`Limb::inc_max`] by this number.
    IncMax(nat),
    /// [`Limb::scale_max`] by this number.
    ScaleMax(nat),
}

/// The state of a limb after one operation, in the field of characteristic
/// `p`.
pub open spec fn step(s: LimbState, op: LimbOp, p: nat) -> LimbState {
    match op {
        LimbOp::Scale(by) => LimbState { value: mul_mod(s.value, by, p), bound: s.bound * by },
        LimbOp::IncMax(by) => LimbState { value: s.value, bound: s.bound + by },
        LimbOp::ScaleMax(by) => LimbState { value: s.value, bound: s.bound * by },
    }
}

/// The state of a limb after a sequence of operations, the first one first.
pub open spec fn run(s: LimbState, ops: Seq<LimbOp>, p: nat) -> LimbState
    decreases ops.len(),
{
    if ops.len() == 0 {
        s
    } else {
        step(run(s, ops.drop_last(), p), ops.last(), p)
    }
}

/// Whether an operation can be relied on not to lower the bound: every one
/// but a [`Limb::scale_max`] by zero.
pub open spec fn keeps_bound(op: LimbOp) -> bool {
    match op {
        LimbOp::ScaleMax(by) => by >= 1,
        _ => true,
    }
}

/// One operation that keeps the bound takes a state whose value is within its
/// bound to another such state.
pub proof fn lemma_step_sound(s: LimbState, op: LimbOp, p: nat)
    requires
        p > 0,
        s.value <= s.bound,
        keeps_bound(op),
    ensures
        step(s, op, p).value <= step(s, op, p).bound,
{
    match op {
        LimbOp::Scale(by) => {
            lemma_mod_decreases(s.value * by, p);
            lemma_mul_inequality(s.value as int, s.bound as int, by as int);
        },
        LimbOp::IncMax(by) => {},
        LimbOp::ScaleMax(by) => {
            lemma_mul_inequality(1, by as int, s.bound as int);
            assert(1 * s.bound == s.bound) by (nonlinear_arith);
            assert(by * s.bound == s.bound * by) by (nonlinear_arith);
        },
    }
}

/// After any sequence of scalings and bound adjustments, none of which
/// scales the bound by zero, the value of a limb is within its bound if it
/// was so before.
pub proof fn lemma_bound_stays_sound(s: LimbState, ops: Seq<LimbOp>, p: nat)
    requires
        p > 0,
        s.value <= s.bound,
        forall|i: int| 0 <= i < ops.len() ==> keeps_bound(#[trigger] ops[i]),
    ensures
        run(s, ops, p).value <= run(s, ops, p).bound,
    decreases ops.len(),
{
    if ops.len() > 0 {
        lemma_bound_stays_sound(s, ops.drop_last(), p);
        lemma_step_sound(run(s, ops.drop_last(), p), ops.last(), p);
    }
}

impl Limb {
    /// The term is over `field`.
    pub open spec fn wf(&self, field: &PrimeField) -> bool {
        self.term.wf(field)
    }

    /// The bound as a number.
    pub open spec fn bound(&self) -> nat {
        uint_value(self.max_value)
    }

    /// The value and the bound of a limb that has a value, in the field of
    /// characteristic `p`.
    pub open spec fn state(&self, p: nat) -> LimbState {
        LimbState { value: self.term.value(p), bound: self.bound() }
    }

    /// The bound holds: a limb that has a value has one within its bound.
    pub open spec fn sound(&self, p: nat) -> bool {
        self.term.has_value() ==> self.term.value(p) <= self.bound()
    }

    /// The limb with the given term and bound.
    pub fn new(term: Term, max_value: BigUint) -> (r: Limb)
        ensures
            r.term == term,
            r.max_value == max_value,
    {
        Limb { term, max_value }
    }

    /// The number of bits of the bound, and one more for safety.
    pub fn max_bits(&mut self) -> (r: usize)
        requires
            bit_length(old(self).bound()) < usize::MAX,
        ensures
            r == bit_length(old(self).bound()) + 1,
            *final(self) == *old(self),
    {
        let bits = uint_bits(&self.max_value);
        (bits + 1) as usize
    }

    /// Raises the bound by `by`. The value stays as it is.
    pub fn inc_max(&mut self, by: &BigUint)
        ensures
            final(self).term == old(self).term,
            final(self).bound() == old(self).bound() + uint_value(*by),
            forall|p: nat|
                old(self).term.has_value() ==> #[trigger] final(self).state(p) == step(
                    old(self).state(p),
                    LimbOp::IncMax(uint_value(*by)),
                    p,
                ),
            forall|p: nat| old(self).sound(p) ==> #[trigger] final(self).sound(p),
    {
        self.max_value = uint_add(&self.max_value, by);
    }

    /// Multiplies the bound by `by`. The value stays as it is.
    pub fn scale_max(&mut self, by: &BigUint)
        ensures
            final(self).term == old(self).term,
            final(self).bound() == old(self).bound() * uint_value(*by),
            forall|p: nat|
                old(self).term.has_value() ==> #[trigger] final(self).state(p) == step(
                    old(self).state(p),
                    LimbOp::ScaleMax(uint_value(*by)),
                    p,
                ),
            forall|p: nat|
                uint_value(*by) >= 1 && old(self).sound(p) ==> #[trigger] final(self).sound(p),
    {
        proof {
            if uint_value(*by) >= 1 {
                lemma_mul_inequality(1, uint_value(*by) as int, self.bound() as int);
                assert(1 * self.bound() == self.bound()) by (nonlinear_arith);
                assert(uint_value(*by) * self.bound() == self.bound() * uint_value(*by))
                    by (nonlinear_arith);
            }
        }
        self.max_value = uint_mul(&self.max_value, by);
    }

    /// The bound.
    pub fn max_value(&self) -> (r: BigUint)
        ensures
            uint_value(r) == self.bound(),
    {
        self.max_value.clone()
    }

    /// The value of the limb as a number. The limb must have a value.
    pub fn get_value(&self, field: &PrimeField) -> (r: BigUint)
        requires
            field.wf(),
            self.wf(field),
            self.term.has_value(),
        ensures
            uint_value(r) == self.term.value(field.modulus()),
            uint_value(r) < field.modulus(),
    {
        fe_to_biguint(&self.term.get_value(field).unwrap())
    }

    /// Multiplies the value by the field element `by`, and the bound by the
    /// number that `by` stands for.
    pub fn scale(&mut self, by: &FieldElement, field: &PrimeField)
        requires
            field.wf(),
            old(self).wf(field),
            by.in_field(field),
        ensures
            final(self).wf(field),
            final(self).term.num == old(self).term.num,
            final(self).term.coeff.value() == mul_mod(
                old(self).term.coeff.value(),
                by.value(),
                field.modulus(),
            ),
            final(self).term.constant_term.value() == mul_mod(
                old(self).term.constant_term.value(),
                by.value(),
                field.modulus(),
            ),
            final(self).bound() == old(self).bound() * by.value(),
            old(self).term.has_value() ==> final(self).state(field.modulus()) == step(
                old(self).state(field.modulus()),
                LimbOp::Scale(by.value()),
                field.modulus(),
            ),
            old(self).sound(field.modulus()) ==> final(self).sound(field.modulus()),
    {
        let ghost before = *self;
        let ghost p = field.modulus();
        self.term.scale(by, field);
        self.max_value = uint_mul(&self.max_value, &fe_to_biguint(by));
        proof {
            if before.term.has_value() {
                let x = before.term.num.carried().unwrap();
                assert(self.term.eval(x, p) == mul_mod(before.term.eval(x, p), by.value(), p));
                if before.sound(p) {
                    lemma_step_sound(before.state(p), LimbOp::Scale(by.value()), p);
                }
            }
        }
    }

    /// Replaces the value by its additive inverse. The bound stays as it is.
    pub fn negate(&mut self, field: &PrimeField)
        requires
            field.wf(),
            old(self).wf(field),
        ensures
            final(self).wf(field),
            final(self).max_value == old(self).max_value,
            final(self).term.num == old(self).term.num,
            final(self).term.coeff.value() == neg_mod(
                old(self).term.coeff.value(),
                field.modulus(),
            ),
            final(self).term.constant_term.value() == neg_mod(
                old(self).term.constant_term.value(),
                field.modulus(),
            ),
            old(self).term.has_value() ==> final(self).term.value(field.modulus()) == neg_mod(
                old(self).term.value(field.modulus()),
                field.modulus(),
            ),
    {
        let ghost before = *self;
        self.term.negate(field);
        proof {
            if before.term.has_value() {
                let x = before.term.num.carried().unwrap();
                assert(self.term.eval(x, field.modulus()) == neg_mod(
                    before.term.eval(x, field.modulus()),
                    field.modulus(),
                ));
            }
        }
    }

    /// Adds the constant `c` to the value. The bound stays as it is.
    pub fn add_constant(&mut self, c: &FieldElement, field: &PrimeField)
        requires
            field.wf(),
            old(self).wf(field),
            c.in_field(field),
        ensures
            final(self).wf(field),
            final(self).max_value == old(self).max_value,
            final(self).term.num == old(self).term.num,
            final(self).term.coeff == old(self).term.coeff,
            final(self).term.constant_term.value() == add_mod(
                old(self).term.constant_term.value(),
                c.value(),
                field.modulus(),
            ),
            old(self).term.has_value() ==> final(self).term.value(field.modulus()) == add_mod(
                old(self).term.value(field.modulus()),
                c.value(),
                field.modulus(),
            ),
    {
        let ghost before = *self;
        self.term.add_constant(c, field);
        proof {
            if before.term.has_value() {
                let x = before.term.num.carried().unwrap();
                assert(self.term.eval(x, field.modulus()) == add_mod(
                    before.term.eval(x, field.modulus()),
                    c.value(),
                    field.modulus(),
                ));
            }
        }
    }

    /// The value of the limb as a field element, which is below the
    /// characteristic. The limb must have a value.
    pub fn get_field_value(&self, field: &PrimeField) -> (r: FieldElement)
        requires
            field.wf(),
            self.wf(field),
            self.term.has_value(),
        ensures
            r.in_field(field),
            r.value() == self.term.value(field.modulus()),
    {
        self.term.get_value(field).unwrap()
    }

    /// Whether the limb stands over a constant.
    pub fn is_constant(&self) -> (r: bool)
        ensures
            r == self.term.constant(),
    {
        self.term.is_constant()
    }

    /// The value of a limb over a constant.
    pub fn collapse_into_constant(&self, field: &PrimeField) -> (r: FieldElement)
        requires
            field.wf(),
            self.wf(field),
            self.term.constant(),
        ensures
            r.in_field(field),
            r.value() == self.term.value(field.modulus()),
    {
        self.term.get_constant_value(field)
    }

    /// What turns the limb into a single number: see
    /// [`Term::collapse_into_num`].
    pub fn collapse_into_num(&self, field: &PrimeField) -> (r: Collapsed)
        requires
            field.wf(),
            self.wf(field),
        ensures
            self.term.collapses_to(r, field),
    {
        self.term.collapse_into_num(field)
    }
}

} // verus!
