//! The carrier of a limb's value: a linear expression `coeff * x + constant`
//! over the field, where `x` is a constant or one allocated variable.

use vstd::prelude::*;
use vstd::pervasive::unreached;
use vstd::arithmetic::div_mod::{
    lemma_mul_mod_noop_general, lemma_add_mod_noop, lemma_add_mod_noop_right, lemma_small_mod,
    lemma_mod_multiples_basic, lemma_mod_bound, lemma_fundamental_div_mod,
};
use crate::big::{uint_eq, uint_is_zero, uint_from_u64};
use crate::convert::fe_to_biguint;
use crate::field::{FieldElement, PrimeField, add_mod, mul_mod, neg_mod};

verus! {

/// The name of a variable that a constraint system has allocated.
#[derive(Clone, Copy, Debug, PartialEq, Eq)]
pub struct Variable {
    pub index: usize,
}

/// An allocated variable, with the value assigned to it where there is one.
#[derive(Clone, Debug, PartialEq, Eq)]
pub struct AllocatedNum {
    pub value: Option<FieldElement>,
    pub variable: Variable,
}

/// A number in a circuit: an allocated variable or a constant.
#[derive(Clone, Debug, PartialEq, Eq)]
pub enum Num {
    Variable(AllocatedNum),
    Constant(FieldElement),
}

/// The linear expression `coeff * num + constant_term`.
#[derive(Clone, Debug, PartialEq, Eq)]
pub struct Term {
    pub num: Num,
    pub coeff: FieldElement,
    pub constant_term: FieldElement,
}

/// What has to happen to turn a term into a single number.
#[derive(Clone, Debug, PartialEq, Eq)]
pub enum Collapsed {
    /// The term is this number already; nothing is to be allocated.
    Ready(Num),
    /// A new variable is to be allocated with this value, and constrained to
    /// equal the term.
    Allocate(Option<FieldElement>),
}

/// `(c * x + k) * b` is `(c * b) * x + k * b`, modulo `p`.
pub proof fn lemma_scale_linear(c: nat, x: nat, k: nat, b: nat, p: nat)
    requires
        p > 0,
    ensures
        add_mod(mul_mod(mul_mod(c, b, p), x, p), mul_mod(k, b, p), p) == mul_mod(
            add_mod(mul_mod(c, x, p), k, p),
            b,
            p,
        ),
{
    let m = p as int;
    let (ci, xi, ki, bi) = (c as int, x as int, k as int, b as int);
    let scaled = (ci * bi) * xi + ki * bi;
    let lhs = add_mod(mul_mod(mul_mod(c, b, p), x, p), mul_mod(k, b, p), p);
    let rhs = mul_mod(add_mod(mul_mod(c, x, p), k, p), b, p);
    assert(lhs == scaled % m) by {
        lemma_mul_mod_noop_general(ci * bi, xi, m);
        lemma_add_mod_noop((ci * bi) * xi, ki * bi, m);
    }
    assert(rhs == ((ci * xi + ki) * bi) % m) by {
        lemma_add_mod_noop(ci * xi, ki, m);
        lemma_add_mod_noop_right((ci * xi) % m, ki, m);
        lemma_mul_mod_noop_general(ci * xi + ki, bi, m);
    }
    assert(scaled == (ci * xi + ki) * bi) by (nonlinear_arith)
        requires
            scaled == (ci * bi) * xi + ki * bi,
    ;
}

/// `(c * x + k) + d` is `c * x + (k + d)`, modulo `p`.
pub proof fn lemma_shift_linear(c: nat, x: nat, k: nat, d: nat, p: nat)
    requires
        p > 0,
    ensures
        add_mod(mul_mod(c, x, p), add_mod(k, d, p), p) == add_mod(
            add_mod(mul_mod(c, x, p), k, p),
            d,
            p,
        ),
{
    let m = p as int;
    let a = ((c * x) % p) as int;
    let (k, d) = (k as int, d as int);
    lemma_add_mod_noop_right(a, k + d, m);
    lemma_add_mod_noop(a + k, d, m);
    lemma_add_mod_noop_right((a + k) % m, d, m);
}

/// Two numbers below `p` whose sum is a multiple of `p` are each other's
/// additive inverse.
pub proof fn lemma_neg_unique(a: nat, b: nat, p: nat)
    requires
        p > 0,
        a < p,
        b < p,
        (a + b) % p == 0,
    ensures
        b == neg_mod(a, p),
{
    if a == 0 {
        lemma_small_mod(b, p);
    } else {
        lemma_fundamental_div_mod((a + b) as int, p as int);
        let q = ((a + b) / p) as int;
        assert(q == 1) by (nonlinear_arith)
            requires
                a + b == p * q,
                0 < a + b < 2 * p,
                p > 0,
        ;
    }
}

/// `-(c * x + k)` is `(-c) * x + (-k)`, modulo `p`.
pub proof fn lemma_negate_linear(c: nat, x: nat, k: nat, p: nat)
    requires
        p > 0,
        c < p,
        k < p,
    ensures
        add_mod(mul_mod(neg_mod(c, p), x, p), neg_mod(k, p), p) == neg_mod(
            add_mod(mul_mod(c, x, p), k, p),
            p,
        ),
{
    let m = p as int;
    let nc = neg_mod(c, p) as int;
    let nk = neg_mod(k, p) as int;
    let (ci, xi, ki) = (c as int, x as int, k as int);
    let after = add_mod(mul_mod(neg_mod(c, p), x, p), neg_mod(k, p), p);
    let before = add_mod(mul_mod(c, x, p), k, p);
    lemma_add_mod_noop(nc * xi, nk, m);
    lemma_add_mod_noop(ci * xi, ki, m);
    lemma_mod_bound(nc * xi, m);
    lemma_mod_bound(ci * xi, m);
    lemma_small_mod(nk as nat, p);
    lemma_small_mod(k, p);
    lemma_add_mod_noop((nc * xi) % m, nk, m);
    lemma_add_mod_noop((ci * xi) % m, ki, m);
    assert(after == (nc * xi + nk) % m);
    assert(before == (ci * xi + ki) % m);
    lemma_add_mod_noop(nc * xi + nk, ci * xi + ki, m);
    let u: int = if c == 0 { 0 } else { 1 };
    let v: int = if k == 0 { 0 } else { 1 };
    assert((nc * xi + nk) + (ci * xi + ki) == (u * xi + v) * m) by (nonlinear_arith)
        requires
            nc + ci == u * m,
            nk + ki == v * m,
    ;
    lemma_mod_multiples_basic(u * xi + v, m);
    lemma_mod_bound(nc * xi + nk, m);
    lemma_mod_bound(ci * xi + ki, m);
    lemma_neg_unique(before, after, p);
}

impl Num {
    /// The value that the number carries, where it has one.
    pub open spec fn carried(&self) -> Option<nat> {
        match self {
            Num::Constant(c) => Some(c.value()),
            Num::Variable(n) => match n.value {
                Some(v) => Some(v.value()),
                None => None,
            },
        }
    }

    /// What the number carries is an element of `field`.
    pub open spec fn wf(&self, field: &PrimeField) -> bool {
        match self {
            Num::Constant(c) => c.in_field(field),
            Num::Variable(n) => match n.value {
                Some(v) => v.in_field(field),
                None => true,
            },
        }
    }

    /// Whether what the number carries is an element of `field`.
    pub fn is_over(&self, field: &PrimeField) -> (r: bool)
        requires
            field.wf(),
        ensures
            r == self.wf(field),
    {
        match self {
            Num::Constant(c) => field.contains(c),
            Num::Variable(n) => match &n.value {
                Some(v) => field.contains(v),
                None => true,
            },
        }
    }

    /// Whether two numbers are of the same kind, name the same variable and
    /// carry the same words.
    pub open spec fn agrees(&self, other: &Num) -> bool {
        match (self, other) {
            (Num::Constant(a), Num::Constant(b)) => a.words@ == b.words@,
            (Num::Variable(a), Num::Variable(b)) => a.variable == b.variable && match (
                a.value,
                b.value,
            ) {
                (Some(x), Some(y)) => x.words@ == y.words@,
                (None, None) => true,
                _ => false,
            },
            _ => false,
        }
    }

    /// A copy of the number.
    pub fn duplicate(&self) -> (r: Num)
        ensures
            r.agrees(self),
    {
        match self {
            Num::Constant(c) => Num::Constant(c.clone()),
            Num::Variable(n) => {
                let value = match &n.value {
                    Some(v) => Some(v.clone()),
                    None => None,
                };
                Num::Variable(AllocatedNum { value, variable: n.variable })
            },
        }
    }
}

impl Term {
    /// The parts of the term are elements of `field`.
    pub open spec fn wf(&self, field: &PrimeField) -> bool {
        &&& self.num.wf(field)
        &&& self.coeff.in_field(field)
        &&& self.constant_term.in_field(field)
    }

    /// Whether the term stands over a constant rather than a variable.
    pub open spec fn constant(&self) -> bool {
        self.num is Constant
    }

    /// Whether the term has a value: it stands over a constant, or over a
    /// variable that has been assigned.
    pub open spec fn has_value(&self) -> bool {
        self.num.carried().is_some()
    }

    /// The value of the term in the field of characteristic `p` when its
    /// number is `x`.
    pub open spec fn eval(&self, x: nat, p: nat) -> nat {
        add_mod(mul_mod(self.coeff.value(), x, p), self.constant_term.value(), p)
    }

    /// The value of a term that has one, in the field of characteristic `p`.
    pub open spec fn value(&self, p: nat) -> nat {
        self.eval(self.num.carried().unwrap(), p)
    }

    /// Whether `r` is what turns this term into a single number. A term
    /// over a constant is the constant of its value. A term `1 * x + 0` over
    /// a variable is that variable. For any other term a new variable has to
    /// be allocated with the value of the term, where it has one.
    pub open spec fn collapses_to(&self, r: Collapsed, field: &PrimeField) -> bool {
        let plain = self.coeff.value() == 1 && self.constant_term.value() == 0;
        match r {
            Collapsed::Ready(Num::Constant(c)) => self.constant() && c.in_field(field)
                && c.value() == self.value(field.modulus()),
            Collapsed::Ready(Num::Variable(b)) => !self.constant() && plain && Num::Variable(
                b,
            ).agrees(&self.num),
            Collapsed::Allocate(v) => !self.constant() && !plain && v.is_some()
                == self.has_value() && (v.is_some() ==> v.unwrap().in_field(field)
                && v.unwrap().value() == self.value(field.modulus())),
        }
    }

    /// Whether the parts of the term are elements of `field`.
    pub fn is_over(&self, field: &PrimeField) -> (r: bool)
        requires
            field.wf(),
        ensures
            r == self.wf(field),
    {
        self.num.is_over(field) && field.contains(&self.coeff) && field.contains(
            &self.constant_term,
        )
    }

    /// The term `1 * num + 0`.
    pub fn from_num(num: Num, field: &PrimeField) -> (r: Term)
        requires
            field.wf(),
            num.wf(field),
        ensures
            r.wf(field),
            r.num == num,
            r.coeff.value() == 1,
            r.constant_term.value() == 0,
            forall|x: nat| x < field.modulus() ==> r.eval(x, field.modulus()) == x,
    {
        let r = Term { num, coeff: field.one(), constant_term: field.zero() };
        proof {
            assert forall|x: nat| x < field.modulus() implies r.eval(x, field.modulus()) == x by {
                assert(1 * x == x) by (nonlinear_arith);
                lemma_small_mod(x, field.modulus());
            }
        }
        r
    }

    /// The term that stands for the constant `val`.
    pub fn from_constant(val: FieldElement, field: &PrimeField) -> (r: Term)
        requires
            field.wf(),
            val.in_field(field),
        ensures
            r.wf(field),
            r.num == Num::Constant(val),
            r.coeff.value() == 1,
            r.constant_term.value() == 0,
            r.value(field.modulus()) == val.value(),
    {
        Term::from_num(Num::Constant(val), field)
    }

    /// Whether the term stands over a constant.
    pub fn is_constant(&self) -> (r: bool)
        ensures
            r == self.constant(),
    {
        match &self.num {
            Num::Constant(_) => true,
            Num::Variable(_) => false,
        }
    }

    /// `coeff * x + constant_term` for an element `x`.
    fn apply(&self, x: &FieldElement, field: &PrimeField) -> (r: FieldElement)
        requires
            field.wf(),
            self.wf(field),
            x.in_field(field),
        ensures
            r.in_field(field),
            r.value() == self.eval(x.value(), field.modulus()),
    {
        field.add(&field.mul(&self.coeff, x), &self.constant_term)
    }

    /// The value of a term over a constant.
    pub fn get_constant_value(&self, field: &PrimeField) -> (r: FieldElement)
        requires
            field.wf(),
            self.wf(field),
            self.constant(),
        ensures
            r.in_field(field),
            r.value() == self.value(field.modulus()),
    {
        match &self.num {
            Num::Constant(c) => self.apply(c, field),
            Num::Variable(_) => unreached(),
        }
    }

    /// The value of the term, where it has one.
    pub fn get_value(&self, field: &PrimeField) -> (r: Option<FieldElement>)
        requires
            field.wf(),
            self.wf(field),
        ensures
            r.is_some() == self.has_value(),
            r.is_some() ==> r.unwrap().in_field(field) && r.unwrap().value() == self.value(
                field.modulus(),
            ),
    {
        match &self.num {
            Num::Constant(c) => Some(self.apply(c, field)),
            Num::Variable(n) => match &n.value {
                Some(v) => Some(self.apply(v, field)),
                None => None,
            },
        }
    }

    /// Multiplies the term by `by`.
    pub fn scale(&mut self, by: &FieldElement, field: &PrimeField)
        requires
            field.wf(),
            old(self).wf(field),
            by.in_field(field),
        ensures
            final(self).wf(field),
            final(self).num == old(self).num,
            final(self).coeff.value() == mul_mod(
                old(self).coeff.value(),
                by.value(),
                field.modulus(),
            ),
            final(self).constant_term.value() == mul_mod(
                old(self).constant_term.value(),
                by.value(),
                field.modulus(),
            ),
            forall|x: nat| #[trigger]
                final(self).eval(x, field.modulus()) == mul_mod(
                    old(self).eval(x, field.modulus()),
                    by.value(),
                    field.modulus(),
                ),
    {
        let ghost before = *self;
        self.coeff = field.mul(&self.coeff, by);
        self.constant_term = field.mul(&self.constant_term, by);
        proof {
            assert forall|x: nat| #[trigger]
                self.eval(x, field.modulus()) == mul_mod(
                    before.eval(x, field.modulus()),
                    by.value(),
                    field.modulus(),
                ) by {
                lemma_scale_linear(
                    before.coeff.value(),
                    x,
                    before.constant_term.value(),
                    by.value(),
                    field.modulus(),
                );
            }
        }
    }

    /// Replaces the term by its additive inverse.
    pub fn negate(&mut self, field: &PrimeField)
        requires
            field.wf(),
            old(self).wf(field),
        ensures
            final(self).wf(field),
            final(self).num == old(self).num,
            final(self).coeff.value() == neg_mod(old(self).coeff.value(), field.modulus()),
            final(self).constant_term.value() == neg_mod(
                old(self).constant_term.value(),
                field.modulus(),
            ),
            forall|x: nat| #[trigger]
                final(self).eval(x, field.modulus()) == neg_mod(
                    old(self).eval(x, field.modulus()),
                    field.modulus(),
                ),
    {
        let ghost before = *self;
        self.coeff = field.negate(&self.coeff);
        self.constant_term = field.negate(&self.constant_term);
        proof {
            assert forall|x: nat| #[trigger]
                self.eval(x, field.modulus()) == neg_mod(
                    before.eval(x, field.modulus()),
                    field.modulus(),
                ) by {
                lemma_negate_linear(
                    before.coeff.value(),
                    x,
                    before.constant_term.value(),
                    field.modulus(),
                );
            }
        }
    }

    /// Adds the constant `c` to the term.
    pub fn add_constant(&mut self, c: &FieldElement, field: &PrimeField)
        requires
            field.wf(),
            old(self).wf(field),
            c.in_field(field),
        ensures
            final(self).wf(field),
            final(self).num == old(self).num,
            final(self).coeff == old(self).coeff,
            final(self).constant_term.value() == add_mod(
                old(self).constant_term.value(),
                c.value(),
                field.modulus(),
            ),
            forall|x: nat| #[trigger]
                final(self).eval(x, field.modulus()) == add_mod(
                    old(self).eval(x, field.modulus()),
                    c.value(),
                    field.modulus(),
                ),
    {
        let ghost before = *self;
        self.constant_term = field.add(&self.constant_term, c);
        proof {
            assert forall|x: nat| #[trigger]
                self.eval(x, field.modulus()) == add_mod(
                    before.eval(x, field.modulus()),
                    c.value(),
                    field.modulus(),
                ) by {
                lemma_shift_linear(
                    before.coeff.value(),
                    x,
                    before.constant_term.value(),
                    c.value(),
                    field.modulus(),
                );
            }
        }
    }

    /// What turns the term into a single number: the number itself, or the
    /// value with which a new variable has to be allocated.
    pub fn collapse_into_num(&self, field: &PrimeField) -> (r: Collapsed)
        requires
            field.wf(),
            self.wf(field),
        ensures
            self.collapses_to(r, field),
    {
        if self.is_constant() {
            return Collapsed::Ready(Num::Constant(self.get_constant_value(field)));
        }
        let one = uint_from_u64(1);
        if uint_eq(&fe_to_biguint(&self.coeff), &one) && uint_is_zero(
            &fe_to_biguint(&self.constant_term),
        ) {
            return Collapsed::Ready(self.num.duplicate());
        }
        Collapsed::Allocate(self.get_value(field))
    }
}

} // verus!
