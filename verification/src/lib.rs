//! Limb accounting for big integers that live inside an arithmetic circuit.
//!
//! A big integer is held as a sequence of limbs of a fixed bit width. Each limb
//! carries a value of a prime field together with an upper bound on that value.
//! The crate splits integers into limbs, puts them together again, derives the
//! field constants that shift a value by one limb, and keeps the bounds in step
//! with the operations applied to the limbs.

pub mod big;
pub mod convert;
pub mod field;
pub mod inverse;
pub mod limb;
pub mod limbed;
pub mod numeric;
pub mod params;
pub mod split;
pub mod term;
