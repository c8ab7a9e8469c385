//! Binary floating-point arithmetic on integers, with a mathematical model.
//!
//! Every operation of [`binary32::Binary32`] and [`binary64::Binary64`] gives the bits of the exact
//! result, rounded once to nearest, ties to even. What an operation means is stated in [`model`]
//! over natural numbers, so a decision that a program takes on such numbers can be reasoned about
//! like any other.

pub mod arith;
pub mod binary32;
pub mod binary64;
pub mod convert;
pub mod laws;
pub mod model;
pub mod ops;
pub mod root;
pub mod rounding;
