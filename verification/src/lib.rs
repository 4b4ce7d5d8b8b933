//! The runs test for randomness of a bit sequence: the integer side of it.
//!
//! A bit sequence is held as a [`bits::BitsData`]. [`runs::runs_plan`] decides,
//! in exact integer arithmetic, whether the test can be evaluated at all:
//! [`balance::is_unbalanced`] turns away a sequence whose share of set bits is
//! too far from one half. Where the test can be evaluated, the plan hands out
//! the three counts from which the p-value is computed, the number of runs
//! among them.

pub mod balance;
pub mod bits;
pub mod runs;
