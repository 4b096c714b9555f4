//! A motion space: entries (users and posts) live as fixed-point vectors in a
//! shared embedding space, and a stream of interaction events moves their
//! positions and a per-user "motion" accumulator.
//!
//! All scalar quantities are fixed-point integers: an `i64` counts micro-units,
//! so `SCALE` (one million) stands for the real value one.

pub mod embedding;
pub mod exponential;
pub mod kernel;
pub mod math;
pub mod motion_core;
pub mod motion_input;

use vstd::prelude::*;

verus! {

/// One unit (the real number 1.0) in fixed-point micro-units.
pub const SCALE: i64 = 1_000_000;

/// Largest magnitude a vector component may take (one million units).
pub const COORD_LIMIT: i64 = 1_000_000_000_000;

/// Largest vector length the library accepts.
pub const DIM_LIMIT: usize = 65_536;

} // verus!
