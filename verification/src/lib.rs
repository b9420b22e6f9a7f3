//! Bit-parallel computation of the unit-cost Levenshtein edit distance
//! between a short pattern (at most one register wide) and an arbitrarily
//! long text, after Myers' bit-vector algorithm.
//!
//! Two backends are provided: a scalar one working on a single 64-bit
//! machine word, and a wide one working on a 512-bit register emulated as
//! eight 64-bit lanes.  Every entry point is verified to return exactly the
//! Levenshtein distance of its inputs.

use vstd::prelude::*;

pub mod avx512;
pub mod bits;
pub mod lev;
pub mod model;
pub mod peq;
pub mod prelude;
pub mod scalar;
pub mod wide;

verus! {

/// Error returned by the fallible entry points when the pattern is longer
/// than the chosen backend's register width.
#[derive(Debug, Clone, Copy, PartialEq, Eq, Structural)]
pub struct PatternTooLong;

/// Error returned by the string-based table constructor when the pattern
/// holds a character outside the ASCII range.
#[derive(Debug, Clone, Copy, PartialEq, Eq, Structural)]
pub struct NotAscii;

} // verus!
