//! Writes fractions in `[0, 1)` in binary, truncated to a fixed number of
//! places, and lays out a two-column table of decimal and binary text.
//!
//! Values are exact dyadic fractions `mantissa / 2^scale`, read from the bits
//! of a double, so every step is integer arithmetic.
use vstd::prelude::*;

pub mod convert;
pub mod fraction;
pub mod power;
pub mod report;
pub mod table;

verus! {

} // verus!
