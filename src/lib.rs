//! An owning, arbitrary-precision signed integer with verified semantics.
//!
//! A [`BigNum`] holds a sign and a little-endian sequence of 32-bit limbs; its
//! meaning in contracts is the mathematical integer it denotes.

pub mod math;
mod mag;
pub mod bn;
pub mod laws;
pub mod ops;

pub use bn::{BigNum, BnError, RNGProperty};
