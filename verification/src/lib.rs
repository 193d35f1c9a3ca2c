//! A cardinality sketch: a bit buffer of fixed length into which 64-bit short
//! ids are folded by toggling one bit each. The number of set bits tells
//! roughly how many short ids were inserted an odd number of times, and the
//! exclusive or of two sketches is the sketch of the symmetric difference of
//! what went into them.
//!
//! - `sketch` holds the type `Oddsketch` and its operations.
//! - `model` says what a buffer is as a sequence of bytes and bits, and what
//!   each operation makes of it.
//! - `laws` proves what holds of every sketch.
//! - `bits` holds the facts about a single byte on which the rest stands.
//! - `estimate` decides on which weights an estimator is defined.

pub mod bits;
pub mod estimate;
pub mod laws;
pub mod model;
pub mod sketch;

pub use estimate::{Regime, SATURATED};
pub use sketch::{Oddsketch, SketchError, DEFAULT_LEN};
