//! Online (single-pass) summary statistics: an incremental extrema and count
//! accumulator and a histogram accumulator, both fed one observation at a
//! time through a shared observer capability.
//!
//! Observations are carried as order keys: unsigned 64-bit words whose
//! numeric order matches the total order of the measurements they encode.
//! Producing a key from a measurement (and reading it back) is the caller's
//! concern; every algorithm here only ever compares keys, so the whole
//! engine is stated and proved over plain integers.

pub mod histogram;
pub mod summary;
