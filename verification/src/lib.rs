//! A bounded-memory sketch that estimates how many distinct 64-bit
//! fingerprints a stream has shown it.
//!
//! A sketch keeps a sample of the fingerprints offered to it. While the
//! sample fits the capacity, the count is exact. When it no longer fits, the
//! retention level rises and the sample keeps only the fingerprints whose
//! low-order bits, as many as the level says, are zero; the estimate is the
//! size of the sample times two to the power of the level.
//!
//! - `retention`: the retention rule and the level at which a set comes to rest.
//! - `model`: a sketch as a mathematical value, and its operations.
//! - `laws`: what holds of those operations for all sketches.
//! - `order`: sequences in rising order, as the sample is stored.
//! - `sketch`: the sketch itself.
//! - `fingerprint`: from integers, bytes and text to fingerprints.
//! - `codec`: the byte encoding.
//! - `error`: the failures.

pub mod codec;
pub mod error;
pub mod fingerprint;
pub mod laws;
pub mod model;
pub mod order;
pub mod retention;
pub mod sketch;
