//! A memory-optimised sparse histogram with a high dynamic range.
//!
//! A [`PackedHistogram`] counts values in buckets whose width grows with the values, so that a
//! fixed number of significant digits is kept over a wide range. It holds on to the buckets
//! that were hit, and to no others, and keeps their counts in as few bytes as the largest one
//! needs. It is written to and read from V2 streams, compressed or not.
//!
//! What it stands for is a [`model::HistogramState`]: a count for every bucket, and the
//! extremes. The contracts of its methods speak of that state; [`laws`] states what holds of
//! it as a whole.

pub mod bits;
pub mod errors;
pub mod geometry;
pub mod laws;
pub mod memory;
pub mod model;
mod packed;
pub mod slots;
pub mod sparse;
pub mod stream;
pub mod varint;
pub mod wire;
pub mod zlib;

pub use errors::{CreationError, PackedDeserializeError, PackedSerializeError, RecordError};
pub use geometry::{Bounds, Geometry};
pub use packed::PackedHistogram;
