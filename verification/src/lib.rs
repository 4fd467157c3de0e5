//! A Bloom filter over byte strings, with a persisted, self-describing layout.
//!
//! [`Bloom`] is the filter and [`BitMap`] the bit store under it. [`layout`] says what a
//! serialized buffer holds, [`model`] what a filter in that state does, and [`laws`] what
//! follows for every filter.

pub mod bitmap;
pub mod bloom;
pub mod codec;
pub mod entropy;
pub mod hashing;
pub mod laws;
pub mod layout;
pub mod model;
pub mod sizing;

pub use bitmap::BitMap;
pub use bloom::Bloom;
pub use layout::{BITMAP_HEADER_SIZE, VERSION};
