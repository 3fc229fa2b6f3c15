//! A counter of `u64` items: a frequency table whose lookups never fail,
//! stored in an `ahash` hash map and verified against a `Map` model.
pub mod map;

pub mod model;

pub mod counter;

pub use crate::counter::Counter;
