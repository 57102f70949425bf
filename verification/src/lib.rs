//! Reads and validates the packed-object container format of a
//! content-addressed version-control system: restartable byte-oriented
//! parsers for the pack's file and entry headers, a streaming delta
//! decoder, a content-addressed object hasher, an offset/id index with a
//! delta-chain resolver, and a walker that ties them together over a pack
//! held in memory.

pub mod delta;
pub mod driver;
pub mod hash;
pub mod incremental;
pub mod index;
pub mod object;
pub mod pack;
pub mod parsers;
pub mod shl;

pub use shl::safe_shl_u64;
