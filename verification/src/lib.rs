//! A storage-layout engine over a primitive word store: 256-bit keys map to
//! 32-byte words, and the only operations are `read` and `write`.
//!
//! On top of that primitive the crate builds a deterministic hierarchical
//! key-derivation scheme (`utils::SubAddress`), a fixed-width codec
//! (`collections::Serialize`), and an append-only indexable sequence
//! (`collections::Array`) whose elements — including nested sequences —
//! live entirely inside the derived key space.

pub mod codec;
pub mod collections;
pub mod contract;
pub mod storage;
pub mod uint256;
pub mod utils;
