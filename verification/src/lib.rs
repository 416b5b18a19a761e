//! An authenticated key-value store over a binary Merkle tree keyed by
//! 32-byte hashes, with a pointer-tree engine, a flat ordered-store engine,
//! and the byte-level term codec that travels with them.

pub mod hash;
pub mod bits;
pub mod bucket;
pub mod node;
pub mod stem_tree;
pub mod tree;
pub mod merkle_proof;
pub mod sorting;
pub mod bulk;
pub mod varint;
pub mod error;
pub mod de;
pub mod ser;
pub mod flat;
