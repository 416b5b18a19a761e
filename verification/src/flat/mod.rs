//! The flat engine: every node of the tree is an entry of one ordered store,
//! keyed by the bits of its path and their number.

pub mod path;
pub mod key;
pub mod store;
pub mod dirty;
pub mod ancestors;
pub mod hubt;
pub mod batch;
pub mod flat_proof;
pub mod leaves;
pub mod consistency;
pub mod soundness;
pub mod rank;
pub mod keeping;
pub mod splits;
pub mod inverse;
pub mod unique;
pub mod canonical;
pub mod rest;
pub mod runs;
