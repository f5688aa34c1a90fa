//! Gadgets built from the circuit builder's primitives.

pub mod completeness;
pub mod insert;
pub mod packed_key;
pub mod permutation_check;
