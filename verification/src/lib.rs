//! Arithmetic-circuit gadgets for proving, inside a circuit, that one
//! sequence of wires holds a rearrangement of another, that a sequence is
//! the descending sort of another, and for filtering records by sorting
//! packed keys.
//!
//! A circuit is built once, through [`circuit_builder::CircuitBuilder`],
//! and then holds for any number of assignments. The gadgets are in
//! [`gadgets`]; each states which wires and constraints it adds, what
//! every satisfying assignment must then obey, and, in
//! [`gadgets::completeness`], that the constraints can be met.
//!
//! The transcript that derives challenges is not part of this crate: a
//! circuit records which wires each challenge is bound to, and
//! [`circuit_data::CircuitData::next_challenge`] hands them out one by
//! one.

pub mod bits;
pub mod challenger;
pub mod circuit_builder;
pub mod circuit_data;
pub mod error;
pub mod extension;
pub mod field;
pub mod fingerprint;
pub mod gadgets;
pub mod gate;
pub mod generator;
pub mod model;
pub mod resolution;
pub mod serialization;
pub mod sorting;
pub mod target;
pub mod witness;
