//! Failures detected while a circuit is built.

use vstd::prelude::*;

verus! {

/// Why a gadget refused to extend the circuit. A refusal leaves the
/// circuit as it was; it is unrelated to whether an assignment satisfies
/// the constraints.
#[derive(Clone, Copy, Debug, PartialEq, Eq, Structural)]
pub enum CircuitError {
    /// A wire handed to the gadget has not been allocated in this circuit.
    UnknownWire,
    /// Two sequences that must have the same length do not.
    LengthMismatch,
    /// The widths asked for add up to more bits than every field element
    /// can hold.
    WidthExceedsCapacity,
    /// A deferred computation names an output that something already
    /// drives, names one twice, or reads a wire that is not older than all
    /// of its outputs.
    InvalidGenerator,
}

} // verus!
