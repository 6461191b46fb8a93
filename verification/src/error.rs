use vstd::prelude::*;

verus! {

/// The ways in which an operation of this library can fail.
#[derive(Debug, Clone, Copy, PartialEq, Eq, Structural)]
pub enum ShareError {
    /// A field division or inversion was asked for the additive identity.
    DivisionByZero,
    /// Two evaluation points of an interpolation group coincide in the field.
    InvalidParticipants,
    /// An operation was invoked before the state it depends on existed.
    PrecursorMissing,
}

} // verus!
