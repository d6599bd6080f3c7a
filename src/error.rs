use vstd::prelude::*;

verus! {

/// What a call of the engine can fail with.
#[derive(Clone, Copy, Debug, PartialEq, Eq, Structural)]
pub enum EngineError {
    /// Inputs that must pair up differ in number: bases and scalars, elements
    /// and bucket assignments, or a profile recorded for another number of
    /// devices.
    InputLengthMismatch,
}

} // verus!
