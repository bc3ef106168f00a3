use vstd::prelude::*;

verus! {

/// What an operation of this library reports when it cannot go on.
#[derive(Clone, Copy, Debug, PartialEq, Eq, Structural)]
pub enum NovaError {
    /// A length breaks one of the shape rules of the operation.
    InvalidInputLength,
    /// The final group equation fails, or a batch inversion met zero.
    InvalidIPA,
    /// A compressed group element does not decode to a point.
    DecompressionError,
    /// A gadget needed the value of a variable that has none.
    AssignmentMissing,
}

} // verus!
