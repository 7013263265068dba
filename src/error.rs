use vstd::prelude::*;

verus! {

/// What can go wrong when an operation meets a document or another operation.
#[derive(Debug, PartialEq, Eq, Structural)]
pub enum OperationError {
    /// The operation's base length must be equal to the string's length.
    OperationApplyStringNotCompatible,
    /// The operation can't retain or delete more characters than are left in the string.
    OperationMoreLeftString,
    /// The base length of the second operation has to be the after length of the first.
    SecondBaseLengthNotEqualFirstAfterLength,
    /// Compose or transform: the first operation ran out before the second.
    ComposeFirstTooShort,
    /// Compose or transform: the second operation ran out before the first.
    ComposeFirstTooLong,
    /// Both operations have to have the same base length.
    TransformBaseDifferent,
    /// The two operations aren't compatible.
    TransformNotCompatible,
}

} // verus!
