//! The failures that the runtime reports.

use vstd::prelude::*;

verus! {

/// Why a single operation of the runtime failed.
#[derive(Clone, Copy, Debug, PartialEq, Eq, Structural)]
pub enum Fault {
    /// A class of that name is already registered.
    DuplicateClass,
    /// A field is declared twice along one inheritance chain.
    DuplicateFieldName,
    /// A class name that is not registered.
    UnresolvedClass,
    /// No class along the chain declares the field.
    UnresolvedField,
    /// No class along the chain declares the method.
    UnresolvedMethod,
    /// The number of indices differs from the number of dimensions.
    DimensionMismatch,
    /// An index, or a dimension, lies outside the range that can be addressed.
    IndexOutOfRange,
    /// A value of the wrong kind.
    TypeMismatch,
}

/// What the main path of a program reports when it cannot go on.
#[derive(Clone, Copy, Debug, PartialEq, Eq, Structural)]
pub enum Failure {
    /// An operation on the main path failed.
    Raised(Fault),
    /// A thread that was joined had failed, for the given reason.
    ThreadPanicked(Fault),
}

} // verus!
