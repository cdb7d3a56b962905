//! The failure taxonomy of a merge call.

use vstd::prelude::*;

verus! {

/// Why a merge call failed.  Every failure is terminal: no partial output is
/// ever produced.
#[derive(Clone, Copy, PartialEq, Eq, Structural, Debug)]
pub enum MergeError {
    /// Fewer than two documents were supplied.
    InputError,
    /// A buffer is not a well-formed document.
    ParseError,
    /// The documents' structure cannot be merged: no catalog or no page
    /// collection was found among all inputs, an id space was inconsistent
    /// with its declared maximum, or the output id space cannot be numbered.
    StructuralError,
    /// The final encode of the merged document failed.
    SerializationError,
}

} // verus!
