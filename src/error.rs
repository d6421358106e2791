use vstd::prelude::*;

verus! {

/// The ways a table operation can fail.
#[derive(Debug, Clone, Copy, PartialEq, Eq, Structural)]
pub enum Error {
    /// No value is stored at the key, or the index key has no members.
    NotFound,
    /// The stored bytes do not parse as the expected record shape.
    DecodeError,
    /// A watched key changed between declaration and commit.
    TransactionConflict,
    /// The store could not be reached.
    StoreUnavailable,
    /// The record failed validation before any mutation was attempted.
    InvalidRecord,
}

} // verus!
