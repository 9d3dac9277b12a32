//! The library's error type.
use vstd::prelude::*;

verus! {

/// Why a memory operation did not complete.
#[derive(Debug, Clone, PartialEq, Eq)]
pub enum MemoryError {
    /// A store adapter reported a failure (its message).
    Storage(String),
    /// The referenced tree node does not exist.
    UnknownNode(i64),
    /// The store has handed out every node id it can represent.
    IdSpaceExhausted,
    /// No inbox node exists (the spine was not seeded).
    NoInbox,
    /// A `document.completed` event carries neither a group id nor a data id.
    MissingDocumentId,
    /// An embedding's length does not match the store's vector dimension.
    DimensionMismatch { got: usize, expected: usize },
    /// A hard reset was refused: the confirmation token did not match.
    ResetRefused,
}

} // verus!
