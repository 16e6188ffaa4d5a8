//! The errors that the store reports to its callers.
use vstd::prelude::*;

verus! {

#[derive(Debug, Clone, Copy, PartialEq, Eq, Structural)]
pub enum DatastoreError {
    /// No note has the given id.
    UnknownId { given: usize },
    /// An update was asked of a store that holds no note.
    NotUpdateable,
    /// A removal was asked of a store that holds no note.
    Empty,
    /// A command-line argument is missing or is not a non-negative integer.
    BadArgument,
}

} // verus!
