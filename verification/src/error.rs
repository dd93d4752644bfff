//! The error kinds of the engine.

use vstd::prelude::*;

verus! {

/// What can go wrong in the engine.
#[derive(Debug, Clone, Copy, PartialEq, Eq, Structural)]
pub enum Error {
    /// The underlying file system failed.
    Io,
    /// Stored bytes do not have the shape or the checksum they must have.
    Corrupt,
    /// A page was to be written where a file already exists.
    AlreadyExists,
    /// A floating-point field value was not a number.
    InvalidValue,
    /// A page was to be built from no records.
    Empty,
}

} // verus!
