//! Extensible traits for reading and writing user-defined types.
//!
//! These traits allow external crates to define how their structs are serialized to and
//! deserialized from a [`CowFile`]. For primitive numeric types, use the built-in
//! [`read_le`](CowFile::read_le) / [`write_le`](CowFile::write_le) methods instead.

use vstd::prelude::*;

use crate::cowfile::CowFile;
use crate::error::Error;

verus! {

use crate::cowfile::CowFileView;

/// Trait for types that can be deserialized from a [`CowFile`] at a given offset.
///
/// Implement this for user-defined structs to enable [`CowFile::read_type`].
pub trait ReadFrom: Sized {
    /// What a read at `offset` of a file may come to. An implementation that promises something of
    /// its reads says it here.
    open spec fn reads(file: CowFileView, offset: int, result: Result<Self, Error>) -> bool {
        true
    }

    /// Reads and deserializes a value from the given `cowfile` at `offset`.
    ///
    /// # Errors
    ///
    /// Returns an error if the underlying reads fail (e.g., out of bounds).
    fn read_from(cowfile: &CowFile, offset: usize) -> (result: Result<Self, Error>)
        ensures
            Self::reads(cowfile@, offset as int, result),
    ;
}

/// Trait for types that can be serialized into a [`CowFile`] at a given offset.
///
/// Implement this for user-defined structs to enable [`CowFile::write_type`].
pub trait WriteTo {
    /// What a write at `offset` may make of a file. An implementation that promises something of
    /// its writes says it here.
    open spec fn writes(
        &self,
        before: CowFileView,
        offset: int,
        after: CowFileView,
        result: Result<(), Error>,
    ) -> bool {
        true
    }

    /// Serializes this value into the given `cowfile` at `offset`, by writes to the pending log.
    /// It neither commits nor discards.
    ///
    /// # Errors
    ///
    /// Returns an error if the underlying writes fail (e.g., out of bounds).
    fn write_to(&self, cowfile: &mut CowFile, offset: usize) -> (result: Result<(), Error>)
        ensures
            self.writes(old(cowfile)@, offset as int, final(cowfile)@, result),
            old(cowfile)@.extended_by(final(cowfile)@),
    ;
}

} // verus!
