//! Immutable data source backends.
//!
//! The [`Backend`] enum represents the different ways binary data can be provided. Once
//! constructed, a backend is never modified: it serves as the immutable base layer below an
//! [`Overlay`](crate::Overlay).

use vstd::prelude::*;

use crate::error::Error;
use crate::mapping::mmap_as_slice;

verus! {

use crate::mapping::mmap_bytes;

/// An immutable base data source.
pub enum Backend {
    /// Owned byte vector.
    Vec(Vec<u8>),
    /// Memory-mapped file for zero-copy access.
    Mmap(memmap2::Mmap),
}

impl View for Backend {
    type V = Seq<u8>;

    /// The bytes; which storage holds them shows in the variant.
    open spec fn view(&self) -> Seq<u8> {
        match self {
            Backend::Vec(bytes) => bytes@,
            Backend::Mmap(mapping) => mmap_bytes(*mapping),
        }
    }
}

impl Backend {
    /// Returns the total length of the underlying data in bytes.
    pub fn len(&self) -> (len: u64)
        ensures
            len == self@.len(),
    {
        match self {
            Backend::Vec(bytes) => bytes.len() as u64,
            Backend::Mmap(mapping) => mmap_as_slice(mapping).len() as u64,
        }
    }

    /// Returns the entire underlying data as a byte slice.
    pub fn as_slice(&self) -> (slice: &[u8])
        ensures
            slice@ == self@,
    {
        match self {
            Backend::Vec(bytes) => bytes.as_slice(),
            Backend::Mmap(mapping) => mmap_as_slice(mapping),
        }
    }

    /// Returns a sub-slice of the underlying data at the given offset and length.
    ///
    /// # Errors
    ///
    /// Returns [`Error::OutOfBounds`] if the requested range exceeds the data length.
    pub fn slice(&self, offset: u64, length: u64) -> (result: Result<&[u8], Error>)
        ensures
            result is Ok == (offset + length <= self@.len()),
            match result {
                Ok(slice) => slice@ == self@.subrange(offset as int, offset + length),
                Err(error) => error == (Error::OutOfBounds {
                    offset: offset as usize,
                    length: length as usize,
                    file_size: self@.len() as usize,
                }),
            },
    {
        let data: &[u8] = self.as_slice();
        let file_size: usize = data.len();
        match offset.checked_add(length) {
            Some(end) if end <= file_size as u64 => Ok(
                vstd::slice::slice_subrange(data, offset as usize, end as usize),
            ),
            _ => Err(
                Error::OutOfBounds { offset: offset as usize, length: length as usize, file_size },
            ),
        }
    }
}

} // verus!
