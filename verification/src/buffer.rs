//! The committed buffer: an owned vector or a copy-on-write memory map.

use vstd::prelude::*;

use crate::bytes::copy_range;
use crate::mapping::{mmap_mut_as_mut_slice, mmap_mut_as_slice};

verus! {

use crate::mapping::mmap_mut_bytes;

/// Inner storage for a file.
pub enum Inner {
    /// Owned byte vector, directly mutable.
    Vec(Vec<u8>),
    /// Copy-on-write memory map. Writes are process-private.
    Mmap(memmap2::MmapMut),
}

impl View for Inner {
    type V = Seq<u8>;

    /// The bytes; which storage holds them shows in the variant.
    open spec fn view(&self) -> Seq<u8> {
        match self {
            Inner::Vec(bytes) => bytes@,
            Inner::Mmap(mapping) => mmap_mut_bytes(*mapping),
        }
    }
}

impl Inner {
    /// The bytes.
    pub fn as_slice(&self) -> (slice: &[u8])
        ensures
            slice@ == self@,
    {
        match self {
            Inner::Vec(bytes) => bytes.as_slice(),
            Inner::Mmap(mapping) => mmap_mut_as_slice(mapping),
        }
    }

    /// The bytes, to be written in place.
    pub fn as_mut_slice(&mut self) -> (slice: &mut [u8])
        ensures
            slice@ == old(self)@,
            final(self)@ == final(slice)@,
            (*final(self) is Mmap) == (*old(self) is Mmap),
    {
        match self {
            Inner::Vec(bytes) => bytes.as_mut_slice(),
            Inner::Mmap(mapping) => mmap_mut_as_mut_slice(mapping),
        }
    }

    /// The number of bytes.
    pub fn len(&self) -> (len: usize)
        ensures
            len == self@.len(),
    {
        match self {
            Inner::Vec(bytes) => bytes.len(),
            Inner::Mmap(mapping) => mmap_mut_as_slice(mapping).len(),
        }
    }

    /// The bytes as an owned vector, moved where they are one already.
    pub fn into_vec(self) -> (bytes: Vec<u8>)
        ensures
            bytes@ == self@,
    {
        match self {
            Inner::Vec(bytes) => bytes,
            Inner::Mmap(mapping) => {
                let slice: &[u8] = mmap_mut_as_slice(&mapping);
                let copy = copy_range(slice, 0, slice.len());
                assert(copy@ =~= slice@);
                copy
            },
        }
    }
}

} // verus!
