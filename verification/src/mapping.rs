//! Memory maps as byte buffers.
//!
//! A mapping is made outside this library. What it holds is taken to stay as it is but for
//! writes through it: whoever maps a file sees to it that nothing else modifies the file
//! while the mapping is alive.

use vstd::prelude::*;

verus! {

/// Declares `memmap2::Mmap`, a read-only mapping.
#[verifier::external_type_specification]
#[verifier::external_body]
pub struct ExMmap(memmap2::Mmap);

/// Declares `memmap2::MmapMut`, a writable mapping.
#[verifier::external_type_specification]
#[verifier::external_body]
pub struct ExMmapMut(memmap2::MmapMut);

/// The bytes that a read-only mapping holds.
pub uninterp spec fn mmap_bytes(mapping: memmap2::Mmap) -> Seq<u8>;

/// The bytes that a writable mapping holds.
pub uninterp spec fn mmap_mut_bytes(mapping: memmap2::MmapMut) -> Seq<u8>;

/// Calls `AsRef::as_ref` of `memmap2::Mmap`: the slice is the bytes of the mapping.
#[verifier::external_body]
pub(crate) fn mmap_as_slice(mapping: &memmap2::Mmap) -> (slice: &[u8])
    ensures
        slice@ == mmap_bytes(*mapping),
{
    mapping.as_ref()
}

/// Calls `AsRef::as_ref` of `memmap2::MmapMut`: the slice is the bytes of the mapping.
#[verifier::external_body]
pub(crate) fn mmap_mut_as_slice(mapping: &memmap2::MmapMut) -> (slice: &[u8])
    ensures
        slice@ == mmap_mut_bytes(*mapping),
{
    mapping.as_ref()
}

/// Calls `AsMut::as_mut` of `memmap2::MmapMut`: the slice is the bytes of the mapping, and what is
/// written to it the mapping holds afterwards.
#[verifier::external_body]
pub(crate) fn mmap_mut_as_mut_slice(mapping: &mut memmap2::MmapMut) -> (slice: &mut [u8])
    ensures
        slice@ == mmap_mut_bytes(*old(mapping)),
        mmap_mut_bytes(*final(mapping)) == final(slice)@,
{
    mapping.as_mut()
}

} // verus!
