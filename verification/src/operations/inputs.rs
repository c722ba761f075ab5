//! The inputs that each operation takes.

use std::collections::BTreeMap;

use vstd::prelude::*;

use crate::backend::Backend;
use crate::bytes::{copy_into, copy_range, overwrite};
use crate::cowfile::CowFile;
use crate::cursor::{CowFileCursor, SeekFrom};
use crate::endian::{get_be, get_le, put_be, put_le};
use crate::error::Error;
use crate::layer::overlapping_keys;
use crate::overlay::Overlay;
use crate::pending::{apply_all, apply_pending, pending_byte, PendingWrite};
use crate::primitives::Primitive;

verus! {

use crate::layer::{entries, within};
use crate::merge::{is_merge_range, lemma_merge_range_within};
use crate::pending::log_of;
use crate::runs::lemma_runs_fit;

/// Files can be made of any bytes.
pub proof fn files_are_made_of_any_bytes(
    data: Vec<u8>,
    mapping: memmap2::MmapMut,
    path: Option<std::path::PathBuf>,
    size: u64,
)
    ensures
        call_requires(CowFile::from_vec, (data,)),
        call_requires(CowFile::from_mmap, (mapping, path)),
        call_requires(CowFile::maps_file_of, (size,)),
{
}

/// Files are read at any offset and length.
pub proof fn files_are_read_anywhere<T: Primitive>(
    file: &CowFile,
    owned: CowFile,
    offset: usize,
    length: usize,
    data: &[u8],
)
    ensures
        call_requires(CowFile::data, (file,)),
        call_requires(CowFile::len, (file,)),
        call_requires(CowFile::is_empty, (file,)),
        call_requires(CowFile::has_pending, (file,)),
        call_requires(CowFile::read, (file, offset, length)),
        call_requires(CowFile::read_byte, (file, offset)),
        call_requires(CowFile::check_bounds, (file, offset, length)),
        call_requires(CowFile::prepare_write, (file, offset, data)),
        call_requires(CowFile::read_le::<T>, (file, offset)),
        call_requires(CowFile::read_be::<T>, (file, offset)),
        call_requires(CowFile::cursor, (file,)),
        call_requires(CowFile::source_path, (file,)),
        call_requires(CowFile::fork, (file,)),
        call_requires(CowFile::copied, (file,)),
        call_requires(CowFile::to_vec, (file,)),
        call_requires(CowFile::into_vec, (owned,)),
        call_requires(CowFile::writes_through_mmap, (file,)),
        call_requires(CowFile::backend_name, (file,)),
{
}

/// Files take any write, commit and discard.
pub proof fn files_take_any_write<T: Primitive>(
    file: &mut CowFile,
    offset: usize,
    data: &[u8],
    byte: u8,
    value: T,
)
    ensures
        call_requires(CowFile::write, (file, offset, data)),
        call_requires(CowFile::write_byte, (file, offset, byte)),
        call_requires(CowFile::write_le::<T>, (file, offset, value)),
        call_requires(CowFile::write_be::<T>, (file, offset, value)),
        call_requires(CowFile::commit, (file,)),
        call_requires(CowFile::discard, (file,)),
{
}

/// A file is rendered into any buffer of its length, and carried into any file of its length.
pub proof fn files_are_rendered_and_carried(
    file: &CowFile,
    output: &mut [u8],
    fork: &mut CowFile,
)
    ensures
        old(output)@.len() == file@.committed.len() ==> call_requires(
            CowFile::render_into,
            (file, output),
        ),
        old(fork)@.committed.len() == file@.committed.len() ==> call_requires(
            CowFile::carry_into,
            (file, fork),
        ),
{
}

/// Cursors read, write and are put anywhere.
pub proof fn cursors_go_anywhere(
    cursor: &mut CowFileCursor,
    file: &CowFile,
    target: &mut CowFile,
    buf: &mut [u8],
    data: &[u8],
    pos: usize,
    from: SeekFrom,
    seen: &CowFileCursor,
)
    ensures
        call_requires(CowFileCursor::new, ()),
        call_requires(CowFileCursor::position, (seen,)),
        call_requires(CowFileCursor::set_position, (cursor, pos)),
        call_requires(CowFileCursor::read, (cursor, file, buf)),
        call_requires(CowFileCursor::write, (cursor, target, data)),
        call_requires(CowFileCursor::flush, (cursor,)),
        call_requires(CowFileCursor::can_seek, (seen, file, &from)),
{
}

/// A seek can be asked for wherever the sum of the offset and where it counts from is a signed
/// 64-bit number.
pub proof fn seeks_stay_within_signed_numbers(
    cursor: &mut CowFileCursor,
    file: &CowFile,
    start: u64,
    by: i64,
)
    ensures
        call_requires(CowFileCursor::seek, (cursor, file, SeekFrom::Start(start))),
        file@.committed.len() <= i64::MAX && file@.committed.len() + by <= i64::MAX
            ==> call_requires(CowFileCursor::seek, (cursor, file, SeekFrom::End(by))),
        old(cursor)@ <= i64::MAX && old(cursor)@ + by <= i64::MAX ==> call_requires(
            CowFileCursor::seek,
            (cursor, file, SeekFrom::Current(by)),
        ),
{
}

/// Base data is read at any offset and length, and any error has a message.
pub proof fn base_data_is_read_anywhere(
    backend: &Backend,
    offset: u64,
    length: u64,
    error: &Error,
)
    ensures
        call_requires(Backend::len, (backend,)),
        call_requires(Backend::as_slice, (backend,)),
        call_requires(Backend::slice, (backend, offset, length)),
        call_requires(Error::message, (error,)),
{
}

/// An overlay takes any write that is empty or ends at an address of the machine, is read anywhere
/// within the base, and is materialized over any base that its entries lie within.
pub proof fn overlays_take_any_write_within_the_machine(
    overlay: &mut Overlay,
    offset: u64,
    data: &[u8],
    seen: &Overlay,
    length: u64,
    base: &[u8],
)
    ensures
        call_requires(Overlay::new, ()),
        call_requires(Overlay::commit, (overlay,)),
        call_requires(Overlay::has_pending, (seen,)),
        call_requires(Overlay::has_modifications, (seen,)),
        call_requires(Overlay::pending_count, (seen,)),
        call_requires(Overlay::committed_count, (seen,)),
        call_requires(Overlay::pending_entries, (seen,)),
        call_requires(Overlay::committed_entries, (seen,)),
        data@.len() == 0 || offset + data@.len() <= usize::MAX ==> call_requires(
            Overlay::write,
            (overlay, offset, data),
        ),
        offset + length <= base@.len() ==> call_requires(
            Overlay::read,
            (seen, offset, length, base),
        ),
        (forall|k: u64| #[trigger]
            seen@.pending.contains_key(k) ==> k + seen@.pending[k].len() <= base@.len()) && (
        forall|k: u64| #[trigger]
            seen@.committed.contains_key(k) ==> k + seen@.committed[k].len() <= base@.len())
            ==> call_requires(Overlay::materialize, (seen, base)),
{
}

/// A layer whose entries end at addresses of the machine is applied, searched, merged into and
/// consolidated.
pub proof fn layers_within_the_machine_are_taken(
    layer: &BTreeMap<u64, Vec<u8>>,
    target: &mut BTreeMap<u64, Vec<u8>>,
    offset: u64,
    end: u64,
    data: &[u8],
    buf: &mut [u8],
)
    requires
        forall|k: u64| #[trigger] layer@.contains_key(k) ==> k + layer@[k]@.len() <= usize::MAX,
        forall|k: u64| #[trigger]
            old(target)@.contains_key(k) ==> k + old(target)@[k]@.len() <= usize::MAX,
        offset + data@.len() <= usize::MAX,
        offset + old(buf)@.len() <= u64::MAX,
    ensures
        call_requires(Overlay::apply_layer, (layer, offset, buf)),
        call_requires(overlapping_keys, (layer, offset, end)),
        call_requires(Overlay::merge_into_committed, (target, offset, data)),
        call_requires(Overlay::consolidate, (target,)),
{
    let all = entries(old(target)@);
    assert(within(all, usize::MAX as int)) by {
        assert forall|k: u64| #[trigger] all.contains_key(k) implies k + all[k].len()
            <= usize::MAX by {
            assert(old(target)@.contains_key(k));
        }
    }
    assert forall|k: u64| #[trigger] entries(layer@).contains_key(k) implies k
        + entries(layer@)[k].len() <= usize::MAX by {
        assert(layer@.contains_key(k));
    }
    lemma_runs_fit(all);
    assert forall|lo: u64, hi: int| #[trigger]
        is_merge_range(all, offset as int, offset + data@.len(), lo, hi) implies hi - lo
        <= usize::MAX by {
        lemma_merge_range_within(
            all,
            offset as int,
            offset + data@.len(),
            lo,
            hi,
            usize::MAX as int,
        );
    }
}

/// A log whose writes have bytes and end within a buffer is applied to it, or to any window of it.
pub proof fn logs_within_the_buffer_are_applied(
    buf: &mut [u8],
    window: &mut [u8],
    offset: usize,
    length: usize,
    pending: &[PendingWrite],
    addr: usize,
)
    requires
        forall|m: int|
            0 <= m < pending@.len() ==> (#[trigger] pending@[m]).data@.len() > 0
                && pending@[m].offset + pending@[m].data@.len() <= old(buf)@.len(),
        old(buf)@.len() <= usize::MAX,
        length <= old(window)@.len(),
        offset + length <= usize::MAX,
    ensures
        call_requires(apply_all, (buf, pending)),
        call_requires(apply_pending, (window, offset, length, pending)),
        call_requires(pending_byte, (pending, addr)),
{
    let log = log_of(pending@);
    assert forall|m: int| 0 <= m < log.len() implies 0 <= (#[trigger] log[m]).offset
        < log[m].end() <= old(buf)@.len() by {
        assert(pending@[m].data@.len() > 0);
    }
    assert forall|m: int| 0 <= m < pending@.len() implies (#[trigger] pending@[m])@.end()
        <= usize::MAX by {}
}

/// Bytes are copied wherever they fit.
pub proof fn bytes_are_copied_where_they_fit(
    dst: &mut [u8],
    at: usize,
    src: &[u8],
    start: usize,
    end: usize,
)
    ensures
        at + src@.len() <= old(dst)@.len() ==> call_requires(copy_into, (dst, at, src)),
        start <= end <= src@.len() ==> call_requires(copy_range, (src, start, end)),
        old(dst)@.len() == src@.len() ==> call_requires(overwrite, (dst, src)),
{
}

/// Numbers of up to eight bytes are got and put wherever there are as many.
pub proof fn numbers_are_got_and_put_where_they_fit(
    bytes: &[u8],
    buf: &mut [u8],
    size: usize,
    value: u64,
)
    requires
        size <= 8,
    ensures
        size <= bytes@.len() ==> call_requires(get_le, (bytes, size)),
        size <= bytes@.len() ==> call_requires(get_be, (bytes, size)),
        size <= old(buf)@.len() ==> call_requires(put_le, (value, buf, size)),
        size <= old(buf)@.len() ==> call_requires(put_be, (value, buf, size)),
{
}

/// A `u8` is decoded from and encoded into any slice of at least 1 bytes.
pub proof fn u8_goes_where_it_fits(bytes: &[u8], buf: &mut [u8], value: u8)
    requires
        bytes@.len() >= 1,
        old(buf)@.len() >= 1,
    ensures
        call_requires(<u8 as Primitive>::from_le_bytes, (bytes,)),
        call_requires(<u8 as Primitive>::from_be_bytes, (bytes,)),
        call_requires(<u8 as Primitive>::write_le_bytes, (value, buf)),
        call_requires(<u8 as Primitive>::write_be_bytes, (value, buf)),
{
}

/// A `i8` is decoded from and encoded into any slice of at least 1 bytes.
pub proof fn i8_goes_where_it_fits(bytes: &[u8], buf: &mut [u8], value: i8)
    requires
        bytes@.len() >= 1,
        old(buf)@.len() >= 1,
    ensures
        call_requires(<i8 as Primitive>::from_le_bytes, (bytes,)),
        call_requires(<i8 as Primitive>::from_be_bytes, (bytes,)),
        call_requires(<i8 as Primitive>::write_le_bytes, (value, buf)),
        call_requires(<i8 as Primitive>::write_be_bytes, (value, buf)),
{
}

/// A `u16` is decoded from and encoded into any slice of at least 2 bytes.
pub proof fn u16_goes_where_it_fits(bytes: &[u8], buf: &mut [u8], value: u16)
    requires
        bytes@.len() >= 2,
        old(buf)@.len() >= 2,
    ensures
        call_requires(<u16 as Primitive>::from_le_bytes, (bytes,)),
        call_requires(<u16 as Primitive>::from_be_bytes, (bytes,)),
        call_requires(<u16 as Primitive>::write_le_bytes, (value, buf)),
        call_requires(<u16 as Primitive>::write_be_bytes, (value, buf)),
{
}

/// A `i16` is decoded from and encoded into any slice of at least 2 bytes.
pub proof fn i16_goes_where_it_fits(bytes: &[u8], buf: &mut [u8], value: i16)
    requires
        bytes@.len() >= 2,
        old(buf)@.len() >= 2,
    ensures
        call_requires(<i16 as Primitive>::from_le_bytes, (bytes,)),
        call_requires(<i16 as Primitive>::from_be_bytes, (bytes,)),
        call_requires(<i16 as Primitive>::write_le_bytes, (value, buf)),
        call_requires(<i16 as Primitive>::write_be_bytes, (value, buf)),
{
}

/// A `u32` is decoded from and encoded into any slice of at least 4 bytes.
pub proof fn u32_goes_where_it_fits(bytes: &[u8], buf: &mut [u8], value: u32)
    requires
        bytes@.len() >= 4,
        old(buf)@.len() >= 4,
    ensures
        call_requires(<u32 as Primitive>::from_le_bytes, (bytes,)),
        call_requires(<u32 as Primitive>::from_be_bytes, (bytes,)),
        call_requires(<u32 as Primitive>::write_le_bytes, (value, buf)),
        call_requires(<u32 as Primitive>::write_be_bytes, (value, buf)),
{
}

/// A `i32` is decoded from and encoded into any slice of at least 4 bytes.
pub proof fn i32_goes_where_it_fits(bytes: &[u8], buf: &mut [u8], value: i32)
    requires
        bytes@.len() >= 4,
        old(buf)@.len() >= 4,
    ensures
        call_requires(<i32 as Primitive>::from_le_bytes, (bytes,)),
        call_requires(<i32 as Primitive>::from_be_bytes, (bytes,)),
        call_requires(<i32 as Primitive>::write_le_bytes, (value, buf)),
        call_requires(<i32 as Primitive>::write_be_bytes, (value, buf)),
{
}

/// A `u64` is decoded from and encoded into any slice of at least 8 bytes.
pub proof fn u64_goes_where_it_fits(bytes: &[u8], buf: &mut [u8], value: u64)
    requires
        bytes@.len() >= 8,
        old(buf)@.len() >= 8,
    ensures
        call_requires(<u64 as Primitive>::from_le_bytes, (bytes,)),
        call_requires(<u64 as Primitive>::from_be_bytes, (bytes,)),
        call_requires(<u64 as Primitive>::write_le_bytes, (value, buf)),
        call_requires(<u64 as Primitive>::write_be_bytes, (value, buf)),
{
}

/// A `i64` is decoded from and encoded into any slice of at least 8 bytes.
pub proof fn i64_goes_where_it_fits(bytes: &[u8], buf: &mut [u8], value: i64)
    requires
        bytes@.len() >= 8,
        old(buf)@.len() >= 8,
    ensures
        call_requires(<i64 as Primitive>::from_le_bytes, (bytes,)),
        call_requires(<i64 as Primitive>::from_be_bytes, (bytes,)),
        call_requires(<i64 as Primitive>::write_le_bytes, (value, buf)),
        call_requires(<i64 as Primitive>::write_be_bytes, (value, buf)),
{
}

} // verus!
