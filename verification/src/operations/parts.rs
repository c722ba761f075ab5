//! The operations below files: copying bytes, applying logs, base data and errors.

use vstd::prelude::*;
use vstd::string::*;

use crate::backend::Backend;
use crate::buffer::Inner;
use crate::bytes::{copy_into, copy_range, overwrite};
use crate::error::Error;
use crate::pending::{apply_all, apply_pending, pending_byte, PendingWrite};

verus! {

use crate::error::decimal;
use crate::mapping::{mmap_bytes, mmap_mut_bytes};
use crate::pending::{
    lemma_composited_byte,
    lemma_composited_len,
    lemma_logged_last,
    lemma_logged_none,
    log_of,
    logged_byte,
};

/// Copying puts the bytes at their place and leaves the rest.
pub proof fn copy_into_puts_the_bytes(dst: &mut [u8], at: usize, src: &[u8], unit: (), i: int)
    requires
        call_ensures(copy_into, (dst, at, src), unit),
    ensures
        final(dst)@.len() == old(dst)@.len(),
        0 <= i < old(dst)@.len() ==> final(dst)@[i] == (if at <= i < at + src@.len() {
            src@[i - at]
        } else {
            old(dst)@[i]
        }),
{
}

/// Copying a range gives its bytes, and overwriting makes one slice the other.
pub proof fn copies_are_the_bytes(
    src: &[u8],
    start: usize,
    end: usize,
    copy: Vec<u8>,
    dst: &mut [u8],
    unit: (),
)
    requires
        start <= end <= src@.len(),
        call_ensures(copy_range, (src, start, end), copy),
        call_ensures(overwrite, (dst, src), unit),
    ensures
        copy@ == src@.subrange(start as int, end as int),
        final(dst)@ == src@,
{
}

/// Applying a log to a window of addresses gives each byte of the window that of the last write
/// that covers its address, and leaves those that none covers and all behind the window.
pub proof fn apply_pending_applies_the_log(
    buf: &mut [u8],
    offset: usize,
    length: usize,
    pending: &[PendingWrite],
    unit: (),
    i: int,
    last: int,
)
    requires
        length <= old(buf)@.len(),
        call_ensures(apply_pending, (buf, offset, length, pending), unit),
        0 <= i < old(buf)@.len(),
    ensures
        final(buf)@.len() == old(buf)@.len(),
        length <= i ==> final(buf)@[i] == old(buf)@[i],
        i < length && 0 <= last < pending@.len() && pending@[last].offset <= offset + i
            < pending@[last].offset + pending@[last].data@.len() && (forall|m: int|
            last < m < pending@.len() ==> !((#[trigger] pending@[m]).offset <= offset + i
                < pending@[m].offset + pending@[m].data@.len())) ==> final(buf)@[i]
            == pending@[last].data@[offset + i - pending@[last].offset],
        i < length && (forall|m: int|
            0 <= m < pending@.len() ==> !((#[trigger] pending@[m]).offset <= offset + i
                < pending@[m].offset + pending@[m].data@.len())) ==> final(buf)@[i] == old(
            buf,
        )@[i],
{
    let log = log_of(pending@);
    let window = old(buf)@.take(length as int);
    lemma_composited_len(window, offset as int, log);
    if i < length {
        lemma_composited_byte(window, offset as int, log, offset + i);
        log_holds_the_last_write(pending@, offset + i, last);
    }
}

/// Applying a log to a whole buffer, which starts at the first address.
pub proof fn apply_all_applies_the_log(
    buf: &mut [u8],
    pending: &[PendingWrite],
    unit: (),
    i: int,
    last: int,
)
    requires
        call_ensures(apply_all, (buf, pending), unit),
        0 <= i < old(buf)@.len(),
    ensures
        final(buf)@.len() == old(buf)@.len(),
        0 <= last < pending@.len() && pending@[last].offset <= i < pending@[last].offset
            + pending@[last].data@.len() && (forall|m: int|
            last < m < pending@.len() ==> !((#[trigger] pending@[m]).offset <= i
                < pending@[m].offset + pending@[m].data@.len())) ==> final(buf)@[i]
            == pending@[last].data@[i - pending@[last].offset],
        (forall|m: int|
            0 <= m < pending@.len() ==> !((#[trigger] pending@[m]).offset <= i
                < pending@[m].offset + pending@[m].data@.len())) ==> final(buf)@[i] == old(
            buf,
        )@[i],
{
    let log = log_of(pending@);
    lemma_composited_len(old(buf)@, 0, log);
    lemma_composited_byte(old(buf)@, 0, log, i);
    log_holds_the_last_write(pending@, i, last);
}

/// Looking up a byte of a log finds that of the last write that covers the address, and none where
/// no write covers it.
pub proof fn pending_byte_finds_the_last_write(
    pending: &[PendingWrite],
    addr: usize,
    byte: Option<u8>,
    last: int,
)
    requires
        call_ensures(pending_byte, (pending, addr), byte),
    ensures
        0 <= last < pending@.len() && pending@[last].offset <= addr < pending@[last].offset
            + pending@[last].data@.len() && (forall|m: int|
            last < m < pending@.len() ==> !((#[trigger] pending@[m]).offset <= addr
                < pending@[m].offset + pending@[m].data@.len())) ==> byte == Some(
            pending@[last].data@[addr - pending@[last].offset],
        ),
        (forall|m: int|
            0 <= m < pending@.len() ==> !((#[trigger] pending@[m]).offset <= addr
                < pending@[m].offset + pending@[m].data@.len())) ==> byte is None,
{
    log_holds_the_last_write(pending@, addr as int, last);
}

/// The byte that a log holds for an address is that of the last write that covers it.
proof fn log_holds_the_last_write(pending: Seq<PendingWrite>, addr: int, last: int)
    ensures
        0 <= last < pending.len() && pending[last].offset <= addr < pending[last].offset
            + pending[last].data@.len() && (forall|m: int|
            last < m < pending.len() ==> !((#[trigger] pending[m]).offset <= addr
                < pending[m].offset + pending[m].data@.len())) ==> logged_byte(
            log_of(pending),
            addr,
        ) == Some(pending[last].data@[addr - pending[last].offset]),
        (forall|m: int|
            0 <= m < pending.len() ==> !((#[trigger] pending[m]).offset <= addr
                < pending[m].offset + pending[m].data@.len())) ==> logged_byte(
            log_of(pending),
            addr,
        ) is None,
{
    let log = log_of(pending);
    assert forall|m: int| 0 <= m < log.len() implies (#[trigger] log[m]).offset
        == pending[m].offset && log[m].data == pending[m].data@ by {}
    if 0 <= last < pending.len() && pending[last].offset <= addr < pending[last].offset
        + pending[last].data@.len() && (forall|m: int|
        last < m < pending.len() ==> !((#[trigger] pending[m]).offset <= addr < pending[m].offset
            + pending[m].data@.len())) {
        assert forall|m: int| last < m < log.len() implies !((#[trigger] log[m]).offset <= addr
            < log[m].offset + log[m].data.len()) by {
            assert(log[m].offset == pending[m].offset);
        }
        lemma_logged_last(log, last, addr);
    }
    if forall|m: int|
        0 <= m < pending.len() ==> !((#[trigger] pending[m]).offset <= addr < pending[m].offset
            + pending[m].data@.len()) {
        assert forall|m: int| 0 <= m < log.len() implies !((#[trigger] log[m]).offset <= addr
            < log[m].offset + log[m].data.len()) by {
            assert(log[m].offset == pending[m].offset);
        }
        lemma_logged_none(log, addr);
    }
}

/// A backend holds the bytes of its vector or its mapping.
pub proof fn backend_holds_its_bytes(bytes: Vec<u8>, mapping: memmap2::Mmap)
    ensures
        Backend::Vec(bytes)@ == bytes@,
        Backend::Mmap(mapping)@ == mmap_bytes(mapping),
{
}

/// A slice of a backend is given exactly where it lies within the data, and is that part of it.
pub proof fn backend_gives_its_bytes(
    backend: &Backend,
    len: u64,
    whole: &[u8],
    offset: u64,
    length: u64,
    slice: Result<&[u8], Error>,
)
    requires
        call_ensures(Backend::len, (backend,), len),
        call_ensures(Backend::as_slice, (backend,), whole),
        call_ensures(Backend::slice, (backend, offset, length), slice),
    ensures
        whole@ == backend@,
        len == whole@.len(),
        slice is Ok <==> offset + length <= whole@.len(),
        slice matches Ok(part) ==> part@ == whole@.subrange(offset as int, offset + length),
        slice matches Err(error) ==> error == (Error::OutOfBounds {
            offset: offset as usize,
            length: length as usize,
            file_size: whole@.len() as usize,
        }),
{
}

/// A committed buffer holds the bytes of its vector or its mapping, and hands them out.
pub(crate) proof fn buffer_holds_its_bytes(
    bytes: Vec<u8>,
    mapping: memmap2::MmapMut,
    buffer: &Inner,
    slice: &[u8],
    len: usize,
    owned: Inner,
    vec: Vec<u8>,
)
    requires
        call_ensures(Inner::as_slice, (buffer,), slice),
        call_ensures(Inner::len, (buffer,), len),
        call_ensures(Inner::into_vec, (owned,), vec),
    ensures
        Inner::Vec(bytes)@ == bytes@,
        Inner::Mmap(mapping)@ == mmap_mut_bytes(mapping),
        slice@ == buffer@,
        len == buffer@.len(),
        vec@ == owned@,
{
}

/// A number in decimal: one digit, or the decimal of its tenth followed by its last digit.
pub proof fn decimal_goes_on(n: nat)
    ensures
        n < 10 ==> decimal(n) == seq![(48 + n) as char],
        n >= 10 ==> decimal(n) == decimal(n / 10).push((48 + n % 10) as char),
{
}

/// The message of an error: the access and the size in decimal, or the reason that it carries.
pub proof fn message_says_what_happened(error: &Error, text: String)
    requires
        call_ensures(Error::message, (error,), text),
    ensures
        error matches Error::OutOfBounds { offset, length, file_size } ==> text@ == "offset "@
            + decimal(offset as nat) + " with length "@ + decimal(length as nat)
            + " exceeds file size "@ + decimal(file_size as nat),
        error matches Error::LockPoisoned(reason) ==> text@ == reason@,
        error matches Error::Io(inner) ==> to_string_from_display_ensures::<std::io::Error>(
            &inner,
            text,
        ),
{
}

/// An I/O error passes through both conversions as it is.
pub proof fn io_errors_pass_through<F: FnOnce(Error) -> std::io::Error>(
    inner: std::io::Error,
    error: Error,
    wrap: F,
    result: std::io::Error,
)
    requires
        call_ensures(<Error as From<std::io::Error>>::from, (inner,), error),
        call_ensures(Error::into_io::<F>, (error, wrap), result),
    ensures
        error == Error::Io(inner),
        result == inner,
{
}

/// An error that is not an I/O error is handed to the wrapper, and becomes what that makes of it.
pub proof fn other_errors_are_wrapped<F: FnOnce(Error) -> std::io::Error>(
    error: Error,
    wrap: F,
    result: std::io::Error,
)
    requires
        call_ensures(Error::into_io::<F>, (error, wrap), result),
        !(error is Io),
    ensures
        call_ensures(wrap, (error,), result),
{
}

} // verus!
