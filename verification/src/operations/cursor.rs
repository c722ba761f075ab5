//! The operations of a [`CowFileCursor`].

use vstd::prelude::*;

use crate::cowfile::CowFile;
use crate::cursor::{CowFileCursor, SeekError, SeekFrom};
use crate::error::Error;

verus! {

use crate::pending::{lemma_composited_len, LoggedWrite};

/// A cursor starts at the start, stands where it was put, and flushing leaves it there.
pub proof fn cursor_stands_where_it_was_put(
    fresh: CowFileCursor,
    cursor: &mut CowFileCursor,
    pos: usize,
    unit: (),
    other: &mut CowFileCursor,
    flushed: Result<(), Error>,
    seen: &CowFileCursor,
    position: usize,
)
    requires
        call_ensures(CowFileCursor::new, (), fresh),
        call_ensures(CowFileCursor::set_position, (cursor, pos), unit),
        call_ensures(CowFileCursor::flush, (other,), flushed),
        call_ensures(CowFileCursor::position, (seen,), position),
    ensures
        fresh@ == 0,
        final(cursor)@ == pos,
        flushed is Ok,
        final(other)@ == old(other)@,
        position == seen@,
{
}

/// A read of a cursor gets as many bytes as are left from its position on, but no more than the
/// buffer has room for. Those bytes stand at the front of the buffer, the rest of the buffer is as
/// it was, and the position has moved past them.
pub proof fn cursor_read_fills_the_buffer(
    cursor: &mut CowFileCursor,
    file: &CowFile,
    buf: &mut [u8],
    result: Result<usize, Error>,
    i: int,
)
    requires
        call_ensures(CowFileCursor::read, (cursor, file, buf), result),
    ensures
        result is Ok,
        old(cursor)@ >= file@.committed.len() ==> result->Ok_0 == 0,
        old(cursor)@ < file@.committed.len() && file@.committed.len() - old(cursor)@ <= old(
            buf,
        )@.len() ==> result->Ok_0 == file@.committed.len() - old(cursor)@,
        old(cursor)@ < file@.committed.len() && old(buf)@.len() <= file@.committed.len() - old(
            cursor,
        )@ ==> result->Ok_0 == old(buf)@.len(),
        final(cursor)@ == old(cursor)@ + result->Ok_0,
        final(buf)@.len() == old(buf)@.len(),
        0 <= i < result->Ok_0 ==> final(buf)@[i] == file@.current()[old(cursor)@ + i],
        result->Ok_0 <= i < old(buf)@.len() ==> final(buf)@[i] == old(buf)@[i],
{
    lemma_composited_len(file@.committed, 0, file@.log);
}

/// A read of a cursor gets what a read of the file at its position gets.
pub proof fn cursor_reads_what_the_file_reads(
    cursor: &mut CowFileCursor,
    file: &CowFile,
    buf: &mut [u8],
    got: Result<usize, Error>,
    read: Result<Vec<u8>, Error>,
)
    requires
        call_ensures(CowFileCursor::read, (cursor, file, buf), got),
        got->Ok_0 > 0,
        call_ensures(CowFile::read, (file, old(cursor)@, got->Ok_0), read),
    ensures
        read is Ok,
        final(buf)@.subrange(0, got->Ok_0 as int) == read->Ok_0@,
{
    lemma_composited_len(file@.committed, 0, file@.log);
    assert(final(buf)@.subrange(0, got->Ok_0 as int) =~= read->Ok_0@);
}

/// A write of a cursor is a write to the file at its position. Where it is taken the position moves
/// past it, and else it stays.
pub proof fn cursor_write_goes_to_the_log(
    cursor: &mut CowFileCursor,
    file: &mut CowFile,
    buf: &[u8],
    result: Result<usize, Error>,
)
    requires
        call_ensures(CowFileCursor::write, (cursor, file, buf), result),
    ensures
        result is Ok <==> buf@.len() == 0 || old(cursor)@ + buf@.len() <= old(
            file,
        )@.committed.len(),
        result matches Ok(count) ==> count == buf@.len() && final(cursor)@ == old(cursor)@
            + buf@.len(),
        result matches Err(error) ==> final(cursor)@ == old(cursor)@ && error == (
        Error::OutOfBounds {
            offset: old(cursor)@,
            length: buf@.len() as usize,
            file_size: old(file)@.committed.len() as usize,
        }),
        final(file)@.log == (if buf@.len() > 0 && old(cursor)@ + buf@.len() <= old(
            file,
        )@.committed.len() {
            old(file)@.log.push(LoggedWrite { offset: old(cursor)@ as int, data: buf@ })
        } else {
            old(file)@.log
        }),
        final(file)@.committed == old(file)@.committed,
        final(file)@.mapped == old(file)@.mapped,
        final(file)@.source == old(file)@.source,
        final(file)@.opened == old(file)@.opened,
        final(file)@.changed == old(file)@.changed,
{
}

/// A seek from the start leads to the offset given, one from the end or from the position leads
/// there from those, and each is refused exactly where that is negative; the position then stays.
/// Offsets from two to the power of sixty-three on count as negative.
pub proof fn seek_leads_to_the_offset(
    cursor: &mut CowFileCursor,
    file: &CowFile,
    pos: SeekFrom,
    result: Result<u64, SeekError>,
)
    requires
        call_ensures(CowFileCursor::seek, (cursor, file, pos), result),
        old(cursor)@ <= i64::MAX,
        file@.committed.len() <= i64::MAX,
    ensures
        pos matches SeekFrom::Start(n) ==> (result is Ok <==> n <= i64::MAX),
        pos matches SeekFrom::End(n) ==> (result is Ok <==> file@.committed.len() + n >= 0),
        pos matches SeekFrom::Current(n) ==> (result is Ok <==> old(cursor)@ + n >= 0),
        result is Err ==> final(cursor)@ == old(cursor)@,
        result matches Ok(to) ==> to == final(cursor)@,
        pos matches SeekFrom::Start(n) ==> result is Ok && n <= usize::MAX ==> final(cursor)@ == n,
        pos matches SeekFrom::End(n) ==> result is Ok && file@.committed.len() + n <= usize::MAX
            ==> final(cursor)@ == file@.committed.len() + n,
        pos matches SeekFrom::Current(n) ==> result is Ok && old(cursor)@ + n <= usize::MAX
            ==> final(cursor)@ == old(cursor)@ + n,
{
}

/// Where a seek leads in general: positions are computed as signed 64-bit numbers, for which
/// unsigned ones from two to the power of sixty-three on count as negative.
pub proof fn seek_computes_with_signed_numbers(
    cursor: &mut CowFileCursor,
    file: &CowFile,
    pos: SeekFrom,
    result: Result<u64, SeekError>,
    origin: int,
    by: int,
)
    requires
        call_ensures(CowFileCursor::seek, (cursor, file, pos), result),
        pos matches SeekFrom::Start(n) ==> origin == n && by == 0,
        pos matches SeekFrom::End(n) ==> origin == file@.committed.len() && by == n,
        pos matches SeekFrom::Current(n) ==> origin == old(cursor)@ && by == n,
    ensures
        origin < 0x8000_0000_0000_0000 ==> (result is Ok <==> origin + by >= 0),
        origin >= 0x8000_0000_0000_0000 ==> (result is Ok <==> origin + by
            >= 0x1_0000_0000_0000_0000),
        result is Err ==> final(cursor)@ == old(cursor)@,
        result matches Ok(to) ==> to == final(cursor)@,
        result is Ok && origin < 0x8000_0000_0000_0000 && origin + by <= usize::MAX
            ==> final(cursor)@ == origin + by,
        result is Ok && origin >= 0x8000_0000_0000_0000 && origin + by - 0x1_0000_0000_0000_0000
            <= usize::MAX ==> final(cursor)@ == origin + by - 0x1_0000_0000_0000_0000,
{
}

/// A seek can be made exactly where the sum of the offset and where it counts from is a signed
/// 64-bit number.
pub proof fn can_seek_within_signed_numbers(
    cursor: &CowFileCursor,
    file: &CowFile,
    pos: SeekFrom,
    can: bool,
    origin: int,
    by: int,
)
    requires
        call_ensures(CowFileCursor::can_seek, (cursor, file, &pos), can),
        pos matches SeekFrom::Start(n) ==> origin == 0 && by == 0,
        pos matches SeekFrom::End(n) ==> origin == file@.committed.len() && by == n,
        pos matches SeekFrom::Current(n) ==> origin == cursor@ && by == n,
    ensures
        origin < 0x8000_0000_0000_0000 ==> (can <==> i64::MIN <= origin + by <= i64::MAX),
        origin >= 0x8000_0000_0000_0000 ==> (can <==> i64::MIN <= origin + by
            - 0x1_0000_0000_0000_0000 <= i64::MAX),
{
}

/// What is said of a refused seek.
pub proof fn seek_error_text(error: &SeekError, text: &'static str)
    requires
        call_ensures(SeekError::message, (error,), text),
    ensures
        text@ == "seek to a negative position"@,
{
}

} // verus!
