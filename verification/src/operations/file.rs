//! The operations of a [`CowFile`].

use vstd::prelude::*;

use crate::cowfile::{CowFile, CowFileView, Fork};
use crate::cursor::CowFileCursor;
use crate::error::Error;
use crate::pending::PendingWrite;
use crate::traits::{ReadFrom, WriteTo};

verus! {

use crate::mapping::mmap_mut_bytes;
use crate::pending::{
    lemma_composited_byte,
    lemma_composited_len,
    lemma_logged_last,
    lemma_logged_none,
    LoggedWrite,
};

/// The bytes that a file shows: as many as are committed, each that of the last pending write that
/// covers its address, and the committed one where none does.
pub proof fn shown_bytes(file: CowFileView, addr: int, last: int)
    requires
        0 <= addr < file.committed.len(),
    ensures
        file.current().len() == file.committed.len(),
        0 <= last < file.log.len() && file.log[last].offset <= addr < file.log[last].offset
            + file.log[last].data.len() && (forall|m: int|
            last < m < file.log.len() ==> !((#[trigger] file.log[m]).offset <= addr
                < file.log[m].offset + file.log[m].data.len())) ==> file.current()[addr]
            == file.log[last].data[addr - file.log[last].offset],
        (forall|m: int|
            0 <= m < file.log.len() ==> !((#[trigger] file.log[m]).offset <= addr
                < file.log[m].offset + file.log[m].data.len())) ==> file.current()[addr]
            == file.committed[addr],
{
    lemma_composited_len(file.committed, 0, file.log);
    lemma_composited_byte(file.committed, 0, file.log, addr);
    if 0 <= last < file.log.len() && file.log[last].offset <= addr < file.log[last].offset
        + file.log[last].data.len() && (forall|m: int|
        last < m < file.log.len() ==> !((#[trigger] file.log[m]).offset <= addr
            < file.log[m].offset + file.log[m].data.len())) {
        lemma_logged_last(file.log, last, addr);
    }
    if forall|m: int|
        0 <= m < file.log.len() ==> !((#[trigger] file.log[m]).offset <= addr
            < file.log[m].offset + file.log[m].data.len()) {
        lemma_logged_none(file.log, addr);
    }
}

/// A file made of a vector holds exactly the bytes of the vector, with nothing pending.
pub proof fn from_vec_holds_the_bytes(data: Vec<u8>, file: CowFile)
    requires
        call_ensures(CowFile::from_vec, (data,), file),
    ensures
        file@.committed == data@,
        file@.opened == data@,
        file@.log.len() == 0,
        !file@.mapped,
        !file@.changed,
        file@.source is None,
        file@.current() == data@,
{
}

/// A file made of a memory map holds exactly the bytes of the map, with nothing pending, and
/// remembers the path.
pub proof fn from_mmap_holds_the_bytes(
    mapping: memmap2::MmapMut,
    path: Option<std::path::PathBuf>,
    file: CowFile,
)
    requires
        call_ensures(CowFile::from_mmap, (mapping, path), file),
    ensures
        file@.committed == mmap_mut_bytes(mapping),
        file@.opened == mmap_mut_bytes(mapping),
        file@.log.len() == 0,
        file@.mapped,
        !file@.changed,
        file@.source == path,
        file@.current() == mmap_mut_bytes(mapping),
{
}

/// Every file is to be mapped but the empty one.
pub proof fn maps_all_but_empty_files(size: u64, maps: bool)
    requires
        call_ensures(CowFile::maps_file_of, (size,), maps),
    ensures
        maps <==> size > 0,
{
}

/// What a file tells of itself: its committed bytes, their number, and whether writes are pending.
pub proof fn file_tells_what_it_holds(
    file: &CowFile,
    data: &[u8],
    len: usize,
    empty: bool,
    pending: bool,
    through: bool,
)
    requires
        call_ensures(CowFile::data, (file,), data),
        call_ensures(CowFile::len, (file,), len),
        call_ensures(CowFile::is_empty, (file,), empty),
        call_ensures(CowFile::has_pending, (file,), pending),
        call_ensures(CowFile::writes_through_mmap, (file,), through),
    ensures
        data@ == file@.committed,
        len == file@.committed.len(),
        len == data@.len(),
        empty <==> file@.committed.len() == 0,
        pending <==> file@.log.len() > 0,
        through <==> file@.committed.len() >= 64 * 1024 * 1024,
{
}

/// What a file tells of where it came from.
pub proof fn file_tells_where_it_came_from(
    file: &CowFile,
    path: Option<&std::path::PathBuf>,
    name: &'static str,
)
    requires
        call_ensures(CowFile::source_path, (file,), path),
        call_ensures(CowFile::backend_name, (file,), name),
    ensures
        path is Some <==> file@.source is Some,
        path is Some ==> file@.source == Some(*path->Some_0),
        file@.mapped ==> name@ == "Mmap"@,
        !file@.mapped ==> name@ == "Vec"@,
{
}

/// An access is refused exactly where it ends past the data, with an error that carries it.
pub proof fn bounds_are_those_of_the_data(
    file: &CowFile,
    offset: usize,
    length: usize,
    result: Result<(), Error>,
)
    requires
        call_ensures(CowFile::check_bounds, (file, offset, length), result),
    ensures
        result is Ok <==> offset + length <= file@.committed.len(),
        result matches Err(error) ==> error == (Error::OutOfBounds {
            offset,
            length,
            file_size: file@.committed.len() as usize,
        }),
{
}

/// A read succeeds exactly where it lies within the data. It gives as many bytes as it asks for:
/// at each address that of the last pending write that covers it, or the committed one.
pub proof fn read_gives_the_bytes(
    file: &CowFile,
    offset: usize,
    length: usize,
    result: Result<Vec<u8>, Error>,
    i: int,
    last: int,
)
    requires
        call_ensures(CowFile::read, (file, offset, length), result),
    ensures
        result is Ok <==> offset + length <= file@.committed.len(),
        result matches Err(error) ==> error == (Error::OutOfBounds {
            offset,
            length,
            file_size: file@.committed.len() as usize,
        }),
        result matches Ok(bytes) ==> bytes@.len() == length,
        result matches Ok(bytes) ==> 0 <= i < length ==> bytes@[i] == file@.current()[offset + i],
        result matches Ok(bytes) ==> 0 <= i < length && 0 <= last < file@.log.len()
            && file@.log[last].offset <= offset + i < file@.log[last].offset
            + file@.log[last].data.len() && (forall|m: int|
            last < m < file@.log.len() ==> !((#[trigger] file@.log[m]).offset <= offset + i
                < file@.log[m].offset + file@.log[m].data.len())) ==> bytes@[i]
            == file@.log[last].data[offset + i - file@.log[last].offset],
        result matches Ok(bytes) ==> 0 <= i < length && (forall|m: int|
            0 <= m < file@.log.len() ==> !((#[trigger] file@.log[m]).offset <= offset + i
                < file@.log[m].offset + file@.log[m].data.len())) ==> bytes@[i]
            == file@.committed[offset + i],
{
    lemma_composited_len(file@.committed, 0, file@.log);
    if result is Ok && 0 <= i < length {
        shown_bytes(file@, offset + i, last);
    }
}

/// Reading a byte succeeds exactly where it lies within the data, and gives what reading one byte
/// gives.
pub proof fn read_byte_gives_the_byte(
    file: &CowFile,
    offset: usize,
    result: Result<u8, Error>,
    read: Result<Vec<u8>, Error>,
)
    requires
        call_ensures(CowFile::read_byte, (file, offset), result),
        call_ensures(CowFile::read, (file, offset, 1usize), read),
    ensures
        result is Ok <==> offset < file@.committed.len(),
        result matches Ok(byte) ==> byte == file@.current()[offset as int] && read is Ok
            && read->Ok_0@ == seq![byte],
        result matches Err(error) ==> error == (Error::OutOfBounds {
            offset,
            length: 1,
            file_size: file@.committed.len() as usize,
        }),
{
    lemma_composited_len(file@.committed, 0, file@.log);
    if result is Ok {
        assert(read->Ok_0@ =~= seq![result->Ok_0]);
    }
}

/// Two reads of one file agree wherever they overlap.
pub proof fn reads_agree(
    file: &CowFile,
    one: usize,
    left: usize,
    first: Result<Vec<u8>, Error>,
    two: usize,
    right: usize,
    second: Result<Vec<u8>, Error>,
    addr: int,
)
    requires
        call_ensures(CowFile::read, (file, one, left), first),
        call_ensures(CowFile::read, (file, two, right), second),
        first is Ok,
        second is Ok,
        one <= addr < one + left,
        two <= addr < two + right,
    ensures
        first->Ok_0@[addr - one] == second->Ok_0@[addr - two],
{
    lemma_composited_len(file@.committed, 0, file@.log);
}

/// A write is taken exactly where it is empty or lies within the data. One that is taken and has
/// bytes goes to the end of the log as it is; any other leaves the log as it was. Nothing else of
/// the file changes.
pub proof fn write_goes_to_the_log(
    file: &mut CowFile,
    offset: usize,
    data: &[u8],
    result: Result<(), Error>,
)
    requires
        call_ensures(CowFile::write, (file, offset, data), result),
    ensures
        result is Ok <==> data@.len() == 0 || offset + data@.len() <= old(file)@.committed.len(),
        result matches Err(error) ==> error == (Error::OutOfBounds {
            offset,
            length: data@.len() as usize,
            file_size: old(file)@.committed.len() as usize,
        }),
        final(file)@.log == (if data@.len() > 0 && offset + data@.len()
            <= old(file)@.committed.len() {
            old(file)@.log.push(LoggedWrite { offset: offset as int, data: data@ })
        } else {
            old(file)@.log
        }),
        final(file)@.committed == old(file)@.committed,
        final(file)@.mapped == old(file)@.mapped,
        final(file)@.source == old(file)@.source,
        final(file)@.opened == old(file)@.opened,
        final(file)@.changed == old(file)@.changed,
{
}

/// What a read gives after a write that was taken: the bytes of the write at its addresses, and
/// what the read gave before at every other.
pub proof fn write_then_read(
    file: &mut CowFile,
    offset: usize,
    data: &[u8],
    wrote: Result<(), Error>,
    before: &CowFile,
    after: &CowFile,
    start: usize,
    length: usize,
    earlier: Result<Vec<u8>, Error>,
    later: Result<Vec<u8>, Error>,
    i: int,
)
    requires
        call_ensures(CowFile::write, (file, offset, data), wrote),
        wrote is Ok,
        *before == *old(file),
        *after == *final(file),
        call_ensures(CowFile::read, (before, start, length), earlier),
        call_ensures(CowFile::read, (after, start, length), later),
    ensures
        earlier is Ok <==> later is Ok,
        later is Ok && 0 <= i < length ==> later->Ok_0@[i] == (if offset <= start + i < offset
            + data@.len() {
            data@[start + i - offset]
        } else {
            earlier->Ok_0@[i]
        }),
{
    lemma_composited_len(before@.committed, 0, before@.log);
    lemma_composited_len(after@.committed, 0, after@.log);
    if data@.len() > 0 {
        assert(after@.log.drop_last() =~= before@.log);
    }
}

/// What a write would put at the end of the log, and when it would be refused.
pub proof fn prepared_write_is_the_write(
    file: &CowFile,
    offset: usize,
    data: &[u8],
    result: Result<Option<PendingWrite>, Error>,
)
    requires
        call_ensures(CowFile::prepare_write, (file, offset, data), result),
    ensures
        result is Ok <==> data@.len() == 0 || offset + data@.len() <= file@.committed.len(),
        result matches Ok(prepared) ==> (prepared is Some <==> data@.len() > 0),
        result matches Ok(Some(write)) ==> write.offset == offset && write.data@ == data@,
        result matches Err(error) ==> error == (Error::OutOfBounds {
            offset,
            length: data@.len() as usize,
            file_size: file@.committed.len() as usize,
        }),
{
}

/// Writing a byte is a write of that byte.
pub proof fn write_byte_goes_to_the_log(
    file: &mut CowFile,
    offset: usize,
    byte: u8,
    result: Result<(), Error>,
)
    requires
        call_ensures(CowFile::write_byte, (file, offset, byte), result),
    ensures
        result is Ok <==> offset < old(file)@.committed.len(),
        result matches Err(error) ==> error == (Error::OutOfBounds {
            offset,
            length: 1,
            file_size: old(file)@.committed.len() as usize,
        }),
        final(file)@.log == (if offset < old(file)@.committed.len() {
            old(file)@.log.push(LoggedWrite { offset: offset as int, data: seq![byte] })
        } else {
            old(file)@.log
        }),
        final(file)@.committed == old(file)@.committed,
        final(file)@.mapped == old(file)@.mapped,
        final(file)@.source == old(file)@.source,
        final(file)@.opened == old(file)@.opened,
        final(file)@.changed == old(file)@.changed,
{
}

/// A commit succeeds, keeps the length, makes each committed byte that of the last pending write
/// that covered it, keeps those that none covered, and empties the log. The file counts as changed
/// from its first commit of a pending write on.
pub proof fn commit_applies_the_log(
    file: &mut CowFile,
    result: Result<(), Error>,
    addr: int,
    last: int,
)
    requires
        call_ensures(CowFile::commit, (file,), result),
    ensures
        result is Ok,
        final(file)@.log.len() == 0,
        final(file)@.committed.len() == old(file)@.committed.len(),
        final(file)@.mapped == old(file)@.mapped,
        final(file)@.source == old(file)@.source,
        final(file)@.opened == old(file)@.opened,
        final(file)@.changed <==> old(file)@.changed || old(file)@.log.len() > 0,
        0 <= addr < old(file)@.committed.len() && 0 <= last < old(file)@.log.len()
            && old(file)@.log[last].offset <= addr < old(file)@.log[last].offset
            + old(file)@.log[last].data.len() && (forall|m: int|
            last < m < old(file)@.log.len() ==> !((#[trigger] old(file)@.log[m]).offset <= addr
                < old(file)@.log[m].offset + old(file)@.log[m].data.len()))
            ==> final(file)@.committed[addr] == old(file)@.log[last].data[addr - old(
            file,
        )@.log[last].offset],
        0 <= addr < old(file)@.committed.len() && (forall|m: int|
            0 <= m < old(file)@.log.len() ==> !((#[trigger] old(file)@.log[m]).offset <= addr
                < old(file)@.log[m].offset + old(file)@.log[m].data.len()))
            ==> final(file)@.committed[addr] == old(file)@.committed[addr],
{
    lemma_composited_len(old(file)@.committed, 0, old(file)@.log);
    if 0 <= addr < old(file)@.committed.len() {
        shown_bytes(old(file)@, addr, last);
    }
}

/// A read gives the same before and after a commit.
pub proof fn commit_then_read(
    file: &mut CowFile,
    committed: Result<(), Error>,
    before: &CowFile,
    after: &CowFile,
    start: usize,
    length: usize,
    earlier: Result<Vec<u8>, Error>,
    later: Result<Vec<u8>, Error>,
    data: &[u8],
)
    requires
        call_ensures(CowFile::commit, (file,), committed),
        *before == *old(file),
        *after == *final(file),
        call_ensures(CowFile::read, (before, start, length), earlier),
        call_ensures(CowFile::read, (after, start, length), later),
        call_ensures(CowFile::data, (after,), data),
    ensures
        earlier is Ok <==> later is Ok,
        later is Ok ==> later->Ok_0@ == earlier->Ok_0@,
        later is Ok ==> later->Ok_0@ == data@.subrange(start as int, start + length),
{
    lemma_composited_len(before@.committed, 0, before@.log);
}

/// Discarding succeeds, empties the log and changes nothing else; reads then see the committed
/// bytes.
pub proof fn discard_empties_the_log(file: &mut CowFile, result: Result<(), Error>)
    requires
        call_ensures(CowFile::discard, (file,), result),
    ensures
        result is Ok,
        final(file)@.log.len() == 0,
        final(file)@.committed == old(file)@.committed,
        final(file)@.current() == old(file)@.committed,
        final(file)@.mapped == old(file)@.mapped,
        final(file)@.source == old(file)@.source,
        final(file)@.opened == old(file)@.opened,
        final(file)@.changed == old(file)@.changed,
{
}

/// All outputs of a file are what reading all of it gives.
pub proof fn outputs_are_the_whole_read(
    file: &CowFile,
    owned: CowFile,
    output: &mut [u8],
    unit: (),
    length: usize,
    read: Result<Vec<u8>, Error>,
    vec: Result<Vec<u8>, Error>,
    into: Result<Vec<u8>, Error>,
)
    requires
        owned == *file,
        length == file@.committed.len(),
        call_ensures(CowFile::read, (file, 0usize, length), read),
        call_ensures(CowFile::to_vec, (file,), vec),
        call_ensures(CowFile::into_vec, (owned,), into),
        call_ensures(CowFile::render_into, (file, output), unit),
    ensures
        read is Ok,
        vec is Ok,
        into is Ok,
        vec->Ok_0@ == read->Ok_0@,
        into->Ok_0@ == read->Ok_0@,
        final(output)@ == read->Ok_0@,
        vec->Ok_0@.len() == file@.committed.len(),
{
    lemma_composited_len(file@.committed, 0, file@.log);
    assert(file@.current().subrange(0, length as int) =~= file@.current());
}

/// A fork holds the committed bytes and nothing pending. It is a copy made here where the file has
/// no path. Else the file is to be opened again, and its bytes at opening are the committed ones
/// unless they are to be carried over.
pub proof fn fork_holds_the_committed_bytes(file: &CowFile, fork: Fork<'_>)
    requires
        call_ensures(CowFile::fork, (file,), fork),
    ensures
        fork is Copy <==> file@.source is None,
        fork is ReopenAndCarry <==> file@.source is Some && file@.changed,
        fork is Reopen <==> file@.source is Some && !file@.changed,
        fork matches Fork::Copy(copy) ==> copy@.committed == file@.committed && copy@.log.len()
            == 0 && copy@.current() == file@.committed && copy@.opened == file@.committed
            && !copy@.changed && !copy@.mapped && copy@.source is None,
        fork matches Fork::Reopen(path) ==> file@.source == Some(*path) && file@.committed
            == file@.opened,
        fork matches Fork::ReopenAndCarry(path) ==> file@.source == Some(*path),
{
}

/// A copy holds the committed bytes in a vector, with nothing pending.
pub proof fn copied_holds_the_committed_bytes(file: &CowFile, copy: CowFile)
    requires
        call_ensures(CowFile::copied, (file,), copy),
    ensures
        copy@.committed == file@.committed,
        copy@.opened == file@.committed,
        copy@.log.len() == 0,
        copy@.current() == file@.committed,
        !copy@.mapped,
        !copy@.changed,
        copy@.source is None,
{
}

/// Carrying gives the other file the committed bytes, and nothing pending.
pub proof fn carry_gives_the_committed_bytes(
    file: &CowFile,
    fork: &mut CowFile,
    result: Result<(), Error>,
)
    requires
        call_ensures(CowFile::carry_into, (file, fork), result),
    ensures
        result is Ok,
        final(fork)@.committed == file@.committed,
        final(fork)@.log.len() == 0,
        final(fork)@.current() == file@.committed,
        final(fork)@.changed,
        final(fork)@.mapped == old(fork)@.mapped,
        final(fork)@.source == old(fork)@.source,
        final(fork)@.opened == old(fork)@.opened,
{
}

/// Reading and writing a value of a user-defined type is left to the type. Whatever it does, its
/// writes go behind what was logged before, and nothing else of the file changes.
pub proof fn typed_access_is_that_of_the_type<R: ReadFrom, W: WriteTo>(
    file: &CowFile,
    offset: usize,
    read: Result<R, Error>,
    target: &mut CowFile,
    value: &W,
    wrote: Result<(), Error>,
    i: int,
)
    requires
        call_ensures(CowFile::read_type::<R>, (file, offset), read),
        call_ensures(CowFile::write_type::<W>, (target, offset, value), wrote),
    ensures
        R::reads(file@, offset as int, read),
        value.writes(old(target)@, offset as int, final(target)@, wrote),
        final(target)@.committed == old(target)@.committed,
        final(target)@.mapped == old(target)@.mapped,
        final(target)@.source == old(target)@.source,
        final(target)@.opened == old(target)@.opened,
        final(target)@.changed == old(target)@.changed,
        final(target)@.log.len() >= old(target)@.log.len(),
        0 <= i < old(target)@.log.len() ==> final(target)@.log[i] == old(target)@.log[i],
{
}

/// A fresh cursor stands at the start.
pub proof fn cursor_starts_at_zero(file: &CowFile, cursor: CowFileCursor, position: usize)
    requires
        call_ensures(CowFile::cursor, (file,), cursor),
        call_ensures(CowFileCursor::position, (&cursor,), position),
    ensures
        cursor@ == 0,
        position == 0,
{
}

} // verus!
