//! Cursors: sequential access to a [`CowFile`].
//!
//! [`CowFileCursor`] maintains a byte position. Each operation is handed the file that the cursor
//! runs over, so that any number of cursors can run over one file.

use vstd::prelude::*;

use crate::bytes::copy_into;
use crate::cowfile::CowFile;
use crate::error::Error;
use crate::primitives::signed64;

verus! {

use crate::bytes::splice;
use crate::pending::lemma_composited_len;

/// A cursor over a [`CowFile`].
///
/// The cursor maintains an internal byte position that advances on each read or write. It may
/// stand past the end of the data.
///
/// Created via [`CowFile::cursor`].
pub struct CowFileCursor {
    position: usize,
}

impl View for CowFileCursor {
    type V = usize;

    closed spec fn view(&self) -> usize {
        self.position
    }
}

/// Where a seek counts from.
pub enum SeekFrom {
    /// From the start.
    Start(u64),
    /// From the end of the data.
    End(i64),
    /// From the position of the cursor.
    Current(i64),
}

/// Why a seek is refused.
#[derive(Debug)]
pub enum SeekError {
    /// The seek would lead to a negative position.
    NegativePosition,
}

impl SeekError {
    /// The message that describes the error.
    pub fn message(&self) -> (text: &'static str)
        ensures
            text@ == "seek to a negative position"@,
    {
        match self {
            SeekError::NegativePosition => "seek to a negative position",
        }
    }
}

/// A 64-bit number read as a signed one.
pub open spec fn as_signed(bits: int) -> int {
    if bits < 0x8000_0000_0000_0000 {
        bits
    } else {
        bits - 0x1_0000_0000_0000_0000
    }
}

/// The signed position that a seek leads to.
pub open spec fn seek_target(position: usize, len: nat, from: SeekFrom) -> int {
    match from {
        SeekFrom::Start(n) => as_signed(n as int),
        SeekFrom::End(n) => as_signed(len as int) + n,
        SeekFrom::Current(n) => as_signed(position as int) + n,
    }
}

/// The number of bytes that a read into `room` bytes gets.
pub open spec fn readable(position: usize, len: nat, room: nat) -> nat {
    if position >= len {
        0
    } else if room <= len - position {
        room
    } else {
        (len - position) as nat
    }
}

/// The buffer `buf` with the `count` bytes of `data` from `position` on at its front.
pub open spec fn filled(buf: Seq<u8>, data: Seq<u8>, position: usize, count: nat) -> Seq<u8> {
    if count == 0 {
        buf
    } else {
        splice(buf, 0, data.subrange(position as int, position + count))
    }
}

impl CowFileCursor {
    /// Creates a new cursor at position 0.
    pub fn new() -> (cursor: CowFileCursor)
        ensures
            cursor@ == 0,
    {
        CowFileCursor { position: 0 }
    }

    /// Returns the current byte position of the cursor.
    pub fn position(&self) -> (position: usize)
        ensures
            position == self@,
    {
        self.position
    }

    /// Sets the cursor position directly.
    pub fn set_position(&mut self, pos: usize)
        ensures
            final(self)@ == pos,
    {
        self.position = pos;
    }

    /// Reads as many bytes as `buf` has room for and as are left from the position on, puts them
    /// at the front of `buf` and advances the position past them. Returns their number, which is 0
    /// at the end of the data and past it. This never fails.
    pub fn read(&mut self, cowfile: &CowFile, buf: &mut [u8]) -> (result: Result<usize, Error>)
        ensures
            ({
                let count = readable(old(self)@, cowfile@.len(), old(buf)@.len());
                &&& result == Ok::<usize, Error>(count as usize)
                &&& final(self)@ == old(self)@ + count
                &&& final(buf)@ == filled(old(buf)@, cowfile@.current(), old(self)@, count)
            }),
    {
        let len: usize = cowfile.len();
        let room: usize = buf.len();
        let remaining: usize = if len > self.position {
            len - self.position
        } else {
            0
        };
        let to_read: usize = if room < remaining {
            room
        } else {
            remaining
        };
        proof {
            lemma_composited_len(cowfile@.committed, 0, cowfile@.log);
        }
        if to_read == 0 {
            return Ok(0);
        }
        match cowfile.read(self.position, to_read) {
            Ok(data) => {
                copy_into(buf, 0, data.as_slice());
                self.position = self.position + to_read;
                Ok(to_read)
            },
            Err(error) => Err(error),
        }
    }

    /// Writes all of `buf` at the position into the pending log and advances the position past
    /// it. Returns the number of bytes.
    ///
    /// # Errors
    ///
    /// Returns [`Error::OutOfBounds`] if the write extends beyond the data size.
    pub fn write(&mut self, cowfile: &mut CowFile, buf: &[u8]) -> (result: Result<usize, Error>)
        ensures
            final(cowfile)@ == old(cowfile)@.after_write(old(self)@ as int, buf@),
            if old(cowfile)@.accepts(old(self)@ as int, buf@) {
                &&& result == Ok::<usize, Error>(buf@.len() as usize)
                &&& final(self)@ == old(self)@ + buf@.len()
            } else {
                &&& result == Err::<usize, Error>(
                    old(cowfile)@.out_of_bounds(old(self)@, buf@.len() as usize),
                )
                &&& final(self)@ == old(self)@
            },
    {
        let count: usize = buf.len();
        if count == 0 {
            return Ok(0);
        }
        match cowfile.write(self.position, buf) {
            Ok(()) => {
                self.position = self.position + count;
                Ok(count)
            },
            Err(error) => Err(error),
        }
    }

    /// Does nothing: writes go to the pending log at once.
    pub fn flush(&mut self) -> (result: Result<(), Error>)
        ensures
            result is Ok,
            final(self)@ == old(self)@,
    {
        Ok(())
    }

    /// Whether a seek stays within the signed 64-bit numbers that positions are computed with.
    pub fn can_seek(&self, cowfile: &CowFile, pos: &SeekFrom) -> (can: bool)
        ensures
            can == (i64::MIN <= seek_target(self@, cowfile@.len(), *pos) <= i64::MAX),
    {
        match pos {
            SeekFrom::Start(_) => true,
            SeekFrom::End(n) => signed64(cowfile.len() as u64).checked_add(*n).is_some(),
            SeekFrom::Current(n) => signed64(self.position as u64).checked_add(*n).is_some(),
        }
    }

    /// Sets the position relative to the start, the end of the data or the position itself, and
    /// returns it. Positions are computed as signed 64-bit numbers; a position beyond the end is
    /// allowed.
    ///
    /// # Errors
    ///
    /// Returns [`SeekError::NegativePosition`] if the new position would be negative.
    pub fn seek(&mut self, cowfile: &CowFile, pos: SeekFrom) -> (result: Result<u64, SeekError>)
        requires
            i64::MIN <= seek_target(old(self)@, cowfile@.len(), pos) <= i64::MAX,
        ensures
            ({
                let target = seek_target(old(self)@, cowfile@.len(), pos);
                if target < 0 {
                    &&& result == Err::<u64, SeekError>(SeekError::NegativePosition)
                    &&& final(self)@ == old(self)@
                } else {
                    &&& final(self)@ == target as usize
                    &&& result == Ok::<u64, SeekError>(final(self)@ as u64)
                }
            }),
    {
        let new_pos: i64 = match pos {
            SeekFrom::Start(n) => signed64(n),
            SeekFrom::End(n) => signed64(cowfile.len() as u64) + n,
            SeekFrom::Current(n) => signed64(self.position as u64) + n,
        };
        if new_pos < 0 {
            return Err(SeekError::NegativePosition);
        }
        self.position = new_pos as usize;
        Ok(self.position as u64)
    }
}

} // verus!
