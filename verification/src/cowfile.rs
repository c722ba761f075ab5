//! The main [`CowFile`] type with a committed buffer and a pending write log.
//!
//! `CowFile` wraps binary data (from a `Vec<u8>` or a copy-on-write memory map) with a pending log
//! that tracks writes. The committed buffer is accessible as `&[u8]` via
//! [`data`](CowFile::data), while [`read`](CowFile::read) and typed accessors composite pending
//! writes over the committed state.
//!
//! A `CowFile` has one owner at a time: writes take `&mut self`. Whoever shares one between
//! threads keeps the log of the sharers behind a lock and goes through
//! [`prepare_write`](CowFile::prepare_write) and the functions of [`pending`](crate::pending).

use vstd::prelude::*;

use crate::buffer::Inner;
use crate::bytes::{copy_into, copy_range, overwrite};
use crate::cursor::CowFileCursor;
use crate::error::Error;
use crate::pending::{apply_all, apply_pending, pending_byte, PendingWrite};
use crate::primitives::Primitive;
use crate::traits::{ReadFrom, WriteTo};

verus! {

use crate::bytes::splice;
use crate::endian::{be_bytes, be_value, le_bytes, le_value, lemma_bytes_len};
use crate::mapping::mmap_mut_bytes;
use crate::pending::{composited, log_of, log_within, LoggedWrite};
use crate::pending::{
    lemma_composited_byte,
    lemma_composited_len,
    lemma_composited_subrange,
};

/// Declares `std::path::PathBuf`, which the library carries without looking inside.
#[verifier::external_type_specification]
#[verifier::external_body]
pub struct ExPathBuf(std::path::PathBuf);

/// The size from which [`CowFile`] output goes through a writable memory map instead of buffered
/// I/O: 64 MiB.
pub const MMAP_WRITE_THRESHOLD: usize = 67_108_864;

/// A copy-on-write file abstraction backed by memory or a file.
///
/// Writes accumulate in a pending log and are applied to the committed buffer on
/// [`commit`](CowFile::commit). The committed buffer is accessible as `&[u8]` via
/// [`data`](CowFile::data), while [`read`](CowFile::read) and typed I/O methods composite pending
/// writes over the committed state.
///
/// ```text
///  Committed Buffer               Pending Log
/// +---------------------+      +-------------------------+
/// | Vec<u8> or MmapMut  | <--- | Vec<PendingWrite>       |
/// | (OS-level CoW)      |      | (applied on commit)     |
/// +---------------------+      +-------------------------+
/// ```
pub struct CowFile {
    // Committed buffer, only changed by `commit` and, in a fork, by `carry_into`.
    buffer: Inner,
    // Pending writes, in order.
    pending: Vec<PendingWrite>,
    // Path of the opened file, for mapped files only.
    source_path: Option<std::path::PathBuf>,
    // Whether the committed buffer was written to since the file was made.
    changed: bool,
    // What the committed buffer held when the file was made.
    opened: Ghost<Seq<u8>>,
}

/// What a [`CowFile`] holds.
#[verifier::ext_equal]
pub struct CowFileView {
    /// The committed bytes.
    pub committed: Seq<u8>,
    /// The pending writes, in the order in which they were made.
    pub log: Seq<LoggedWrite>,
    /// Whether the committed bytes sit in a memory map.
    pub mapped: bool,
    /// The path by which the mapped file was opened, where it was opened by one.
    pub source: Option<std::path::PathBuf>,
    /// The bytes at the time the file was made, which are those of the opened file on disk.
    pub opened: Seq<u8>,
    /// Whether the committed bytes were written to since.
    pub changed: bool,
}

impl CowFileView {
    /// The number of bytes.
    pub open spec fn len(self) -> nat {
        self.committed.len()
    }

    /// The bytes with the pending writes applied in order.
    pub open spec fn current(self) -> Seq<u8> {
        composited(self.committed, 0, self.log)
    }

    /// A file that was just made of these bytes.
    pub open spec fn fresh(
        bytes: Seq<u8>,
        mapped: bool,
        source: Option<std::path::PathBuf>,
    ) -> CowFileView {
        CowFileView {
            committed: bytes,
            log: Seq::empty(),
            mapped,
            source,
            opened: bytes,
            changed: false,
        }
    }

    /// Every pending write has bytes and lies within the data, only a mapped file has a path, the
    /// length is that at the start, and so are the committed bytes until they are written to.
    pub open spec fn well_formed(self) -> bool {
        &&& log_within(self.log, self.committed.len() as int)
        &&& self.source is Some ==> self.mapped
        &&& self.committed.len() == self.opened.len()
        &&& !self.changed ==> self.committed == self.opened
    }

    /// Whether an access lies within the data.
    pub open spec fn in_bounds(self, offset: int, length: int) -> bool {
        offset + length <= self.len()
    }

    /// The error for an access that does not.
    pub open spec fn out_of_bounds(self, offset: usize, length: usize) -> Error {
        Error::OutOfBounds { offset, length, file_size: self.len() as usize }
    }

    /// Whether a write is taken: an empty one always is.
    pub open spec fn accepts(self, offset: int, data: Seq<u8>) -> bool {
        data.len() == 0 || self.in_bounds(offset, data.len() as int)
    }

    /// The file after a write: logged at the end if it is taken and has bytes, else unchanged.
    pub open spec fn after_write(self, offset: int, data: Seq<u8>) -> CowFileView {
        if data.len() > 0 && self.in_bounds(offset, data.len() as int) {
            CowFileView { log: self.log.push(LoggedWrite { offset, data }), ..self }
        } else {
            self
        }
    }

    /// The file after a commit: the log is applied to the committed bytes, and empty.
    pub open spec fn after_commit(self) -> CowFileView {
        CowFileView {
            committed: self.current(),
            log: Seq::empty(),
            changed: self.changed || self.log.len() > 0,
            ..self
        }
    }

    /// The file after its pending writes were discarded.
    pub open spec fn after_discard(self) -> CowFileView {
        CowFileView { log: Seq::empty(), ..self }
    }

    /// The file after it took over these committed bytes.
    pub open spec fn after_carry(self, committed: Seq<u8>) -> CowFileView {
        CowFileView { committed, log: Seq::empty(), changed: true, ..self }
    }

    /// Whether `after` is this file with more writes in its log, if any, and else the same.
    pub open spec fn extended_by(self, after: CowFileView) -> bool {
        &&& after == (CowFileView { log: after.log, ..self })
        &&& self.log.is_prefix_of(after.log)
    }
}

impl View for CowFile {
    type V = CowFileView;

    closed spec fn view(&self) -> CowFileView {
        CowFileView {
            committed: self.buffer@,
            log: log_of(self.pending@),
            mapped: self.buffer is Mmap,
            source: self.source_path,
            opened: self.opened@,
            changed: self.changed,
        }
    }
}

/// How an independent copy of a file is to be had.
pub enum Fork<'a> {
    /// By opening the file at this path again: it holds the committed bytes.
    Reopen(&'a std::path::PathBuf),
    /// By opening the file at this path again and carrying the committed bytes, which commits have
    /// changed, over to it with [`carry_into`](CowFile::carry_into).
    ReopenAndCarry(&'a std::path::PathBuf),
    /// It is here.
    Copy(CowFile),
}

impl CowFile {
    #[verifier::type_invariant]
    spec fn well_formed(&self) -> bool {
        self@.well_formed()
    }

    /// No pending write ends at an address past those of the machine.
    proof fn lemma_ends_bounded(&self)
        requires
            self@.well_formed(),
            self@.len() <= usize::MAX,
        ensures
            forall|i: int|
                0 <= i < self.pending@.len() ==> (#[trigger] self.pending@[i])@.end()
                    <= usize::MAX,
    {
        assert forall|i: int| 0 <= i < self.pending@.len() implies (
        #[trigger] self.pending@[i])@.end() <= usize::MAX by {
            assert(self@.log[i] == self.pending@[i]@);
        }
    }

    /// Creates a `CowFile` from an owned byte vector.
    ///
    /// The provided bytes become the committed buffer. They are moved, not copied.
    pub fn from_vec(data: Vec<u8>) -> (file: CowFile)
        ensures
            file@ == CowFileView::fresh(data@, false, None),
    {
        let ghost bytes = data@;
        let file = CowFile {
            buffer: Inner::Vec(data),
            pending: Vec::new(),
            source_path: None,
            changed: false,
            opened: Ghost(bytes),
        };
        assert(file@.log =~= Seq::<LoggedWrite>::empty());
        file
    }

    /// Creates a `CowFile` from a copy-on-write memory map.
    ///
    /// `source_path` is the path by which the mapped file was opened, or `None` where the caller
    /// was handed an open file.
    pub fn from_mmap(mapping: memmap2::MmapMut, source_path: Option<std::path::PathBuf>) -> (file:
        CowFile)
        ensures
            file@ == CowFileView::fresh(mmap_mut_bytes(mapping), true, source_path),
    {
        let ghost bytes = mmap_mut_bytes(mapping);
        let file = CowFile {
            buffer: Inner::Mmap(mapping),
            pending: Vec::new(),
            source_path,
            changed: false,
            opened: Ghost(bytes),
        };
        assert(file@.log =~= Seq::<LoggedWrite>::empty());
        file
    }

    /// Whether a file of `size` bytes is to be mapped.
    ///
    /// An empty file is held as an empty vector instead, since memory-mapping an empty file is not
    /// supported on all platforms.
    pub fn maps_file_of(size: u64) -> (maps: bool)
        ensures
            maps == (size != 0),
    {
        size != 0
    }

    /// Returns the committed buffer as a byte slice.
    ///
    /// Pending writes are **not** visible through this method. Use [`read`](CowFile::read) for a
    /// view that composites pending writes, or call [`commit`](CowFile::commit) first.
    pub fn data(&self) -> (data: &[u8])
        ensures
            data@ == self@.committed,
    {
        self.buffer.as_slice()
    }

    /// Returns the total length of the data in bytes.
    pub fn len(&self) -> (len: usize)
        ensures
            len == self@.len(),
    {
        self.buffer.len()
    }

    /// Returns `true` if the data is empty (zero bytes).
    pub fn is_empty(&self) -> (empty: bool)
        ensures
            empty == (self@.len() == 0),
    {
        self.buffer.len() == 0
    }

    /// Returns `true` if there are uncommitted pending writes.
    pub fn has_pending(&self) -> (pending: bool)
        ensures
            pending == (self@.log.len() > 0),
    {
        self.pending.len() > 0
    }

    /// Reads `length` bytes starting at `offset`, compositing pending writes.
    ///
    /// # Errors
    ///
    /// Returns [`Error::OutOfBounds`] if the requested range exceeds the data size.
    pub fn read(&self, offset: usize, length: usize) -> (result: Result<Vec<u8>, Error>)
        ensures
            result is Ok == self@.in_bounds(offset as int, length as int),
            match result {
                Ok(bytes) => bytes@ == self@.current().subrange(offset as int, offset + length),
                Err(error) => error == self@.out_of_bounds(offset, length),
            },
    {
        proof {
            use_type_invariant(&*self);
            lemma_composited_len(self@.committed, 0, self@.log);
        }
        match self.check_bounds(offset, length) {
            Ok(()) => {},
            Err(error) => {
                return Err(error);
            },
        }
        if length == 0 {
            let empty: Vec<u8> = Vec::new();
            assert(empty@ =~= self@.current().subrange(offset as int, offset + length));
            return Ok(empty);
        }
        let data: &[u8] = self.buffer.as_slice();
        let mut bytes = copy_range(data, offset, offset + length);
        proof {
            lemma_composited_subrange(
                self@.committed,
                0,
                self@.log,
                offset as int,
                offset + length,
            );
        }
        if self.has_pending() {
            let ghost window = bytes@;
            proof {
                assert(data.len() <= usize::MAX);
                self.lemma_ends_bounded();
            }
            apply_pending(bytes.as_mut_slice(), offset, length, self.pending.as_slice());
            assert(window.take(length as int) =~= window);
            assert(window.skip(length as int) =~= Seq::<u8>::empty());
            assert(bytes@ =~= composited(window, offset as int, self@.log));
        }
        Ok(bytes)
    }

    /// Reads a single byte at the given offset, compositing pending writes.
    ///
    /// # Errors
    ///
    /// Returns [`Error::OutOfBounds`] if the offset is beyond the data size.
    pub fn read_byte(&self, offset: usize) -> (result: Result<u8, Error>)
        ensures
            result is Ok == self@.in_bounds(offset as int, 1),
            match result {
                Ok(byte) => byte == self@.current()[offset as int],
                Err(error) => error == self@.out_of_bounds(offset, 1),
            },
    {
        proof {
            use_type_invariant(&*self);
        }
        match self.check_bounds(offset, 1) {
            Ok(()) => {},
            Err(error) => {
                return Err(error);
            },
        }
        let data: &[u8] = self.buffer.as_slice();
        proof {
            assert(data.len() <= usize::MAX);
            self.lemma_ends_bounded();
            lemma_composited_byte(self@.committed, 0, self@.log, offset as int);
        }
        match pending_byte(self.pending.as_slice(), offset) {
            Some(byte) => Ok(byte),
            None => Ok(data[offset]),
        }
    }

    /// Writes `data` at the given `offset` into the pending log.
    ///
    /// The committed buffer is not modified. Empty writes (zero-length data) are silently
    /// ignored.
    ///
    /// # Errors
    ///
    /// Returns [`Error::OutOfBounds`] if the write extends beyond the data size.
    pub fn write(&mut self, offset: usize, data: &[u8]) -> (result: Result<(), Error>)
        ensures
            final(self)@ == old(self)@.after_write(offset as int, data@),
            result == (if old(self)@.accepts(offset as int, data@) {
                Ok::<(), Error>(())
            } else {
                Err::<(), Error>(old(self)@.out_of_bounds(offset, data@.len() as usize))
            }),
            result is Ok && data@.len() > 0 ==> offset + data@.len() <= usize::MAX,
    {
        proof {
            use_type_invariant(&*self);
        }
        match self.prepare_write(offset, data) {
            Ok(Some(write)) => {
                let ghost before = self@;
                let mut pending: Vec<PendingWrite> = Vec::new();
                std::mem::swap(&mut pending, &mut self.pending);
                pending.push(write);
                assert(log_of(pending@) =~= before.after_write(offset as int, data@).log);
                self.pending = pending;
                Ok(())
            },
            Ok(None) => Ok(()),
            Err(error) => Err(error),
        }
    }

    /// Gives what a write of `data` at the given `offset` puts at the end of the pending log:
    /// `None` for an empty write, which is ignored.
    ///
    /// # Errors
    ///
    /// Returns [`Error::OutOfBounds`] if the write extends beyond the data size.
    pub fn prepare_write(&self, offset: usize, data: &[u8]) -> (result: Result<
        Option<PendingWrite>,
        Error,
    >)
        ensures
            match result {
                Ok(None) => data@.len() == 0,
                Ok(Some(write)) => {
                    &&& data@.len() > 0
                    &&& self@.in_bounds(offset as int, data@.len() as int)
                    &&& write@ == (LoggedWrite { offset: offset as int, data: data@ })
                    &&& offset + data@.len() <= usize::MAX
                },
                Err(error) => {
                    &&& !self@.accepts(offset as int, data@)
                    &&& error == self@.out_of_bounds(offset, data@.len() as usize)
                },
            },
    {
        let length: usize = data.len();
        if length == 0 {
            return Ok(None);
        }
        match self.check_bounds(offset, length) {
            Ok(()) => {
                let copy = copy_range(data, 0, length);
                assert(copy@ =~= data@);
                Ok(Some(PendingWrite { offset, data: copy }))
            },
            Err(error) => Err(error),
        }
    }

    /// Writes a single byte at the given offset into the pending log.
    ///
    /// # Errors
    ///
    /// Returns [`Error::OutOfBounds`] if the offset is beyond the data size.
    pub fn write_byte(&mut self, offset: usize, byte: u8) -> (result: Result<(), Error>)
        ensures
            final(self)@ == old(self)@.after_write(offset as int, seq![byte]),
            result == (if old(self)@.in_bounds(offset as int, 1) {
                Ok::<(), Error>(())
            } else {
                Err::<(), Error>(old(self)@.out_of_bounds(offset, 1))
            }),
    {
        let data: [u8; 1] = [byte];
        assert(data@ =~= seq![byte]);
        self.write(offset, data.as_slice())
    }

    /// Applies all pending writes to the committed buffer, in order, and clears the log.
    ///
    /// This never fails: every logged write was checked against the bounds, and the length never
    /// changes.
    pub fn commit(&mut self) -> (result: Result<(), Error>)
        ensures
            result is Ok,
            final(self)@ == old(self)@.after_commit(),
    {
        proof {
            use_type_invariant(&*self);
        }
        if !self.has_pending() {
            assert(self@.log =~= Seq::<LoggedWrite>::empty());
            return Ok(());
        }
        let mut file = CowFile::from_vec(Vec::new());
        std::mem::swap(&mut file, self);
        let mut buffer = file.buffer;
        proof {
            lemma_composited_len(buffer@, 0, log_of(file.pending@));
        }
        apply_all(buffer.as_mut_slice(), file.pending.as_slice());
        *self = CowFile {
            buffer,
            pending: Vec::new(),
            source_path: file.source_path,
            changed: true,
            opened: file.opened,
        };
        assert(self@.log =~= Seq::<LoggedWrite>::empty());
        Ok(())
    }

    /// Discards all pending writes without applying them. This never fails.
    pub fn discard(&mut self) -> (result: Result<(), Error>)
        ensures
            result is Ok,
            final(self)@ == old(self)@.after_discard(),
    {
        proof {
            use_type_invariant(&*self);
        }
        let mut pending: Vec<PendingWrite> = Vec::new();
        std::mem::swap(&mut pending, &mut self.pending);
        assert(self@.log =~= Seq::<LoggedWrite>::empty());
        Ok(())
    }

    /// Reads a primitive value in little-endian byte order at the given offset.
    ///
    /// Composites pending writes over the committed state.
    ///
    /// # Errors
    ///
    /// Returns [`Error::OutOfBounds`] if there are not enough bytes at `offset`.
    pub fn read_le<T: Primitive>(&self, offset: usize) -> (result: Result<T, Error>)
        ensures
            result is Ok == self@.in_bounds(offset as int, T::size() as int),
            match result {
                Ok(value) => value.bits() == le_value(
                    self@.current().subrange(offset as int, offset + T::size()),
                ),
                Err(error) => error == self@.out_of_bounds(offset, T::size() as usize),
            },
    {
        proof {
            T::size_is_small();
            lemma_composited_len(self@.committed, 0, self@.log);
        }
        match self.read(offset, T::SIZE) {
            Ok(bytes) => {
                assert(bytes@.take(T::size() as int) =~= bytes@);
                Ok(T::from_le_bytes(bytes.as_slice()))
            },
            Err(error) => Err(error),
        }
    }

    /// Reads a primitive value in big-endian byte order at the given offset.
    ///
    /// Composites pending writes over the committed state.
    ///
    /// # Errors
    ///
    /// Returns [`Error::OutOfBounds`] if there are not enough bytes at `offset`.
    pub fn read_be<T: Primitive>(&self, offset: usize) -> (result: Result<T, Error>)
        ensures
            result is Ok == self@.in_bounds(offset as int, T::size() as int),
            match result {
                Ok(value) => value.bits() == be_value(
                    self@.current().subrange(offset as int, offset + T::size()),
                ),
                Err(error) => error == self@.out_of_bounds(offset, T::size() as usize),
            },
    {
        proof {
            T::size_is_small();
            lemma_composited_len(self@.committed, 0, self@.log);
        }
        match self.read(offset, T::SIZE) {
            Ok(bytes) => {
                assert(bytes@.take(T::size() as int) =~= bytes@);
                Ok(T::from_be_bytes(bytes.as_slice()))
            },
            Err(error) => Err(error),
        }
    }

    /// Writes a primitive value in little-endian byte order at the given offset.
    ///
    /// The write goes to the pending log.
    ///
    /// # Errors
    ///
    /// Returns [`Error::OutOfBounds`] if there are not enough bytes at `offset`.
    pub fn write_le<T: Primitive>(&mut self, offset: usize, value: T) -> (result: Result<
        (),
        Error,
    >)
        ensures
            final(self)@ == old(self)@.after_write(
                offset as int,
                le_bytes(value.bits(), T::size()),
            ),
            result == (if old(self)@.in_bounds(offset as int, T::size() as int) {
                Ok::<(), Error>(())
            } else {
                Err::<(), Error>(old(self)@.out_of_bounds(offset, T::size() as usize))
            }),
    {
        proof {
            T::size_is_small();
            lemma_bytes_len(value.bits(), T::size());
        }
        let mut bytes: Vec<u8> = vec![0u8; T::SIZE];
        value.write_le_bytes(bytes.as_mut_slice());
        assert(bytes@ =~= le_bytes(value.bits(), T::size()));
        self.write(offset, bytes.as_slice())
    }

    /// Writes a primitive value in big-endian byte order at the given offset.
    ///
    /// The write goes to the pending log.
    ///
    /// # Errors
    ///
    /// Returns [`Error::OutOfBounds`] if there are not enough bytes at `offset`.
    pub fn write_be<T: Primitive>(&mut self, offset: usize, value: T) -> (result: Result<
        (),
        Error,
    >)
        ensures
            final(self)@ == old(self)@.after_write(
                offset as int,
                be_bytes(value.bits(), T::size()),
            ),
            result == (if old(self)@.in_bounds(offset as int, T::size() as int) {
                Ok::<(), Error>(())
            } else {
                Err::<(), Error>(old(self)@.out_of_bounds(offset, T::size() as usize))
            }),
    {
        proof {
            T::size_is_small();
            lemma_bytes_len(value.bits(), T::size());
        }
        let mut bytes: Vec<u8> = vec![0u8; T::SIZE];
        value.write_be_bytes(bytes.as_mut_slice());
        assert(bytes@ =~= be_bytes(value.bits(), T::size()));
        self.write(offset, bytes.as_slice())
    }

    /// Reads a user-defined type implementing [`ReadFrom`] at the given offset.
    ///
    /// # Errors
    ///
    /// Returns any error produced by the [`ReadFrom`] implementation.
    pub fn read_type<T: ReadFrom>(&self, offset: usize) -> (result: Result<T, Error>)
        ensures
            T::reads(self@, offset as int, result),
    {
        T::read_from(self, offset)
    }

    /// Writes a user-defined type implementing [`WriteTo`] at the given offset.
    ///
    /// The writes go to the pending log.
    ///
    /// # Errors
    ///
    /// Returns any error produced by the [`WriteTo`] implementation.
    pub fn write_type<T: WriteTo>(&mut self, offset: usize, value: &T) -> (result: Result<
        (),
        Error,
    >)
        ensures
            value.writes(old(self)@, offset as int, final(self)@, result),
            old(self)@.extended_by(final(self)@),
    {
        value.write_to(self, offset)
    }

    /// Creates a cursor at position 0.
    ///
    /// Multiple cursors can exist over the same `CowFile`, each with its own independent position.
    pub fn cursor(&self) -> (cursor: CowFileCursor)
        ensures
            cursor@ == 0,
    {
        CowFileCursor::new()
    }

    /// Returns the original file path for mapped instances that were opened by one.
    ///
    /// Returns `None` for vector-backed instances and those made from an open file.
    pub fn source_path(&self) -> (path: Option<&std::path::PathBuf>)
        ensures
            match path {
                Some(path) => self@.source == Some(*path),
                None => self@.source is None,
            },
    {
        match &self.source_path {
            Some(path) => Some(path),
            None => None,
        }
    }

    /// Says how to create an independent copy of this `CowFile`, which holds its committed bytes.
    ///
    /// A mapped file with a known source path is to be opened again, so that the two share read
    /// pages; what commits have changed since it was opened is then to be carried over. For
    /// vector-backed files or those without a source path, the committed data is copied here.
    ///
    /// Pending writes are **not** carried over: the fork starts clean.
    pub fn fork(&self) -> (fork: Fork<'_>)
        ensures
            match fork {
                Fork::Reopen(path) => {
                    &&& self@.source == Some(*path)
                    &&& !self@.changed
                    &&& self@.committed == self@.opened
                },
                Fork::ReopenAndCarry(path) => self@.source == Some(*path) && self@.changed,
                Fork::Copy(copy) => {
                    &&& self@.source is None
                    &&& copy@ == CowFileView::fresh(self@.committed, false, None)
                },
            },
    {
        proof {
            use_type_invariant(&*self);
        }
        match &self.source_path {
            Some(path) => if self.changed {
                Fork::ReopenAndCarry(path)
            } else {
                Fork::Reopen(path)
            },
            None => Fork::Copy(self.copied()),
        }
    }

    /// Creates a vector-backed file from a copy of the committed data.
    pub fn copied(&self) -> (copy: CowFile)
        ensures
            copy@ == CowFileView::fresh(self@.committed, false, None),
    {
        let data: &[u8] = self.buffer.as_slice();
        let copy = copy_range(data, 0, data.len());
        assert(copy@ =~= data@);
        CowFile::from_vec(copy)
    }

    /// Makes the committed data of `fork`, a file of the same length, that of this file, and leaves
    /// it nothing pending. This never fails.
    ///
    /// Only bytes that differ are written, so that a mapped `fork` copies no other pages.
    pub fn carry_into(&self, fork: &mut CowFile) -> (result: Result<(), Error>)
        requires
            old(fork)@.len() == self@.len(),
        ensures
            result is Ok,
            final(fork)@ == old(fork)@.after_carry(self@.committed),
    {
        proof {
            use_type_invariant(&*fork);
        }
        let mut file = CowFile::from_vec(Vec::new());
        std::mem::swap(&mut file, fork);
        let mut buffer = file.buffer;
        overwrite(buffer.as_mut_slice(), self.buffer.as_slice());
        *fork = CowFile {
            buffer,
            pending: Vec::new(),
            source_path: file.source_path,
            changed: true,
            opened: file.opened,
        };
        assert(fork@.log =~= Seq::<LoggedWrite>::empty());
        Ok(())
    }

    /// Produces a `Vec<u8>` with all pending writes composited over the committed buffer. This
    /// never fails.
    pub fn to_vec(&self) -> (result: Result<Vec<u8>, Error>)
        ensures
            result matches Ok(output) && output@ == self@.current(),
    {
        proof {
            use_type_invariant(&*self);
        }
        let data: &[u8] = self.buffer.as_slice();
        let mut output = copy_range(data, 0, data.len());
        assert(output@ =~= self@.committed);
        if self.has_pending() {
            apply_all(output.as_mut_slice(), self.pending.as_slice());
        }
        Ok(output)
    }

    /// Writes the data with all pending writes applied into a buffer of the same length, such as a
    /// writable memory map of the output file.
    pub fn render_into(&self, output: &mut [u8])
        requires
            old(output)@.len() == self@.len(),
        ensures
            final(output)@ == self@.current(),
    {
        proof {
            use_type_invariant(&*self);
        }
        copy_into(output, 0, self.buffer.as_slice());
        assert(splice(old(output)@, 0, self@.committed) =~= self@.committed);
        if self.has_pending() {
            apply_all(output, self.pending.as_slice());
        }
    }

    /// Whether output to a file goes through a writable memory map of it, by
    /// [`render_into`](CowFile::render_into), rather than through buffered I/O of what
    /// [`to_vec`](CowFile::to_vec) gives.
    pub fn writes_through_mmap(&self) -> (through: bool)
        ensures
            through == (self@.len() >= MMAP_WRITE_THRESHOLD),
    {
        self.buffer.len() >= MMAP_WRITE_THRESHOLD
    }

    /// Consumes the `CowFile` and returns the data, with pending writes applied, as an owned
    /// `Vec<u8>`. This never fails.
    ///
    /// For vector-backed files the vector is moved, not copied.
    pub fn into_vec(self) -> (result: Result<Vec<u8>, Error>)
        ensures
            result matches Ok(output) && output@ == self@.current(),
    {
        proof {
            use_type_invariant(&self);
        }
        let pending = self.pending;
        let mut output = self.buffer.into_vec();
        if pending.len() > 0 {
            apply_all(output.as_mut_slice(), pending.as_slice());
        }
        Ok(output)
    }

    /// The name of the storage that holds the committed buffer.
    pub fn backend_name(&self) -> (name: &'static str)
        ensures
            name@ == (if self@.mapped {
                "Mmap"@
            } else {
                "Vec"@
            }),
    {
        match &self.buffer {
            Inner::Vec(_) => "Vec",
            Inner::Mmap(_) => "Mmap",
        }
    }

    /// Checks that an access lies within the data.
    ///
    /// # Errors
    ///
    /// Returns [`Error::OutOfBounds`] if it does not.
    pub fn check_bounds(&self, offset: usize, length: usize) -> (result: Result<(), Error>)
        ensures
            result == (if self@.in_bounds(offset as int, length as int) {
                Ok::<(), Error>(())
            } else {
                Err::<(), Error>(self@.out_of_bounds(offset, length))
            }),
            result is Ok ==> offset + length <= usize::MAX,
    {
        let file_size: usize = self.buffer.len();
        match offset.checked_add(length) {
            Some(end) if end <= file_size => Ok(()),
            _ => Err(Error::OutOfBounds { offset, length, file_size }),
        }
    }
}

} // verus!
