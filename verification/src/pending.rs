//! The pending log: writes that are recorded but not yet applied.

use vstd::prelude::*;

use crate::bytes::copy_into;

verus! {

use crate::bytes::splice;

/// A single pending write recorded in the log.
pub struct PendingWrite {
    /// The address of the first byte.
    pub offset: usize,
    /// The bytes to write.
    pub data: Vec<u8>,
}

/// What a pending write holds.
#[verifier::ext_equal]
pub struct LoggedWrite {
    /// The address of the first byte.
    pub offset: int,
    /// The bytes to write.
    pub data: Seq<u8>,
}

impl LoggedWrite {
    /// The address just past the write.
    pub open spec fn end(self) -> int {
        self.offset + self.data.len()
    }

    /// Whether the write holds a byte for address `addr`.
    pub open spec fn covers(self, addr: int) -> bool {
        self.offset <= addr < self.end()
    }
}

impl View for PendingWrite {
    type V = LoggedWrite;

    open spec fn view(&self) -> LoggedWrite {
        LoggedWrite { offset: self.offset as int, data: self.data@ }
    }
}

/// What the writes of a log hold, in the order in which they were recorded.
pub open spec fn log_of(pending: Seq<PendingWrite>) -> Seq<LoggedWrite> {
    pending.map_values(|write: PendingWrite| write@)
}

/// `base`, whose first byte sits at address `at`, with the writes of `log` applied in order, so
/// that a later write counts over an earlier one.
pub open spec fn composited(base: Seq<u8>, at: int, log: Seq<LoggedWrite>) -> Seq<u8>
    decreases log.len(),
{
    if log.len() == 0 {
        base
    } else {
        splice(composited(base, at, log.drop_last()), log.last().offset - at, log.last().data)
    }
}

/// The byte that the log holds for address `addr`: that of the last write that covers it.
pub open spec fn logged_byte(log: Seq<LoggedWrite>, addr: int) -> Option<u8>
    decreases log.len(),
{
    if log.len() == 0 {
        None
    } else if log.last().covers(addr) {
        Some(log.last().data[addr - log.last().offset])
    } else {
        logged_byte(log.drop_last(), addr)
    }
}

/// Every write of the log has bytes, and they lie within the first `len` addresses.
pub open spec fn log_within(log: Seq<LoggedWrite>, len: int) -> bool {
    forall|i: int|
        0 <= i < log.len() ==> 0 <= (#[trigger] log[i]).offset < log[i].end() <= len
}

/// Applying a log keeps the length.
pub proof fn lemma_composited_len(base: Seq<u8>, at: int, log: Seq<LoggedWrite>)
    ensures
        composited(base, at, log).len() == base.len(),
    decreases log.len(),
{
    if log.len() > 0 {
        lemma_composited_len(base, at, log.drop_last());
    }
}

/// Applying a log to a whole buffer and cutting out a part is applying it to that part.
pub proof fn lemma_composited_subrange(
    base: Seq<u8>,
    at: int,
    log: Seq<LoggedWrite>,
    start: int,
    end: int,
)
    requires
        0 <= start <= end <= base.len(),
    ensures
        composited(base, at, log).subrange(start, end) == composited(
            base.subrange(start, end),
            at + start,
            log,
        ),
    decreases log.len(),
{
    if log.len() > 0 {
        let rest = log.drop_last();
        lemma_composited_subrange(base, at, rest, start, end);
        lemma_composited_len(base, at, rest);
        assert(composited(base, at, log).subrange(start, end) =~= splice(
            composited(base, at, rest).subrange(start, end),
            log.last().offset - (at + start),
            log.last().data,
        ));
    }
}

/// The last write that covers an address decides the byte that the log holds there.
pub proof fn lemma_logged_last(log: Seq<LoggedWrite>, last: int, addr: int)
    requires
        0 <= last < log.len(),
        log[last].offset <= addr < log[last].offset + log[last].data.len(),
        forall|later: int|
            last < later < log.len() ==> !((#[trigger] log[later]).offset <= addr
                < log[later].offset + log[later].data.len()),
    ensures
        logged_byte(log, addr) == Some(log[last].data[addr - log[last].offset]),
    decreases log.len(),
{
    if last < log.len() - 1 {
        let rest = log.drop_last();
        assert forall|later: int| last < later < rest.len() implies !((
        #[trigger] rest[later]).offset <= addr < rest[later].offset + rest[later].data.len()) by {
            assert(rest[later] == log[later]);
        }
        lemma_logged_last(rest, last, addr);
        assert(!(log[log.len() - 1].offset <= addr < log[log.len() - 1].offset + log[log.len()
            - 1].data.len()));
    }
}

/// The log holds no byte for an address that no write covers.
pub proof fn lemma_logged_none(log: Seq<LoggedWrite>, addr: int)
    requires
        forall|i: int|
            0 <= i < log.len() ==> !((#[trigger] log[i]).offset <= addr < log[i].offset
                + log[i].data.len()),
    ensures
        logged_byte(log, addr) is None,
    decreases log.len(),
{
    if log.len() > 0 {
        let rest = log.drop_last();
        assert forall|i: int| 0 <= i < rest.len() implies !((#[trigger] rest[i]).offset <= addr
            < rest[i].offset + rest[i].data.len()) by {
            assert(rest[i] == log[i]);
        }
        lemma_logged_none(rest, addr);
        assert(!(log[log.len() - 1].offset <= addr < log[log.len() - 1].offset + log[log.len()
            - 1].data.len()));
    }
}

/// The first writes of a log, with one more behind them.
pub proof fn lemma_composited_step(base: Seq<u8>, at: int, log: Seq<LoggedWrite>, count: int)
    requires
        0 <= count < log.len(),
    ensures
        composited(base, at, log.take(count + 1)) == splice(
            composited(base, at, log.take(count)),
            log[count].offset - at,
            log[count].data,
        ),
{
    assert(log.take(count + 1).drop_last() =~= log.take(count));
    assert(log.take(count + 1).last() == log[count]);
}

/// Applying two logs one after the other is applying them as one.
pub proof fn lemma_composited_twice(
    base: Seq<u8>,
    at: int,
    first: Seq<LoggedWrite>,
    second: Seq<LoggedWrite>,
)
    ensures
        composited(composited(base, at, first), at, second) == composited(
            base,
            at,
            first + second,
        ),
    decreases second.len(),
{
    if second.len() > 0 {
        lemma_composited_twice(base, at, first, second.drop_last());
        assert((first + second).drop_last() =~= first + second.drop_last());
    } else {
        assert(first + second =~= first);
    }
}

/// A byte of the buffer with a log applied is the one that the log holds for its address, or that
/// of the buffer where the log holds none.
pub proof fn lemma_composited_byte(base: Seq<u8>, at: int, log: Seq<LoggedWrite>, addr: int)
    requires
        at <= addr < at + base.len(),
    ensures
        composited(base, at, log)[addr - at] == (match logged_byte(log, addr) {
            Some(byte) => byte,
            None => base[addr - at],
        }),
    decreases log.len(),
{
    if log.len() > 0 {
        lemma_composited_len(base, at, log.drop_last());
        lemma_composited_byte(base, at, log.drop_last(), addr);
    }
}

/// Applies pending writes that overlap `[read_offset..read_offset+read_len)` to `buf`.
///
/// Writes are applied in order: later writes overwrite earlier ones.
pub fn apply_pending(
    buf: &mut [u8],
    read_offset: usize,
    read_len: usize,
    pending: &[PendingWrite],
)
    requires
        read_len <= old(buf)@.len(),
        read_offset + read_len <= usize::MAX,
        forall|i: int| 0 <= i < pending@.len() ==> (#[trigger] pending@[i])@.end() <= usize::MAX,
    ensures
        final(buf)@ == composited(
            old(buf)@.take(read_len as int),
            read_offset as int,
            log_of(pending@),
        ) + old(buf)@.skip(read_len as int),
{
    let read_end: usize = read_offset + read_len;
    let ghost log = log_of(pending@);
    let ghost window = old(buf)@.take(read_len as int);
    let ghost rest = old(buf)@.skip(read_len as int);
    let mut i: usize = 0;
    assert(buf@ =~= composited(window, read_offset as int, log.take(0)) + rest);
    while i < pending.len()
        invariant
            i <= pending@.len(),
            log == log_of(pending@),
            read_end == read_offset + read_len,
            window.len() == read_len,
            forall|k: int|
                0 <= k < pending@.len() ==> (#[trigger] pending@[k])@.end() <= usize::MAX,
            buf@ == composited(window, read_offset as int, log.take(i as int)) + rest,
        decreases pending@.len() - i,
    {
        let write: &PendingWrite = &pending[i];
        let write_end: usize = write.offset + write.data.len();
        let ghost before = composited(window, read_offset as int, log.take(i as int));
        proof {
            lemma_composited_step(window, read_offset as int, log, i as int);
            lemma_composited_len(window, read_offset as int, log.take(i as int));
        }
        if write.offset < read_end && write_end > read_offset {
            let start: usize = if write.offset > read_offset {
                write.offset
            } else {
                read_offset
            };
            let end: usize = if write_end < read_end {
                write_end
            } else {
                read_end
            };
            let from: usize = start - write.offset;
            copy_into(
                buf,
                start - read_offset,
                vstd::slice::slice_subrange(write.data.as_slice(), from, from + (end - start)),
            );
        }
        assert(buf@ =~= splice(before, write.offset - read_offset, write.data@) + rest);
        i += 1;
    }
    assert(log.take(pending@.len() as int) =~= log);
}

/// Looks a byte up in the log.
///
/// The log is searched from its end, since the last write wins.
pub fn pending_byte(pending: &[PendingWrite], addr: usize) -> (byte: Option<u8>)
    requires
        forall|i: int| 0 <= i < pending@.len() ==> (#[trigger] pending@[i])@.end() <= usize::MAX,
    ensures
        byte == logged_byte(log_of(pending@), addr as int),
{
    let ghost log = log_of(pending@);
    let mut i: usize = pending.len();
    assert(log.take(i as int) =~= log);
    while i > 0
        invariant
            i <= pending@.len(),
            log == log_of(pending@),
            forall|k: int|
                0 <= k < pending@.len() ==> (#[trigger] pending@[k])@.end() <= usize::MAX,
            logged_byte(log, addr as int) == logged_byte(log.take(i as int), addr as int),
        decreases i,
    {
        let ghost rest = log.take(i as int);
        i -= 1;
        let write: &PendingWrite = &pending[i];
        let write_end: usize = write.offset + write.data.len();
        assert(rest.last() == write@);
        assert(rest.drop_last() =~= log.take(i as int));
        if addr >= write.offset && addr < write_end {
            return Some(write.data[addr - write.offset]);
        }
    }
    None
}

/// Applies every pending write to the buffer that holds all addresses.
pub fn apply_all(buf: &mut [u8], pending: &[PendingWrite])
    requires
        log_within(log_of(pending@), old(buf)@.len() as int),
    ensures
        final(buf)@ == composited(old(buf)@, 0, log_of(pending@)),
{
    let len: usize = buf.len();
    let ghost log = log_of(pending@);
    assert forall|i: int| 0 <= i < pending@.len() implies (#[trigger] pending@[i])@.end()
        <= usize::MAX by {
        assert(log[i] == pending@[i]@);
    }
    apply_pending(buf, 0, len, pending);
    assert(old(buf)@.take(len as int) =~= old(buf)@);
    assert(old(buf)@.skip(len as int) =~= Seq::<u8>::empty());
    assert(buf@ =~= composited(old(buf)@, 0, log));
}

} // verus!
