//! What holds of files, overlays and cursors across several operations.
//!
//! Each law is stated over the views in which the contracts of the operations are stated:
//! [`CowFileView`](crate::CowFileView) and [`OverlayView`](crate::overlay::OverlayView).

use vstd::prelude::*;

verus! {

use crate::bytes::splice;
use crate::cowfile::{CowFileView, MMAP_WRITE_THRESHOLD};
use crate::cursor::{filled, readable, seek_target, SeekFrom};
use crate::endian::{
    be_bytes,
    be_value,
    le_bytes,
    le_value,
    lemma_bytes_len,
    lemma_bytes_of_value,
    lemma_value_of_bytes,
};
use crate::layer::{gapped, lookup, packed, separated};
use crate::layer::{lemma_disjoint_lookup, lemma_lookup_some, lemma_same_entries};
use crate::overlay::{is_commit, OverlayView};
use crate::pending::{composited, logged_byte, LoggedWrite};
use crate::pending::{
    lemma_composited_byte,
    lemma_composited_len,
    lemma_composited_subrange,
    lemma_composited_twice,
};
use crate::primitives::Primitive;
use crate::runs::{is_consolidation, is_run_start};
use crate::trim::{lemma_written, lemma_written_keys, written};

/// A write that is taken shows in what reads see: its bytes at its addresses, and every other byte
/// as it was.
pub proof fn write_shows_in_reads(file: CowFileView, offset: int, data: Seq<u8>)
    requires
        0 <= offset,
        file.accepts(offset, data),
    ensures
        file.after_write(offset, data).current() == splice(file.current(), offset, data),
        data.len() > 0 ==> file.after_write(offset, data).current().subrange(
            offset,
            offset + data.len(),
        ) == data,
{
    lemma_composited_len(file.committed, 0, file.log);
    let after = file.after_write(offset, data);
    if data.len() > 0 {
        assert(after.log.drop_last() =~= file.log);
        assert(after.current().subrange(offset, offset + data.len()) =~= data);
    } else {
        assert(splice(file.current(), offset, data) =~= file.current());
    }
}

/// A byte that reads see is that of the last pending write that covers it, or the committed one
/// where none does.
pub proof fn last_write_wins(file: CowFileView, addr: int)
    requires
        0 <= addr < file.len(),
    ensures
        file.current()[addr] == (match logged_byte(file.log, addr) {
            Some(byte) => byte,
            None => file.committed[addr],
        }),
{
    lemma_composited_byte(file.committed, 0, file.log, addr);
}

/// No write changes the committed bytes or what was logged before it, and one that is refused or
/// empty changes nothing.
pub proof fn write_keeps_committed(file: CowFileView, offset: int, data: Seq<u8>)
    ensures
        file.after_write(offset, data).committed == file.committed,
        file.extended_by(file.after_write(offset, data)),
        !file.accepts(offset, data) ==> file.after_write(offset, data) == file,
        data.len() == 0 ==> file.after_write(offset, data) == file,
{
}

/// Writes to disjoint addresses can be made in either order.
pub proof fn disjoint_writes_commute(
    file: CowFileView,
    first: int,
    left: Seq<u8>,
    second: int,
    right: Seq<u8>,
)
    requires
        0 <= first,
        0 <= second,
        file.accepts(first, left),
        file.accepts(second, right),
        left.len() == 0 || right.len() == 0 || first + left.len() <= second || second
            + right.len() <= first,
    ensures
        file.after_write(first, left).after_write(second, right).current() == file.after_write(
            second,
            right,
        ).after_write(first, left).current(),
{
    write_shows_in_reads(file, first, left);
    write_shows_in_reads(file, second, right);
    write_shows_in_reads(file.after_write(first, left), second, right);
    write_shows_in_reads(file.after_write(second, right), first, left);
    assert(splice(splice(file.current(), first, left), second, right) =~= splice(
        splice(file.current(), second, right),
        first,
        left,
    ));
}

/// A commit makes the committed bytes those that reads saw, changes nothing of what reads see, and
/// leaves nothing pending; a second one changes nothing.
pub proof fn commit_keeps_reads(file: CowFileView)
    ensures
        ({
            let after = file.after_commit();
            &&& after.committed == file.current()
            &&& after.current() == file.current()
            &&& after.log.len() == 0
            &&& after.after_commit() == after
        }),
{
}

/// A commit between two passes of writes makes no difference to the outcome.
pub proof fn commit_between_writes(file: CowFileView, offset: int, data: Seq<u8>)
    requires
        0 <= offset,
        file.accepts(offset, data),
    ensures
        file.after_commit().after_write(offset, data).current() == file.after_write(
            offset,
            data,
        ).current(),
{
    lemma_composited_len(file.committed, 0, file.log);
    write_shows_in_reads(file, offset, data);
    write_shows_in_reads(file.after_commit(), offset, data);
}

/// A log that is kept apart from its file, as one behind a lock is, can be applied to what the
/// file reads: the outcome, of a part, of a byte and of the whole, is what a file with the log
/// behind its own reads.
pub proof fn log_kept_apart(
    file: CowFileView,
    log: Seq<LoggedWrite>,
    start: int,
    end: int,
    addr: int,
)
    requires
        0 <= start <= end <= file.len(),
    ensures
        ({
            let joined = CowFileView { log: file.log + log, ..file };
            &&& composited(file.current(), 0, log) == joined.current()
            &&& composited(file.current().subrange(start, end), start, log)
                == joined.current().subrange(start, end)
            &&& 0 <= addr < file.len() ==> joined.current()[addr] == (match logged_byte(
                log,
                addr,
            ) {
                Some(byte) => byte,
                None => file.current()[addr],
            })
        }),
{
    lemma_composited_len(file.committed, 0, file.log);
    lemma_composited_twice(file.committed, 0, file.log, log);
    lemma_composited_subrange(file.current(), 0, log, start, end);
    if 0 <= addr < file.len() {
        lemma_composited_byte(file.current(), 0, log, addr);
    }
}

/// A write elsewhere and a commit keep the bytes that reads see in a range, such as those of a
/// typed value.
pub proof fn other_writes_keep_bytes(
    file: CowFileView,
    start: int,
    end: int,
    offset: int,
    data: Seq<u8>,
)
    requires
        0 <= start <= end <= file.len(),
        0 <= offset,
        file.accepts(offset, data),
        data.len() == 0 || offset + data.len() <= start || end <= offset,
    ensures
        file.after_write(offset, data).current().subrange(start, end)
            == file.current().subrange(start, end),
        file.after_commit().current().subrange(start, end) == file.current().subrange(start, end),
{
    lemma_composited_len(file.committed, 0, file.log);
    write_shows_in_reads(file, offset, data);
    assert(file.after_write(offset, data).current().subrange(start, end)
        =~= file.current().subrange(start, end));
}

/// Discarding takes what reads see back to the committed bytes, which stay.
pub proof fn discard_restores_committed(file: CowFileView)
    ensures
        file.after_discard().current() == file.committed,
        file.after_discard().committed == file.committed,
{
}

/// A fork of an opened file is a copy. The file is opened again by its path; as long as it still
/// holds the bytes that it held when it was first opened, the file opened again has the same
/// length, and holds the committed bytes at once or after they are carried over. It has nothing
/// pending, so that its reads see the committed bytes.
pub proof fn fork_holds_committed(file: CowFileView, path: std::path::PathBuf)
    requires
        file.well_formed(),
        file.source == Some(path),
    ensures
        ({
            let reopened = CowFileView::fresh(file.opened, true, Some(path));
            let fork = if file.changed {
                reopened.after_carry(file.committed)
            } else {
                reopened
            };
            &&& reopened.len() == file.len()
            &&& fork.committed == file.committed
            &&& fork.log.len() == 0
            &&& fork.current() == file.committed
            &&& fork.well_formed()
        }),
{
}

/// Carrying the committed bytes of one file into another of the same length makes the other a copy
/// with nothing pending, whatever it held.
pub proof fn carry_makes_a_copy(file: CowFileView, other: CowFileView)
    requires
        file.well_formed(),
        other.well_formed(),
        other.len() == file.len(),
    ensures
        other.after_carry(file.committed).committed == file.committed,
        other.after_carry(file.committed).current() == file.committed,
        other.after_carry(file.committed).well_formed(),
{
}

/// Output to a file is what `to_vec` gives whichever way it goes: the bytes of `to_vec` themselves
/// below the threshold, and what is rendered into a mapping of the file from there on. Nothing of
/// it depends on what the file held before.
pub proof fn output_is_to_vec(file: CowFileView, vec: Seq<u8>, rendered: Seq<u8>, output: Seq<u8>)
    requires
        vec == file.current(),
        rendered == file.current(),
        output == (if file.len() >= MMAP_WRITE_THRESHOLD {
            rendered
        } else {
            vec
        }),
    ensures
        output == vec,
        output.len() == file.len(),
{
    lemma_composited_len(file.committed, 0, file.log);
}

/// With nothing pending, reads see the committed bytes.
pub proof fn clean_reads_are_committed(file: CowFileView)
    requires
        file.log.len() == 0,
    ensures
        file.current() == file.committed,
{
}

/// No operation changes the length, and each keeps the file well-formed.
pub proof fn length_never_changes(file: CowFileView, offset: int, data: Seq<u8>)
    requires
        file.well_formed(),
        0 <= offset,
    ensures
        file.current().len() == file.len(),
        file.after_write(offset, data).len() == file.len(),
        file.after_commit().len() == file.len(),
        file.after_discard().len() == file.len(),
        file.after_write(offset, data).well_formed(),
        file.after_commit().well_formed(),
        file.after_discard().well_formed(),
{
    lemma_composited_len(file.committed, 0, file.log);
}

/// Reading all of a file gives what materializing it gives, and two reads side by side give what
/// one read of both gives.
pub proof fn reads_fit_together(file: CowFileView, start: int, middle: int, end: int)
    requires
        0 <= start <= middle <= end <= file.len(),
    ensures
        file.current().subrange(0, file.len() as int) == file.current(),
        file.current().subrange(start, middle) + file.current().subrange(middle, end)
            == file.current().subrange(start, end),
{
    lemma_composited_len(file.committed, 0, file.log);
    assert(file.current().subrange(0, file.len() as int) =~= file.current());
    assert(file.current().subrange(start, middle) + file.current().subrange(middle, end)
        =~= file.current().subrange(start, end));
}

/// A typed value that was written in little-endian order is read back in little-endian order.
pub proof fn le_round_trip<T: Primitive>(file: CowFileView, offset: int, value: T, read: T)
    requires
        0 <= offset,
        file.in_bounds(offset, T::size() as int),
        read.bits() == le_value(
            file.after_write(offset, le_bytes(value.bits(), T::size())).current().subrange(
                offset,
                offset + T::size(),
            ),
        ),
    ensures
        read == value,
{
    T::size_is_small();
    value.bits_fit();
    lemma_bytes_len(value.bits(), T::size());
    lemma_value_of_bytes(value.bits(), T::size());
    write_shows_in_reads(file, offset, le_bytes(value.bits(), T::size()));
    read.bits_injective(value);
}

/// A typed value that was written in big-endian order is read back in big-endian order.
pub proof fn be_round_trip<T: Primitive>(file: CowFileView, offset: int, value: T, read: T)
    requires
        0 <= offset,
        file.in_bounds(offset, T::size() as int),
        read.bits() == be_value(
            file.after_write(offset, be_bytes(value.bits(), T::size())).current().subrange(
                offset,
                offset + T::size(),
            ),
        ),
    ensures
        read == value,
{
    T::size_is_small();
    value.bits_fit();
    lemma_bytes_len(value.bits(), T::size());
    lemma_value_of_bytes(value.bits(), T::size());
    write_shows_in_reads(file, offset, be_bytes(value.bits(), T::size()));
    read.bits_injective(value);
}

/// Writing a typed value back to where it was read, in the same byte order, changes nothing of
/// what reads see.
pub proof fn writing_back_changes_nothing<T: Primitive>(file: CowFileView, offset: int, value: T)
    requires
        0 <= offset,
        file.in_bounds(offset, T::size() as int),
    ensures
        ({
            let bytes = file.current().subrange(offset, offset + T::size());
            &&& value.bits() == le_value(bytes) ==> file.after_write(
                offset,
                le_bytes(value.bits(), T::size()),
            ).current() == file.current()
            &&& value.bits() == be_value(bytes) ==> file.after_write(
                offset,
                be_bytes(value.bits(), T::size()),
            ).current() == file.current()
        }),
{
    let bytes = file.current().subrange(offset, offset + T::size());
    lemma_composited_len(file.committed, 0, file.log);
    lemma_bytes_of_value(bytes);
    T::size_is_small();
    value.bits_fit();
    write_shows_in_reads(file, offset, bytes);
    assert(splice(file.current(), offset, bytes) =~= file.current());
}

/// An overlay without modifications shows the base.
pub proof fn empty_overlay_shows_base(overlay: OverlayView, base: Seq<u8>, at: int)
    requires
        overlay.pending == Map::<u64, Seq<u8>>::empty(),
        overlay.committed == Map::<u64, Seq<u8>>::empty(),
    ensures
        overlay.over(base, at) == base,
{
    assert(overlay.over(base, at) =~= base);
}

/// The pending bytes count over the committed ones, and those over the bytes of the base.
pub proof fn overlay_priority(overlay: OverlayView, base: Seq<u8>, at: int, i: int)
    requires
        0 <= i < base.len(),
    ensures
        overlay.over(base, at)[i] == (match lookup(overlay.pending, at + i) {
            Some(byte) => byte,
            None => match lookup(overlay.committed, at + i) {
                Some(byte) => byte,
                None => base[i],
            },
        }),
{
}

/// A write into an overlay shows in what it reads: its bytes at its addresses, and every other
/// byte as it was.
pub proof fn overlay_write_shows(
    overlay: OverlayView,
    offset: u64,
    data: Seq<u8>,
    base: Seq<u8>,
    at: int,
)
    requires
        overlay.well_formed(),
        offset + data.len() <= u64::MAX,
    ensures
        overlay.after_write(offset, data).over(base, at) == splice(
            overlay.over(base, at),
            offset - at,
            data,
        ),
        overlay.after_write(offset, data).well_formed(),
{
    lemma_written(overlay.pending, offset, data);
    let after = overlay.after_write(offset, data);
    assert forall|i: int| 0 <= i < base.len() implies after.over(base, at)[i] == splice(
        overlay.over(base, at),
        offset - at,
        data,
    )[i] by {
        assert(lookup(after.pending, at + i) == lookup(after.pending, at + i));
    }
    assert(after.over(base, at) =~= splice(overlay.over(base, at), offset - at, data));
}

/// A write keeps the pending entries non-empty and disjoint, and is itself one of them, not merged
/// with its neighbours; an empty one changes nothing.
pub proof fn overlay_write_is_one_entry(overlay: OverlayView, offset: u64, data: Seq<u8>)
    requires
        overlay.well_formed(),
        offset + data.len() <= u64::MAX,
    ensures
        packed(overlay.after_write(offset, data).pending),
        data.len() > 0 ==> {
            &&& overlay.after_write(offset, data).pending.contains_key(offset)
            &&& overlay.after_write(offset, data).pending[offset] == data
        },
        data.len() == 0 ==> overlay.after_write(offset, data) == overlay,
{
    if data.len() > 0 {
        lemma_written(overlay.pending, offset, data);
    }
}

/// Writes to disjoint addresses of an overlay can be made in either order: they end in the same
/// entries.
pub proof fn overlay_disjoint_writes_commute(
    overlay: OverlayView,
    first: u64,
    left: Seq<u8>,
    second: u64,
    right: Seq<u8>,
)
    requires
        overlay.well_formed(),
        first + left.len() <= u64::MAX,
        second + right.len() <= u64::MAX,
        left.len() == 0 || right.len() == 0 || first + left.len() <= second || second
            + right.len() <= first,
    ensures
        overlay.after_write(first, left).after_write(second, right) == overlay.after_write(
            second,
            right,
        ).after_write(first, left),
{
    if left.len() > 0 && right.len() > 0 {
        let layer = overlay.pending;
        let one = written(layer, first, left);
        let two = written(layer, second, right);
        let both = written(one, second, right);
        let swapped = written(two, first, left);
        lemma_written(layer, first, left);
        lemma_written(layer, second, right);
        lemma_written(one, second, right);
        lemma_written(two, first, left);
        assert forall|key: u64| #[trigger]
            both.contains_key(key) <==> swapped.contains_key(key) by {
            lemma_written_keys(layer, first, left, key);
            lemma_written_keys(layer, second, right, key);
            lemma_written_keys(one, second, right, key);
            lemma_written_keys(two, first, left, key);
            assert(lookup(one, key as int) is Some || lookup(one, key as int) is None);
            assert(lookup(two, key as int) is Some || lookup(two, key as int) is None);
        }
        assert forall|addr: int| #[trigger] lookup(both, addr) == lookup(swapped, addr) by {
            assert(lookup(one, addr) == lookup(one, addr));
            assert(lookup(two, addr) == lookup(two, addr));
            assert(lookup(swapped, addr) == lookup(swapped, addr));
        }
        lemma_same_entries(both, swapped);
    }
}

/// Consolidation is determined; it leaves entries that lie apart as they are, so that a second one
/// changes nothing.
pub proof fn consolidation_is_determined(
    layer: Map<u64, Seq<u8>>,
    runs: Map<u64, Seq<u8>>,
    other: Map<u64, Seq<u8>>,
)
    requires
        is_consolidation(layer, runs),
    ensures
        is_consolidation(layer, other) ==> other == runs,
        gapped(layer) ==> runs == layer,
        is_consolidation(runs, other) ==> other == runs,
{
    if is_consolidation(layer, other) {
        assert forall|addr: int| #[trigger] lookup(runs, addr) == lookup(other, addr) by {
            assert(lookup(other, addr) == lookup(layer, addr));
        }
        assert forall|key: u64| #[trigger] runs.contains_key(key) <==> other.contains_key(key) by {
            assert(other.contains_key(key) <==> is_run_start(layer, key));
        }
        lemma_same_entries(runs, other);
    }
    if gapped(layer) {
        gapped_is_consolidated(layer);
        lemma_same_entries(runs, layer);
    }
    if is_consolidation(runs, other) {
        gapped_is_consolidated(runs);
        lemma_same_entries(other, runs);
    }
}

/// Every entry of a layer whose entries lie apart is a run.
proof fn gapped_is_consolidated(layer: Map<u64, Seq<u8>>)
    requires
        gapped(layer),
    ensures
        forall|key: u64| #[trigger] layer.contains_key(key) <==> is_run_start(layer, key),
{
}

/// A commit changes nothing of what an overlay reads.
pub proof fn overlay_commit_keeps_reads(
    before: OverlayView,
    after: OverlayView,
    base: Seq<u8>,
    at: int,
)
    requires
        is_commit(before, after),
    ensures
        after.over(base, at) == before.over(base, at),
{
    assert forall|i: int| 0 <= i < base.len() implies after.over(base, at)[i] == before.over(
        base,
        at,
    )[i] by {
        assert(lookup(after.pending, at + i) is None) by {
            if lookup(after.pending, at + i) is Some {
                let key = lemma_lookup_some(after.pending, at + i);
            }
        }
        assert(lookup(after.committed, at + i) == lookup(after.committed, at + i));
    }
    assert(after.over(base, at) =~= before.over(base, at));
}

/// A layer whose entries lie apart is the only such layer for the bytes that it holds.
pub proof fn normal_form_is_unique(one: Map<u64, Seq<u8>>, two: Map<u64, Seq<u8>>)
    requires
        separated(one),
        separated(two),
        forall|addr: int| #[trigger] lookup(one, addr) == lookup(two, addr),
    ensures
        one == two,
{
    assert forall|key: u64| #[trigger] one.contains_key(key) <==> two.contains_key(key) by {
        if one.contains_key(key) {
            entry_starts_recur(one, two, key);
        }
        if two.contains_key(key) {
            entry_starts_recur(two, one, key);
        }
    }
    lemma_same_entries(one, two);
}

/// Where an entry of a layer whose entries lie apart starts, one of any other such layer with the
/// same bytes does.
proof fn entry_starts_recur(one: Map<u64, Seq<u8>>, two: Map<u64, Seq<u8>>, key: u64)
    requires
        separated(one),
        separated(two),
        forall|addr: int| #[trigger] lookup(one, addr) == lookup(two, addr),
        one.contains_key(key),
    ensures
        two.contains_key(key),
{
    lemma_disjoint_lookup(one, key, key as int);
    assert(lookup(one, key as int) == lookup(two, key as int));
    let holder = lemma_lookup_some(two, key as int);
    if holder < key {
        // The byte just before the entry would be held by the other layer only.
        let addr = key - 1;
        lemma_disjoint_lookup(two, holder, addr);
        assert(lookup(one, addr) == lookup(two, addr));
        let other = lemma_lookup_some(one, addr);
        assert(one.contains_key(other) && one.contains_key(key));
        assert(false);
    }
}

/// What a commit makes of an overlay is determined.
pub proof fn overlay_commit_is_determined(before: OverlayView, one: OverlayView, two: OverlayView)
    requires
        is_commit(before, one),
        is_commit(before, two),
    ensures
        one == two,
{
    assert forall|addr: int| #[trigger]
        lookup(one.committed, addr) == lookup(two.committed, addr) by {
        assert(lookup(two.committed, addr) == lookup(two.committed, addr));
    }
    normal_form_is_unique(one.committed, two.committed);
}

/// A commit with nothing pending changes nothing; so does a second commit after a first.
pub proof fn overlay_commit_of_nothing(before: OverlayView, after: OverlayView)
    requires
        before.well_formed(),
        before.pending == Map::<u64, Seq<u8>>::empty(),
        is_commit(before, after),
    ensures
        after == before,
{
    assert forall|addr: int| #[trigger] lookup(before.pending, addr) is None by {
        if lookup(before.pending, addr) is Some {
            let key = lemma_lookup_some(before.pending, addr);
        }
    }
    assert(is_commit(before, before));
    overlay_commit_is_determined(before, before, after);
}

/// A commit leaves an overlay well-formed with nothing pending.
pub proof fn overlay_commit_settles(before: OverlayView, after: OverlayView)
    requires
        is_commit(before, after),
    ensures
        after.well_formed(),
        after.pending == Map::<u64, Seq<u8>>::empty(),
{
}

/// Reading a part through an overlay gives that part of what materializing the whole gives.
pub proof fn overlay_reads_are_parts(overlay: OverlayView, base: Seq<u8>, start: int, end: int)
    requires
        0 <= start <= end <= base.len(),
    ensures
        overlay.over(base.subrange(start, end), start) == overlay.over(base, 0).subrange(
            start,
            end,
        ),
{
    assert(overlay.over(base.subrange(start, end), start) =~= overlay.over(base, 0).subrange(
        start,
        end,
    ));
}

/// An overlay and a file that show the same bytes do so after the same write.
pub proof fn overlay_agrees_with_file(
    overlay: OverlayView,
    file: CowFileView,
    base: Seq<u8>,
    offset: u64,
    data: Seq<u8>,
)
    requires
        overlay.well_formed(),
        offset + data.len() <= u64::MAX,
        file.accepts(offset as int, data),
        overlay.over(base, 0) == file.current(),
    ensures
        overlay.after_write(offset, data).over(base, 0) == file.after_write(
            offset as int,
            data,
        ).current(),
{
    overlay_write_shows(overlay, offset, data, base, 0);
    write_shows_in_reads(file, offset as int, data);
}

/// A cursor that writes, goes back to where it wrote and reads as much gets what it wrote.
pub proof fn cursor_reads_what_it_wrote(
    file: CowFileView,
    position: usize,
    data: Seq<u8>,
    buf: Seq<u8>,
)
    requires
        file.accepts(position as int, data),
        buf.len() == data.len(),
    ensures
        ({
            let after = file.after_write(position as int, data);
            let count = readable(position, after.len(), buf.len());
            filled(buf, after.current(), position, count) == data
        }),
{
    if data.len() > 0 {
        write_shows_in_reads(file, position as int, data);
        let after = file.after_write(position as int, data);
        assert(readable(position, after.len(), buf.len()) == data.len());
        assert(filled(buf, after.current(), position, data.len()) =~= data);
    } else {
        assert(buf =~= data);
    }
}

/// A seek from the start leads to the offset given, wherever the cursor stands; one from the end
/// or from the position leads there from those.
pub proof fn seek_reaches_its_target(position: usize, len: nat, start: u64, by: i64)
    requires
        position <= i64::MAX,
        len <= i64::MAX,
        start <= i64::MAX,
    ensures
        seek_target(position, len, SeekFrom::Start(start)) == start,
        seek_target(position, len, SeekFrom::End(by)) == len + by,
        seek_target(position, len, SeekFrom::Current(by)) == position + by,
{
}

/// Two reads of a cursor in a row get what one read into a buffer of both sizes gets.
pub proof fn cursor_reads_on(position: usize, len: nat, first: nat, second: nat)
    requires
        len <= usize::MAX,
    ensures
        ({
            let count = readable(position, len, first);
            count + readable((position + count) as usize, len, second) == readable(
                position,
                len,
                first + second,
            )
        }),
{
}

} // verus!
