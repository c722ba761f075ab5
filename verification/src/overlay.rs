//! Sparse copy-on-write overlay for tracking byte-level modifications.
//!
//! The [`Overlay`] tracks modifications as `(offset, bytes)` entries in two layers:
//!
//! - **Pending**: uncommitted modifications from the current pass.
//! - **Committed**: consolidated modifications from previous [`commit`](Overlay::commit) calls.
//!
//! When reading, layers are composited with priority: **pending > committed > base**.
//! The [`commit`](Overlay::commit) operation merges pending entries into the committed layer and
//! consolidates overlapping and adjacent regions.

use std::collections::btree_map;
use std::collections::BTreeMap;

use vstd::prelude::*;
use vstd::std_specs::iter::IteratorSpec;

use crate::bytes::{copy_into, copy_range};
use crate::layer::{iter_entries, list_entries, overlapping_keys};

verus! {

use crate::bytes::splice;
use crate::layer::{
    below,
    bound_at,
    bounded,
    bounded_below,
    end_of,
    entries,
    is_key_listing,
    is_listing,
    key_bound,
    lookup,
    overlaid,
    overlapping,
    overlaps,
    packed,
    separated,
    within,
    yields_entries,
};
use crate::layer::{
    lemma_key_listing_ends,
    lemma_key_listing_step,
    lemma_listing_ends,
    lemma_listing_step,
    lemma_lookup_insert_last,
    lemma_overlaid_insert_last,
    lemma_within,
};
use crate::merge::{is_merge_range, lemma_merge_range_within, lemma_merged, merged, zeros};
use crate::runs::{
    consolidated,
    is_consolidation,
    is_run_start,
    lemma_consolidated_extend,
    lemma_consolidated_first,
    lemma_consolidated_start,
    lemma_joins_run,
    lemma_runs_fit,
    lemma_runs_separated,
    runs_fit,
};
use crate::trim::{lemma_trimmed_ends, lemma_trimmed_step, lemma_written, trimmed_below, written};

/// A sparse copy-on-write overlay tracking modifications over immutable base data.
///
/// Modifications are stored as `(offset, bytes)` entries in sorted maps. The overlay supports
/// accumulating changes, committing (merging) them into a consolidated state, and reading back
/// the effective data at any offset.
pub struct Overlay {
    pending: BTreeMap<u64, Vec<u8>>,
    committed: BTreeMap<u64, Vec<u8>>,
}

/// What an overlay holds: the entries of its two layers.
#[verifier::ext_equal]
pub struct OverlayView {
    /// The modifications that are not yet committed.
    pub pending: Map<u64, Seq<u8>>,
    /// The modifications that earlier commits left.
    pub committed: Map<u64, Seq<u8>>,
}

impl OverlayView {
    /// `base`, whose first byte sits at address `at`, as the overlay shows it: the pending bytes
    /// count over the committed ones, and those over the bytes of `base`.
    pub open spec fn over(self, base: Seq<u8>, at: int) -> Seq<u8> {
        overlaid(self.pending, overlaid(self.committed, base, at), at)
    }

    /// The pending entries do not overlap, and the committed ones lie apart.
    pub open spec fn well_formed(self) -> bool {
        packed(self.pending) && separated(self.committed)
    }

    /// Every entry lies at addresses that a byte buffer can have, so that any region of them fits
    /// in a vector.
    pub open spec fn addressable(self) -> bool {
        within(self.pending, usize::MAX as int) && within(self.committed, usize::MAX as int)
    }

    /// The overlay after a write: the bytes of the write are one pending entry, cut out of all
    /// others.
    pub open spec fn after_write(self, offset: u64, data: Seq<u8>) -> OverlayView {
        OverlayView { pending: written(self.pending, offset, data), ..self }
    }
}

/// Whether `after` is what a commit makes of `before`: nothing is pending, the committed entries
/// lie apart, and they hold the pending bytes where there were some, and else the bytes that were
/// committed before.
pub open spec fn is_commit(before: OverlayView, after: OverlayView) -> bool {
    &&& after.pending == Map::<u64, Seq<u8>>::empty()
    &&& separated(after.committed)
    &&& forall|addr: int| #[trigger]
        lookup(after.committed, addr) == (match lookup(before.pending, addr) {
            Some(byte) => Some(byte),
            None => lookup(before.committed, addr),
        })
}

impl View for Overlay {
    type V = OverlayView;

    closed spec fn view(&self) -> OverlayView {
        OverlayView { pending: entries(self.pending@), committed: entries(self.committed@) }
    }
}

/// A map without keys has no entries, and one with a key has some.
proof fn lemma_entries_empty(map: Map<u64, Vec<u8>>)
    ensures
        map.is_empty() <==> entries(map) == Map::<u64, Seq<u8>>::empty(),
{
    assert(entries(map).dom() =~= map.dom());
    if map.is_empty() {
        assert(entries(map) =~= Map::<u64, Seq<u8>>::empty());
    }
}

impl Overlay {
    #[verifier::type_invariant]
    spec fn well_formed(&self) -> bool {
        self@.well_formed() && self@.addressable()
    }

    /// Creates a new empty overlay with no modifications.
    pub fn new() -> (overlay: Self)
        ensures
            overlay@.pending == Map::<u64, Seq<u8>>::empty(),
            overlay@.committed == Map::<u64, Seq<u8>>::empty(),
    {
        let overlay = Overlay { pending: BTreeMap::new(), committed: BTreeMap::new() };
        assert(overlay@.pending =~= Map::<u64, Seq<u8>>::empty());
        assert(overlay@.committed =~= Map::<u64, Seq<u8>>::empty());
        overlay
    }

    /// Records a write of `data` at `offset` into the pending layer.
    ///
    /// If a previous pending write overlaps with this one, the overlapping entries are trimmed or
    /// removed so that the newest write takes priority. Empty writes are ignored, at any offset.
    ///
    /// A write that is not empty must end at an address that a byte buffer can have, so that a
    /// commit can hold any region of writes in a vector.
    pub fn write(&mut self, offset: u64, data: &[u8])
        requires
            data@.len() == 0 || offset + data@.len() <= usize::MAX,
        ensures
            final(self)@ == old(self)@.after_write(offset, data@),
    {
        broadcast use vstd::std_specs::btree::group_btree_axioms;

        proof {
            use_type_invariant(&*self);
        }
        if data.is_empty() {
            return;
        }
        proof {
            lemma_written(self@.pending, offset, data@);
            lemma_within(self@.pending, usize::MAX as int);
            lemma_within(written(self@.pending, offset, data@), usize::MAX as int);
        }
        let mut pending: BTreeMap<u64, Vec<u8>> = BTreeMap::new();
        assert(entries(pending@) =~= Map::<u64, Seq<u8>>::empty());
        std::mem::swap(&mut pending, &mut self.pending);

        let write_end: u64 = offset + data.len() as u64;
        let keys = overlapping_keys(&pending, offset, write_end);
        let ghost before = entries(pending@);
        proof {
            lemma_trimmed_ends(before, offset as int, write_end as int, keys@);
        }
        let mut i: usize = 0;
        while i < keys.len()
            invariant
                i <= keys@.len(),
                packed(before),
                offset < write_end,
                is_key_listing(keys@, overlapping(before, offset as int, write_end as int)),
                entries(pending@) == trimmed_below(
                    before,
                    offset as int,
                    write_end as int,
                    key_bound(keys@, i as int),
                ),
            decreases keys@.len() - i,
        {
            broadcast use vstd::std_specs::btree::group_btree_axioms;

            let key: u64 = keys[i];
            proof {
                lemma_trimmed_step(before, offset as int, write_end as int, keys@, i as int);
                assert(overlapping(before, offset as int, write_end as int).contains_key(key));
                assert(before.contains_key(key));
                assert(entries(pending@).contains_key(key));
            }
            let ghost whole = entries(pending@);
            let existing = pending.remove(&key).unwrap();
            let existing_end: u64 = key + existing.len() as u64;
            assert(entries(pending@) =~= whole.remove(key));
            // Keep the portion before the write, if any.
            if key < offset {
                let front = copy_range(existing.as_slice(), 0, (offset - key) as usize);
                assert(front@ =~= before[key].take(offset - key));
                pending.insert(key, front);
                assert(entries(pending@) =~= whole.remove(key).insert(key, front@));
            }
            // Keep the portion after the write, if any.
            if existing_end > write_end {
                let ghost shorter = entries(pending@);
                let tail = copy_range(
                    existing.as_slice(),
                    (write_end - key) as usize,
                    existing.len(),
                );
                assert(tail@ =~= before[key].skip(write_end - key));
                pending.insert(write_end, tail);
                assert(entries(pending@) =~= shorter.insert(write_end, tail@));
            }
            i += 1;
        }
        let copy = copy_range(data, 0, data.len());
        assert(copy@ =~= data@);
        let ghost trimmed_pending = entries(pending@);
        pending.insert(offset, copy);
        assert(entries(pending@) =~= trimmed_pending.insert(offset, data@));
        self.pending = pending;
    }

    /// Reads `length` bytes starting at `offset`, compositing all layers.
    ///
    /// The result is built by starting from the `base` data, then applying committed
    /// modifications, then pending modifications.
    pub fn read(&self, offset: u64, length: u64, base: &[u8]) -> (result: Vec<u8>)
        requires
            offset + length <= base@.len(),
        ensures
            result@ == self@.over(
                base@.subrange(offset as int, offset + length),
                offset as int,
            ),
    {
        proof {
            use_type_invariant(self);
            assert(base.len() <= usize::MAX);
        }
        let start: usize = offset as usize;
        let end: usize = start + length as usize;
        let mut result: Vec<u8> = copy_range(base, start, end);
        Self::apply_layer(&self.committed, offset, result.as_mut_slice());
        Self::apply_layer(&self.pending, offset, result.as_mut_slice());
        result
    }

    /// Merges all pending modifications into the committed layer.
    ///
    /// Pending data wins where it overlaps with committed data. After merging, the committed layer
    /// is consolidated, and the pending layer is empty.
    pub fn commit(&mut self)
        ensures
            is_commit(old(self)@, final(self)@),
    {
        broadcast use vstd::std_specs::btree::group_btree_axioms;

        proof {
            use_type_invariant(&*self);
        }
        if self.pending.is_empty() {
            assert(self@.pending =~= Map::<u64, Seq<u8>>::empty());
            return;
        }
        let mut pending: BTreeMap<u64, Vec<u8>> = BTreeMap::new();
        let mut committed: BTreeMap<u64, Vec<u8>> = BTreeMap::new();
        assert(entries(pending@) =~= Map::<u64, Seq<u8>>::empty());
        assert(entries(committed@) =~= Map::<u64, Seq<u8>>::empty());
        std::mem::swap(&mut pending, &mut self.pending);
        std::mem::swap(&mut committed, &mut self.committed);

        let list = list_entries(&pending);
        let ghost before = entries(committed@);
        let ghost all = entries(pending@);
        let mut i: usize = 0;
        proof {
            lemma_listing_ends(list@, pending@);
        }
        while i < list.len()
            invariant
                i <= list@.len(),
                is_listing(list@, pending@),
                all == entries(pending@),
                packed(all),
                within(all, usize::MAX as int),
                packed(entries(committed@)),
                within(entries(committed@), usize::MAX as int),
                forall|addr: int| #[trigger]
                    lookup(entries(committed@), addr) == (match lookup(
                        below(all, bound_at(list@, i as int)),
                        addr,
                    ) {
                        Some(byte) => Some(byte),
                        None => lookup(before, addr),
                    }),
            decreases list@.len() - i,
        {
            let offset: u64 = list[i].0;
            let data: &Vec<u8> = list[i].1;
            let ghost earlier = entries(committed@);
            assert(all.contains_key(offset) && all[offset] == data@);
            assert forall|lo: u64, hi: int| #[trigger]
                is_merge_range(
                    earlier,
                    offset as int,
                    offset + data@.len(),
                    lo,
                    hi,
                ) implies hi - lo <= usize::MAX by {
                lemma_merge_range_within(
                    earlier,
                    offset as int,
                    offset + data@.len(),
                    lo,
                    hi,
                    usize::MAX as int,
                );
            }
            Self::merge_into_committed(&mut committed, offset, data.as_slice());
            proof {
                let (lo, hi) = choose|lo: u64, hi: int|
                    {
                        &&& #[trigger] is_merge_range(
                            earlier,
                            offset as int,
                            offset + data@.len(),
                            lo,
                            hi,
                        )
                        &&& entries(committed@) == merged(earlier, offset, data@, lo, hi)
                    };
                lemma_merged(earlier, offset, data@, lo, hi);
                lemma_within(earlier, usize::MAX as int);
                lemma_within(entries(committed@), usize::MAX as int);
                lemma_listing_step(list@, pending@, i as int);
                let seen = below(all, bound_at(list@, i as int));
                assert forall|addr: int| #[trigger]
                    lookup(entries(committed@), addr) == (match lookup(
                        below(all, bound_at(list@, i + 1)),
                        addr,
                    ) {
                        Some(byte) => Some(byte),
                        None => lookup(before, addr),
                    }) by {
                    lemma_lookup_insert_last(seen, offset, data@, addr);
                    assert(lookup(earlier, addr) == lookup(earlier, addr));
                }
            }
            i += 1;
        }
        let ghost joined = entries(committed@);
        proof {
            lemma_runs_fit(joined);
        }
        Self::consolidate(&mut committed);
        proof {
            lemma_listing_ends(list@, pending@);
            lemma_runs_separated(joined, entries(committed@));
            lemma_within(joined, usize::MAX as int);
            lemma_within(entries(committed@), usize::MAX as int);
        }
        self.committed = committed;
    }

    /// Returns `true` if there are pending (uncommitted) modifications.
    pub fn has_pending(&self) -> (result: bool)
        ensures
            result == (self@.pending != Map::<u64, Seq<u8>>::empty()),
    {
        proof {
            lemma_entries_empty(self.pending@);
        }
        !self.pending.is_empty()
    }

    /// Returns `true` if there are any modifications (pending or committed).
    pub fn has_modifications(&self) -> (result: bool)
        ensures
            result == (self@.pending != Map::<u64, Seq<u8>>::empty() || self@.committed != Map::<
                u64,
                Seq<u8>,
            >::empty()),
    {
        proof {
            lemma_entries_empty(self.pending@);
            lemma_entries_empty(self.committed@);
        }
        !self.pending.is_empty() || !self.committed.is_empty()
    }

    /// Returns the number of discrete pending modification regions.
    pub fn pending_count(&self) -> (count: usize)
        ensures
            count == self@.pending.len(),
    {
        broadcast use vstd::std_specs::btree::group_btree_axioms;

        assert(self@.pending.dom() =~= self.pending@.dom());
        self.pending.len()
    }

    /// Returns the number of discrete committed modification regions.
    pub fn committed_count(&self) -> (count: usize)
        ensures
            count == self@.committed.len(),
    {
        broadcast use vstd::std_specs::btree::group_btree_axioms;

        assert(self@.committed.dom() =~= self.committed@.dom());
        self.committed.len()
    }

    /// Returns an iterator over committed entries (offset, data).
    pub fn committed_entries(&self) -> (iter: btree_map::Iter<'_, u64, Vec<u8>>)
        ensures
            yields_entries(iter.remaining(), self@.committed),
    {
        iter_entries(&self.committed)
    }

    /// Returns an iterator over pending entries (offset, data).
    pub fn pending_entries(&self) -> (iter: btree_map::Iter<'_, u64, Vec<u8>>)
        ensures
            yields_entries(iter.remaining(), self@.pending),
    {
        iter_entries(&self.pending)
    }

    /// Applies all modifications (committed + pending) to the given base data,
    /// returning a fully materialized byte vector.
    pub fn materialize(&self, base: &[u8]) -> (output: Vec<u8>)
        requires
            within(self@.committed, base@.len() as int),
            within(self@.pending, base@.len() as int),
        ensures
            output@ == self@.over(base@, 0),
    {
        let mut output: Vec<u8> = copy_range(base, 0, base.len());
        assert(output@ =~= base@);
        Self::write_out(&self.committed, &mut output);
        Self::write_out(&self.pending, &mut output);
        output
    }

    /// Copies every entry of a layer to its place in `output`.
    fn write_out(layer: &BTreeMap<u64, Vec<u8>>, output: &mut Vec<u8>)
        requires
            within(entries(layer@), old(output)@.len() as int),
        ensures
            final(output)@ == overlaid(entries(layer@), old(output)@, 0),
    {
        let list = list_entries(layer);
        let ghost all = entries(layer@);
        let mut i: usize = 0;
        proof {
            lemma_listing_ends(list@, layer@);
            assert(overlaid(Map::<u64, Seq<u8>>::empty(), output@, 0) =~= output@);
        }
        while i < list.len()
            invariant
                i <= list@.len(),
                is_listing(list@, layer@),
                all == entries(layer@),
                within(all, old(output)@.len() as int),
                output@ == overlaid(below(all, bound_at(list@, i as int)), old(output)@, 0),
            decreases list@.len() - i,
        {
            let offset: u64 = list[i].0;
            let data: &Vec<u8> = list[i].1;
            proof {
                assert(output.len() <= usize::MAX);
                assert(all.contains_key(offset) && all[offset] == data@);
                lemma_listing_step(list@, layer@, i as int);
                lemma_overlaid_insert_last(
                    below(all, bound_at(list@, i as int)),
                    offset,
                    data@,
                    old(output)@,
                    0,
                );
            }
            copy_into(output.as_mut_slice(), offset as usize, data.as_slice());
            i += 1;
        }
        proof {
            lemma_listing_ends(list@, layer@);
        }
    }

    /// Applies a modification layer onto a read buffer, the first byte of which sits at address
    /// `read_offset`.
    pub fn apply_layer(layer: &BTreeMap<u64, Vec<u8>>, read_offset: u64, buf: &mut [u8])
        requires
            read_offset + old(buf)@.len() <= u64::MAX,
            bounded_below(
                entries(layer@),
                read_offset + old(buf)@.len(),
                u64::MAX as int,
            ),
        ensures
            final(buf)@ == overlaid(entries(layer@), old(buf)@, read_offset as int),
    {
        let buf_len: usize = buf.len();
        let read_end: u64 = read_offset + buf_len as u64;
        let list = list_entries(layer);
        let ghost all = entries(layer@);
        let mut i: usize = 0;
        proof {
            lemma_listing_ends(list@, layer@);
            assert(overlaid(Map::<u64, Seq<u8>>::empty(), buf@, read_offset as int) =~= buf@);
        }
        while i < list.len()
            invariant
                i <= list@.len(),
                is_listing(list@, layer@),
                all == entries(layer@),
                read_end == read_offset + buf_len,
                buf@.len() == old(buf)@.len() == buf_len,
                bounded_below(all, read_end as int, u64::MAX as int),
                buf@ == overlaid(
                    below(all, bound_at(list@, i as int)),
                    old(buf)@,
                    read_offset as int,
                ),
            decreases list@.len() - i,
        {
            let entry_offset: u64 = list[i].0;
            let entry_data: &Vec<u8> = list[i].1;
            let ghost seen = below(all, bound_at(list@, i as int));
            proof {
                lemma_listing_step(list@, layer@, i as int);
                lemma_overlaid_insert_last(
                    seen,
                    entry_offset,
                    entry_data@,
                    old(buf)@,
                    read_offset as int,
                );
                assert(all.contains_key(entry_offset) && all[entry_offset] == entry_data@);
            }
            let ghost before = buf@;
            if entry_offset < read_end {
                let entry_end: u64 = entry_offset + entry_data.len() as u64;
                if entry_end > read_offset {
                    let overlap_start: u64 = if read_offset > entry_offset {
                        read_offset
                    } else {
                        entry_offset
                    };
                    let overlap_end: u64 = if read_end < entry_end {
                        read_end
                    } else {
                        entry_end
                    };
                    let buf_start: usize = (overlap_start - read_offset) as usize;
                    let entry_start: usize = (overlap_start - entry_offset) as usize;
                    let overlap_len: usize = (overlap_end - overlap_start) as usize;
                    copy_into(
                        buf,
                        buf_start,
                        vstd::slice::slice_subrange(
                            entry_data.as_slice(),
                            entry_start,
                            entry_start + overlap_len,
                        ),
                    );
                }
            }
            assert(buf@ =~= splice(before, entry_offset - read_offset, entry_data@));
            i += 1;
        }
        proof {
            lemma_listing_ends(list@, layer@);
        }
    }

    /// Merges a single write into the committed layer, handling overlaps.
    ///
    /// The write and all committed entries that it overlaps become a single entry spanning them
    /// all. The write data takes priority where it overlaps with committed data.
    pub fn merge_into_committed(
        committed: &mut BTreeMap<u64, Vec<u8>>,
        write_offset: u64,
        write_data: &[u8],
    )
        requires
            write_offset + write_data@.len() <= u64::MAX,
            bounded_below(
                entries(old(committed)@),
                write_offset + write_data@.len(),
                u64::MAX as int,
            ),
            forall|lo: u64, hi: int| #[trigger]
                is_merge_range(
                    entries(old(committed)@),
                    write_offset as int,
                    write_offset + write_data@.len(),
                    lo,
                    hi,
                ) ==> hi - lo <= usize::MAX,
        ensures
            exists|lo: u64, hi: int|
                {
                    &&& #[trigger] is_merge_range(
                        entries(old(committed)@),
                        write_offset as int,
                        write_offset + write_data@.len(),
                        lo,
                        hi,
                    )
                    &&& entries(final(committed)@) == merged(
                        entries(old(committed)@),
                        write_offset,
                        write_data@,
                        lo,
                        hi,
                    )
                },
    {
        broadcast use vstd::std_specs::btree::group_btree_axioms;

        let write_end: u64 = write_offset + write_data.len() as u64;
        let keys = overlapping_keys(committed, write_offset, write_end);
        let ghost all = entries(committed@);
        let ghost reached = overlapping(all, write_offset as int, write_end as int);

        // The bounds of the merged region.
        let mut merged_start: u64 = write_offset;
        let mut merged_end: u64 = write_end;
        let mut i: usize = 0;
        while i < keys.len()
            invariant
                i <= keys@.len(),
                is_key_listing(keys@, reached),
                all == entries(committed@),
                reached == overlapping(all, write_offset as int, write_end as int),
                merged_start <= write_offset <= write_end <= merged_end,
                bounded_below(all, write_end as int, u64::MAX as int),
                merged_start == write_offset || reached.contains_key(merged_start),
                merged_end == write_end || exists|key: u64| #[trigger]
                    reached.contains_key(key) && end_of(all, key) == merged_end,
                forall|n: int|
                    0 <= n < i ==> merged_start <= #[trigger] keys@[n] && end_of(all, keys@[n])
                        <= merged_end,
            decreases keys@.len() - i,
        {
            broadcast use vstd::std_specs::btree::group_btree_axioms;

            let key: u64 = keys[i];
            assert(reached.contains_key(key));
            assert(all.contains_key(key));
            let end: u64 = key + committed.get(&key).unwrap().len() as u64;
            if key < merged_start {
                merged_start = key;
            }
            if end > merged_end {
                merged_end = end;
            }
            i += 1;
        }
        assert(is_merge_range(
            all,
            write_offset as int,
            write_end as int,
            merged_start,
            merged_end as int,
        )) by {
            assert forall|key: u64| #[trigger]
                overlaps(all, key, write_offset as int, write_end as int) implies merged_start
                <= key && end_of(all, key) <= merged_end by {
                assert(reached.contains_key(key));
                let n = choose|n: int| 0 <= n < keys@.len() && #[trigger] keys@[n] == key;
            }
        }

        // The entries that the write reaches into, each laid over those before it.
        let merged_len: usize = (merged_end - merged_start) as usize;
        let mut merged_data: Vec<u8> = vec![0u8; merged_len];
        let mut i: usize = 0;
        proof {
            lemma_key_listing_ends(keys@, reached);
            assert(merged_data@ =~= zeros(merged_len as nat));
            assert(overlaid(Map::<u64, Seq<u8>>::empty(), merged_data@, merged_start as int)
                =~= merged_data@);
        }
        while i < keys.len()
            invariant
                i <= keys@.len(),
                is_key_listing(keys@, reached),
                reached == overlapping(all, write_offset as int, write_end as int),
                is_merge_range(
                    all,
                    write_offset as int,
                    write_end as int,
                    merged_start,
                    merged_end as int,
                ),
                merged_len == merged_end - merged_start,
                forall|key: u64| #[trigger]
                    committed@.contains_key(key) <==> all.contains_key(key) && !(
                    reached.contains_key(key) && key < key_bound(keys@, i as int)),
                forall|key: u64| #[trigger]
                    committed@.contains_key(key) ==> committed@[key]@ == all[key],
                merged_data@ == overlaid(
                    below(reached, key_bound(keys@, i as int)),
                    zeros(merged_len as nat),
                    merged_start as int,
                ),
            decreases keys@.len() - i,
        {
            broadcast use vstd::std_specs::btree::group_btree_axioms;

            let key: u64 = keys[i];
            proof {
                assert(reached.contains_key(key));
                assert(overlaps(all, key, write_offset as int, write_end as int));
                lemma_key_listing_step(keys@, reached, i as int);
                lemma_overlaid_insert_last(
                    below(reached, key_bound(keys@, i as int)),
                    key,
                    reached[key],
                    zeros(merged_len as nat),
                    merged_start as int,
                );
            }
            let data = committed.remove(&key).unwrap();
            copy_into(merged_data.as_mut_slice(), (key - merged_start) as usize, data.as_slice());
            i += 1;
        }

        // The write counts over them.
        copy_into(
            merged_data.as_mut_slice(),
            (write_offset - merged_start) as usize,
            write_data,
        );
        committed.insert(merged_start, merged_data);
        proof {
            lemma_key_listing_ends(keys@, reached);
            assert(entries(committed@) =~= merged(
                all,
                write_offset,
                write_data@,
                merged_start,
                merged_end as int,
            ));
        }
    }

    /// Consolidates committed entries by merging adjacent or overlapping regions.
    ///
    /// After this operation there is at least a 1-byte gap between consecutive entries.
    pub fn consolidate(committed: &mut BTreeMap<u64, Vec<u8>>)
        requires
            bounded(entries(old(committed)@)),
            runs_fit(entries(old(committed)@)),
        ensures
            is_consolidation(entries(old(committed)@), entries(final(committed)@)),
    {
        broadcast use vstd::std_specs::btree::group_btree_axioms;

        let list = list_entries(committed);
        let ghost all = entries(committed@);
        if list.len() <= 1 {
            return;
        }

        let mut out: BTreeMap<u64, Vec<u8>> = BTreeMap::new();
        let mut cur_offset: u64 = list[0].0;
        let mut cur_data: Vec<u8> = copy_range(list[0].1.as_slice(), 0, list[0].1.len());
        let mut i: usize = 1;
        proof {
            lemma_listing_ends(list@, committed@);
            lemma_listing_step(list@, committed@, 0);
            lemma_consolidated_first(cur_offset, cur_data@);
            assert(cur_data@ =~= list[0].1@);
            assert(entries(out@) =~= Map::<u64, Seq<u8>>::empty());
        }
        while i < list.len()
            invariant
                1 <= i <= list@.len(),
                is_listing(list@, committed@),
                all == entries(committed@),
                bounded(all),
                runs_fit(all),
                consolidated(
                    below(all, bound_at(list@, i as int)),
                    entries(out@),
                    cur_offset,
                    cur_data@,
                ),
            decreases list@.len() - i,
        {
            broadcast use vstd::std_specs::btree::group_btree_axioms;

            let next_offset: u64 = list[i].0;
            let next_data: &Vec<u8> = list[i].1;
            let ghost seen = below(all, bound_at(list@, i as int));
            let ghost emitted = entries(out@);
            let ghost data = cur_data@;
            proof {
                lemma_listing_step(list@, committed@, i as int);
                assert(all.contains_key(next_offset) && all[next_offset] == next_data@);
                assert(emitted.insert(cur_offset, data).contains_key(cur_offset));
                let last = choose|key: u64| #[trigger]
                    seen.contains_key(key) && end_of(seen, key) == cur_offset + data.len();
                assert(all.contains_key(last));
                if next_offset <= cur_offset + data.len() {
                    lemma_joins_run(all, emitted, cur_offset, data, next_offset);
                }
            }
            let cur_end: u64 = cur_offset + cur_data.len() as u64;
            if next_offset <= cur_end {
                // Overlapping or adjacent: merge.
                let next_end: u64 = next_offset + next_data.len() as u64;
                let new_end: u64 = if next_end > cur_end {
                    next_end
                } else {
                    cur_end
                };
                cur_data.resize((new_end - cur_offset) as usize, 0);
                copy_into(
                    cur_data.as_mut_slice(),
                    (next_offset - cur_offset) as usize,
                    next_data.as_slice(),
                );
                proof {
                    lemma_consolidated_extend(
                        seen,
                        emitted,
                        cur_offset,
                        data,
                        next_offset,
                        next_data@,
                        cur_data@,
                    );
                }
            } else {
                // Gap: emit the current region, start a new one.
                let ghost out_key = cur_offset;
                out.insert(cur_offset, cur_data);
                cur_offset = next_offset;
                cur_data = copy_range(next_data.as_slice(), 0, next_data.len());
                proof {
                    lemma_consolidated_start(
                        seen,
                        emitted,
                        out_key,
                        data,
                        next_offset,
                        next_data@,
                    );
                    assert(cur_data@ =~= next_data@);
                    assert(entries(out@) =~= emitted.insert(out_key, data));
                }
            }
            i += 1;
        }
        let ghost emitted = entries(out@);
        let ghost data = cur_data@;
        out.insert(cur_offset, cur_data);
        proof {
            lemma_listing_ends(list@, committed@);
            let runs = emitted.insert(cur_offset, data);
            assert(entries(out@) =~= runs);
            assert forall|key: u64| #[trigger] out@.contains_key(key) <==> is_run_start(
                all,
                key,
            ) by {
                assert(runs.contains_key(key) <==> out@.contains_key(key));
            }
        }
        *committed = out;
    }
}

} // verus!
