//! The operations of an [`Overlay`] and of its layers.

use std::collections::btree_map;
use std::collections::BTreeMap;

use vstd::prelude::*;
use vstd::std_specs::iter::IteratorSpec;

use crate::layer::{iter_entries, list_entries, overlapping_keys};
use crate::overlay::Overlay;

verus! {

use crate::layer::{
    covers,
    disjoint,
    entries,
    is_top,
    lemma_covered_has_top,
    lemma_disjoint_lookup,
    lemma_lookup_some,
    lemma_lookup_top,
    lookup,
    overlapping,
    overlaps,
    packed,
};
use crate::merge::{is_merge_range, merged};
use crate::runs::is_run_start;
use crate::trim::{lemma_written, lemma_written_keys, written};

/// Whether the entry at `key` covers the address, and none that starts later does.
pub open spec fn last_over(layer: Map<u64, Seq<u8>>, key: u64, addr: int) -> bool {
    &&& layer.contains_key(key)
    &&& key <= addr < key + layer[key].len()
    &&& forall|other: u64| #[trigger]
        layer.contains_key(other) && other <= addr < other + layer[other].len() ==> other <= key
}

/// Whether no entry covers the address.
pub open spec fn nothing_over(layer: Map<u64, Seq<u8>>, addr: int) -> bool {
    forall|other: u64| #[trigger]
        layer.contains_key(other) ==> !(other <= addr < other + layer[other].len())
}

/// The byte that a layer holds for an address is that of the entry that covers it and starts last,
/// and there is none where no entry covers it.
pub proof fn layer_holds_the_last_entry(layer: Map<u64, Seq<u8>>, addr: int, key: u64)
    ensures
        last_over(layer, key, addr) ==> lookup(layer, addr) == Some(
            layer[key][addr - key],
        ),
        nothing_over(layer, addr) ==> lookup(layer, addr) is None,
{
    if last_over(layer, key, addr) {
        assert forall|other: u64| covers(layer, other, addr) implies other <= key by {
            assert(layer.contains_key(other));
        }
        assert(is_top(layer, key, addr));
        lemma_lookup_top(layer, key, addr);
    }
    if nothing_over(layer, addr) {
        if lookup(layer, addr) is Some {
            let top = lemma_lookup_some(layer, addr);
            assert(layer.contains_key(top));
        }
    }
}

/// The entries of a map of vectors are those of the map.
pub proof fn entries_are_those_of_the_map(map: Map<u64, Vec<u8>>, key: u64)
    ensures
        entries(map).contains_key(key) <==> map.contains_key(key),
        map.contains_key(key) ==> entries(map)[key] == map[key]@,
{
}

/// A new overlay holds nothing.
pub proof fn new_overlay_is_empty(overlay: Overlay, key: u64)
    requires
        call_ensures(Overlay::new, (), overlay),
    ensures
        !overlay@.pending.contains_key(key),
        !overlay@.committed.contains_key(key),
{
}

/// What an overlay tells of itself: whether it has entries, and how many.
pub proof fn overlay_tells_what_it_holds(
    overlay: &Overlay,
    pending: bool,
    modified: bool,
    pending_count: usize,
    committed_count: usize,
    key: u64,
)
    requires
        call_ensures(Overlay::has_pending, (overlay,), pending),
        call_ensures(Overlay::has_modifications, (overlay,), modified),
        call_ensures(Overlay::pending_count, (overlay,), pending_count),
        call_ensures(Overlay::committed_count, (overlay,), committed_count),
    ensures
        overlay@.pending.contains_key(key) ==> pending && modified,
        overlay@.committed.contains_key(key) ==> modified,
        pending ==> exists|k: u64| overlay@.pending.contains_key(k),
        modified ==> pending || exists|k: u64| overlay@.committed.contains_key(k),
        pending_count == overlay@.pending.dom().len(),
        committed_count == overlay@.committed.dom().len(),
{
    if pending {
        if forall|k: u64| !overlay@.pending.contains_key(k) {
            assert(overlay@.pending =~= Map::<u64, Seq<u8>>::empty());
        }
    }
    if modified && !pending {
        if forall|k: u64| !overlay@.committed.contains_key(k) {
            assert(overlay@.committed =~= Map::<u64, Seq<u8>>::empty());
        }
    }
}

/// Walking the pending entries gives each of them once, by ascending address.
pub proof fn pending_entries_are_walked(
    overlay: &Overlay,
    iter: btree_map::Iter<'_, u64, Vec<u8>>,
    i: int,
    j: int,
    key: u64,
)
    requires
        call_ensures(Overlay::pending_entries, (overlay,), iter),
    ensures
        0 <= i < j < iter.remaining().len() ==> *iter.remaining()[i].0 < *iter.remaining()[j].0,
        0 <= i < iter.remaining().len() ==> overlay@.pending.contains_key(*iter.remaining()[i].0)
            && overlay@.pending[*iter.remaining()[i].0] == iter.remaining()[i].1@,
        overlay@.pending.contains_key(key) ==> exists|n: int|
            0 <= n < iter.remaining().len() && *(#[trigger] iter.remaining()[n]).0 == key,
{
}

/// Walking the committed entries gives each of them once, by ascending address.
pub proof fn committed_entries_are_walked(
    overlay: &Overlay,
    iter: btree_map::Iter<'_, u64, Vec<u8>>,
    i: int,
    j: int,
    key: u64,
)
    requires
        call_ensures(Overlay::committed_entries, (overlay,), iter),
    ensures
        0 <= i < j < iter.remaining().len() ==> *iter.remaining()[i].0 < *iter.remaining()[j].0,
        0 <= i < iter.remaining().len() ==> overlay@.committed.contains_key(*iter.remaining()[i].0)
            && overlay@.committed[*iter.remaining()[i].0] == iter.remaining()[i].1@,
        overlay@.committed.contains_key(key) ==> exists|n: int|
            0 <= n < iter.remaining().len() && *(#[trigger] iter.remaining()[n]).0 == key,
{
}

/// Walking and listing the entries of a map gives each of them once, by ascending address.
pub proof fn map_entries_are_listed(
    map: &BTreeMap<u64, Vec<u8>>,
    iter: btree_map::Iter<'_, u64, Vec<u8>>,
    list: Vec<(u64, &Vec<u8>)>,
    i: int,
    j: int,
    key: u64,
)
    requires
        call_ensures(iter_entries, (map,), iter),
        call_ensures(list_entries, (map,), list),
    ensures
        0 <= i < j < iter.remaining().len() ==> *iter.remaining()[i].0 < *iter.remaining()[j].0,
        0 <= i < iter.remaining().len() ==> map@.contains_key(*iter.remaining()[i].0)
            && map@[*iter.remaining()[i].0]@ == iter.remaining()[i].1@,
        map@.contains_key(key) ==> exists|n: int|
            0 <= n < iter.remaining().len() && *(#[trigger] iter.remaining()[n]).0 == key,
        0 <= i < j < list@.len() ==> list@[i].0 < list@[j].0,
        0 <= i < list@.len() ==> map@.contains_key(list@[i].0) && map@[list@[i].0]
            == *list@[i].1,
        map@.contains_key(key) ==> exists|n: int|
            0 <= n < list@.len() && (#[trigger] list@[n]).0 == key,
{
    assert(entries(map@).contains_key(key) <==> map@.contains_key(key));
    if 0 <= i < iter.remaining().len() {
        assert(entries(map@).contains_key(*iter.remaining()[i].0));
    }
    if map@.contains_key(key) {
        let n = choose|n: int| 0 <= n < list@.len() && #[trigger] list@[n].0 == key;
        assert(list@[n].0 == key);
    }
}

/// The keys of the entries that reach into a range are listed once each, in ascending order, and
/// no others.
pub proof fn overlapping_keys_are_listed(
    map: &BTreeMap<u64, Vec<u8>>,
    start: u64,
    end: u64,
    keys: Vec<u64>,
    i: int,
    j: int,
    key: u64,
)
    requires
        call_ensures(overlapping_keys, (map, start, end), keys),
    ensures
        0 <= i < j < keys@.len() ==> keys@[i] < keys@[j],
        keys@.contains(key) <==> map@.contains_key(key) && key < end && key + map@[key]@.len()
            > start,
{
    let reached = overlapping(entries(map@), start as int, end as int);
    if keys@.contains(key) {
        let n = choose|n: int| 0 <= n < keys@.len() && keys@[n] == key;
        assert(reached.contains_key(keys@[n]));
    }
    if map@.contains_key(key) && key < end && key + map@[key]@.len() > start {
        assert(reached.contains_key(key));
    }
}

/// A read through an overlay gives at each address the pending byte, else the committed one, else
/// that of the base.
pub proof fn overlay_read_gives_the_bytes(
    overlay: &Overlay,
    offset: u64,
    length: u64,
    base: &[u8],
    result: Vec<u8>,
    i: int,
    upper: u64,
    lower: u64,
)
    requires
        offset + length <= base@.len(),
        call_ensures(Overlay::read, (overlay, offset, length, base), result),
    ensures
        result@.len() == length,
        0 <= i < length ==> ({
            let pending = overlay@.pending;
            let committed = overlay@.committed;
            let addr: int = offset + i;
            &&& last_over(pending, upper, addr) ==> result@[i] == pending[upper][addr - upper]
            &&& nothing_over(pending, addr) && last_over(committed, lower, addr) ==> result@[i]
                == committed[lower][addr - lower]
            &&& nothing_over(pending, addr) && nothing_over(committed, addr) ==> result@[i]
                == base@[offset + i]
        }),
{
    layer_holds_the_last_entry(overlay@.pending, offset + i, upper);
    layer_holds_the_last_entry(overlay@.committed, offset + i, lower);
}

/// Materializing gives at each address the pending byte, else the committed one, else that of the
/// base.
pub proof fn materialize_gives_the_bytes(
    overlay: &Overlay,
    base: &[u8],
    output: Vec<u8>,
    i: int,
    upper: u64,
    lower: u64,
)
    requires
        call_ensures(Overlay::materialize, (overlay, base), output),
    ensures
        output@.len() == base@.len(),
        0 <= i < base@.len() ==> ({
            let pending = overlay@.pending;
            let committed = overlay@.committed;
            let addr: int = i;
            &&& last_over(pending, upper, addr) ==> output@[i] == pending[upper][addr - upper]
            &&& nothing_over(pending, addr) && last_over(committed, lower, addr) ==> output@[i]
                == committed[lower][addr - lower]
            &&& nothing_over(pending, addr) && nothing_over(committed, addr) ==> output@[i]
                == base@[i]
        }),
{
    layer_holds_the_last_entry(overlay@.pending, i, upper);
    layer_holds_the_last_entry(overlay@.committed, i, lower);
}

/// Reading all of a base through an overlay gives what materializing it gives.
pub proof fn whole_read_is_materialized(
    overlay: &Overlay,
    base: &[u8],
    length: u64,
    read: Vec<u8>,
    output: Vec<u8>,
)
    requires
        length == base@.len(),
        call_ensures(Overlay::read, (overlay, 0u64, length, base), read),
        call_ensures(Overlay::materialize, (overlay, base), output),
    ensures
        read@ == output@,
{
    assert(base@.subrange(0, length as int) =~= base@);
}

/// Applying a layer to a buffer gives each byte that of the entry that covers its address and
/// starts last, and leaves those that none covers.
pub proof fn apply_layer_applies_the_entries(
    layer: &BTreeMap<u64, Vec<u8>>,
    offset: u64,
    buf: &mut [u8],
    unit: (),
    i: int,
    key: u64,
)
    requires
        call_ensures(Overlay::apply_layer, (layer, offset, buf), unit),
        0 <= i < old(buf)@.len(),
    ensures
        final(buf)@.len() == old(buf)@.len(),
        layer@.contains_key(key) && key <= offset + i < key + layer@[key]@.len() && (forall|
            other: u64,
        | #[trigger]
            layer@.contains_key(other) && other <= offset + i < other + layer@[other]@.len()
                ==> other <= key) ==> final(buf)@[i] == layer@[key]@[offset + i - key],
        (forall|other: u64| #[trigger]
            layer@.contains_key(other) ==> !(other <= offset + i < other + layer@[other]@.len()))
            ==> final(buf)@[i] == old(buf)@[i],
{
    let all = entries(layer@);
    assert forall|k: u64| #[trigger] all.contains_key(k) implies layer@.contains_key(k) && all[k]
        == layer@[k]@ by {}
    layer_holds_the_last_entry(all, offset + i, key);
}

/// A write to an overlay leaves the committed entries. An empty one leaves the pending ones too.
/// Any other becomes a pending entry of its own. Of the other entries those parts stay that lie
/// outside it, as entries that start where they started or just past the write, and no two entries
/// cover one address.
pub proof fn overlay_write_is_recorded(
    overlay: &mut Overlay,
    offset: u64,
    data: &[u8],
    unit: (),
    key: u64,
    from: u64,
    i: int,
)
    requires
        call_ensures(Overlay::write, (overlay, offset, data), unit),
        data@.len() == 0 || offset + data@.len() <= u64::MAX,
        ({
            let before = old(overlay)@.pending;
            &&& forall|k: u64| #[trigger]
                before.contains_key(k) ==> before[k].len() > 0 && k + before[k].len() <= u64::MAX
            &&& forall|j: u64, k: u64|
                #![trigger before.contains_key(j), before.contains_key(k)]
                before.contains_key(j) && before.contains_key(k) && j < k ==> j + before[j].len()
                    <= k
        }),
    ensures
        final(overlay)@.committed == old(overlay)@.committed,
        data@.len() == 0 ==> final(overlay)@.pending == old(overlay)@.pending,
        data@.len() > 0 ==> ({
            let before = old(overlay)@.pending;
            let after = final(overlay)@.pending;
            let end = offset + data@.len();
            &&& after.contains_key(offset)
            &&& after[offset] == data@
            &&& key != offset ==> (after.contains_key(key) <==> !(offset <= key < end) && (
            before.contains_key(key) || (key == end && exists|k: u64| #[trigger]
                before.contains_key(k) && k < key < k + before[k].len())))
            // No other entry reaches into the write.
            &&& key != offset && after.contains_key(key) ==> key + after[key].len() <= offset
                || end <= key
            // Entries keep their bytes.
            &&& key != offset && after.contains_key(key) && 0 <= i < after[key].len()
                && before.contains_key(from) && from <= key + i < from + before[from].len()
                ==> after[key][i] == before[from][key + i - from]
            // Every byte of another entry was one before.
            &&& key != offset && after.contains_key(key) && 0 <= i < after[key].len()
                ==> exists|k: u64| #[trigger]
                before.contains_key(k) && k <= key + i < k + before[k].len()
            // No byte outside the write is lost.
            &&& before.contains_key(from) && 0 <= i < before[from].len() && !(offset <= from + i
                < end) ==> exists|k: u64| #[trigger]
                after.contains_key(k) && k <= from + i < k + after[k].len()
        }),
        // No entry is empty, and no two cover one address.
        ({
            let after = final(overlay)@.pending;
            &&& after.contains_key(key) ==> after[key].len() > 0
            &&& after.contains_key(key) && after.contains_key(from) && key < from ==> key
                + after[key].len() <= from
        }),
{
    let before = old(overlay)@.pending;
    let after = final(overlay)@.pending;
    assert(packed(before));
    if data@.len() > 0 {
        lemma_written(before, offset, data@);
        lemma_written_keys(before, offset, data@, key);
        assert(after == written(before, offset, data@));
        if key == offset + data@.len() {
            if lookup(before, key as int) is Some && !before.contains_key(key) {
                let k = lemma_lookup_some(before, key as int);
                assert(before.contains_key(k) && k < key < k + before[k].len());
            }
            if exists|k: u64| #[trigger]
                before.contains_key(k) && k < key < k + before[k].len() {
                let k = choose|k: u64| #[trigger]
                    before.contains_key(k) && k < key < k + before[k].len();
                lemma_disjoint_lookup(before, k, key as int);
            }
        }
        if key != offset && after.contains_key(key) {
            assert(after.contains_key(offset));
            if 0 <= i < after[key].len() {
                lemma_disjoint_lookup(after, key, key + i);
                assert(lookup(after, key + i) == lookup(before, key + i));
                let k = lemma_lookup_some(before, key + i);
                assert(before.contains_key(k));
                if before.contains_key(from) && from <= key + i < from + before[from].len() {
                    lemma_disjoint_lookup(before, from, key + i);
                }
            }
        }
        if before.contains_key(from) && 0 <= i < before[from].len() && !(offset <= from + i
            < offset + data@.len()) {
            lemma_disjoint_lookup(before, from, from + i);
            assert(lookup(after, from + i) == lookup(before, from + i));
            let k = lemma_lookup_some(after, from + i);
            assert(after.contains_key(k));
        }
    }
}

/// What a read gives after a write to an overlay: the bytes of the write at its addresses, and what
/// the read gave before at every other.
pub proof fn overlay_write_then_read(
    overlay: &mut Overlay,
    offset: u64,
    data: &[u8],
    unit: (),
    before: &Overlay,
    after: &Overlay,
    start: u64,
    length: u64,
    base: &[u8],
    earlier: Vec<u8>,
    later: Vec<u8>,
    i: int,
)
    requires
        call_ensures(Overlay::write, (overlay, offset, data), unit),
        data@.len() == 0 || offset + data@.len() <= u64::MAX,
        old(overlay)@.well_formed(),
        *before == *old(overlay),
        *after == *final(overlay),
        start + length <= base@.len(),
        call_ensures(Overlay::read, (before, start, length, base), earlier),
        call_ensures(Overlay::read, (after, start, length, base), later),
        0 <= i < length,
    ensures
        later@[i] == (if offset <= start + i < offset + data@.len() {
            data@[start + i - offset]
        } else {
            earlier@[i]
        }),
{
    if data@.len() > 0 {
        lemma_written(before@.pending, offset, data@);
        assert(lookup(after@.pending, start + i) == lookup(after@.pending, start + i));
    }
}

/// A commit leaves nothing pending. The committed entries are non-empty with a gap between any two.
/// An address is covered afterwards exactly where it was, and holds the pending byte, or else the
/// committed one.
pub proof fn overlay_commit_joins_the_layers(
    overlay: &mut Overlay,
    unit: (),
    addr: int,
    key: u64,
    other: u64,
    upper: u64,
    lower: u64,
)
    requires
        call_ensures(Overlay::commit, (overlay,), unit),
    ensures
        !final(overlay)@.pending.contains_key(key),
        ({
            let pending = old(overlay)@.pending;
            let committed = old(overlay)@.committed;
            let after = final(overlay)@.committed;
            &&& after.contains_key(key) ==> after[key].len() > 0
            &&& after.contains_key(key) && after.contains_key(other) && key < other ==> key
                + after[key].len() < other
            // No byte is lost.
            &&& !nothing_over(pending, addr) || !nothing_over(committed, addr) ==> exists|k: u64|
             #[trigger] after.contains_key(k) && k <= addr < k + after[k].len()
            // None is made up, and each is the newest.
            &&& after.contains_key(key) && key <= addr < key + after[key].len() ==> {
                &&& !nothing_over(pending, addr) || !nothing_over(committed, addr)
                &&& last_over(pending, upper, addr) ==> after[key][addr - key]
                    == pending[upper][addr - upper]
                &&& nothing_over(pending, addr) && last_over(committed, lower, addr)
                    ==> after[key][addr - key] == committed[lower][addr - lower]
            }
        }),
{
    let pending = old(overlay)@.pending;
    let committed = old(overlay)@.committed;
    let after = final(overlay)@.committed;
    assert(lookup(after, addr) == lookup(after, addr));
    layer_holds_the_last_entry(pending, addr, upper);
    layer_holds_the_last_entry(committed, addr, lower);
    if !nothing_over(pending, addr) {
        let holder = choose|k: u64| #[trigger]
            pending.contains_key(k) && k <= addr < k + pending[k].len();
        lemma_covered_has_top(pending, holder, addr);
        let k = lemma_lookup_some(after, addr);
        assert(after.contains_key(k));
    }
    if !nothing_over(committed, addr) {
        let holder = choose|k: u64| #[trigger]
            committed.contains_key(k) && k <= addr < k + committed[k].len();
        lemma_covered_has_top(committed, holder, addr);
        let k = lemma_lookup_some(after, addr);
        assert(after.contains_key(k));
    }
    if after.contains_key(key) && key <= addr < key + after[key].len() {
        lemma_disjoint_lookup(after, key, addr);
        if lookup(pending, addr) is Some {
            let k = lemma_lookup_some(pending, addr);
            assert(pending.contains_key(k));
        } else {
            let k = lemma_lookup_some(committed, addr);
            assert(committed.contains_key(k));
        }
    }
}

/// A read through an overlay gives the same before and after a commit.
pub proof fn overlay_commit_then_read(
    overlay: &mut Overlay,
    unit: (),
    before: &Overlay,
    after: &Overlay,
    start: u64,
    length: u64,
    base: &[u8],
    earlier: Vec<u8>,
    later: Vec<u8>,
)
    requires
        call_ensures(Overlay::commit, (overlay,), unit),
        *before == *old(overlay),
        *after == *final(overlay),
        start + length <= base@.len(),
        call_ensures(Overlay::read, (before, start, length, base), earlier),
        call_ensures(Overlay::read, (after, start, length, base), later),
    ensures
        later@ == earlier@,
{
    crate::laws::overlay_commit_keeps_reads(
        before@,
        after@,
        base@.subrange(start as int, start + length),
        start as int,
    );
}

/// Consolidating leaves a gap between any two entries. An address is covered afterwards exactly
/// where it was, and holds the byte of the entry that started last there. Each entry starts where
/// one started that no entry before it reaches or touches.
pub proof fn consolidate_joins_the_entries(
    layer: &mut BTreeMap<u64, Vec<u8>>,
    unit: (),
    addr: int,
    key: u64,
    other: u64,
    from: u64,
)
    requires
        call_ensures(Overlay::consolidate, (layer,), unit),
    ensures
        ({
            let before = old(layer)@;
            let after = final(layer)@;
            &&& after.contains_key(key) <==> before.contains_key(key) && (forall|k: u64| #[trigger]
                before.contains_key(k) && k < key ==> k + before[k]@.len() < key)
            &&& after.contains_key(key) && after.contains_key(other) && key < other ==> key
                + after[key]@.len() < other
            // No byte is lost.
            &&& before.contains_key(from) && from <= addr < from + before[from]@.len()
                ==> exists|k: u64| #[trigger]
                after.contains_key(k) && k <= addr < k + after[k]@.len()
            // None is made up.
            &&& after.contains_key(key) && key <= addr < key + after[key]@.len() ==> exists|k: u64|
             #[trigger] before.contains_key(k) && k <= addr < k + before[k]@.len()
            // Each is that of the entry that started last.
            &&& after.contains_key(key) && key <= addr < key + after[key]@.len()
                && before.contains_key(from) && from <= addr < from + before[from]@.len() && (
            forall|k: u64| #[trigger]
                before.contains_key(k) && k <= addr < k + before[k]@.len() ==> k <= from)
                ==> after[key]@[addr - key] == before[from]@[addr - from]
        }),
{
    let was = old(layer)@;
    let now = final(layer)@;
    let before = entries(was);
    let after = entries(now);
    assert forall|k: u64| before.contains_key(k) <==> was.contains_key(k) by {}
    assert forall|k: u64| after.contains_key(k) <==> now.contains_key(k) by {}
    assert(after.contains_key(key) <==> is_run_start(before, key));
    if forall|k: u64| #[trigger]
        was.contains_key(k) && k < key ==> k + was[k]@.len() < key {
        assert forall|k: u64| #[trigger] before.contains_key(k) && k < key implies k
            + before[k].len() < key by {
            assert(was.contains_key(k));
        }
    }
    if is_run_start(before, key) {
        assert forall|k: u64| #[trigger] was.contains_key(k) && k < key implies k + was[k]@.len()
            < key by {
            assert(before.contains_key(k));
        }
    }
    assert(after.contains_key(other) <==> now.contains_key(other));
    assert(disjoint(after));
    assert(lookup(after, addr) == lookup(before, addr));
    if was.contains_key(from) && from <= addr < from + was[from]@.len() {
        lemma_covered_has_top(before, from, addr);
        let k = lemma_lookup_some(after, addr);
        assert(now.contains_key(k));
    }
    if now.contains_key(key) && key <= addr < key + now[key]@.len() {
        lemma_disjoint_lookup(after, key, addr);
        let k = lemma_lookup_some(before, addr);
        assert(was.contains_key(k));
        if was.contains_key(from) && from <= addr < from + was[from]@.len() && (forall|k: u64|
         #[trigger]
            was.contains_key(k) && k <= addr < k + was[k]@.len() ==> k <= from) {
            assert forall|k: u64| #[trigger] before.contains_key(k) && k <= addr < k
                + before[k].len() implies k <= from by {
                assert(was.contains_key(k));
            }
            layer_holds_the_last_entry(before, addr, from);
        }
    }
}

/// Merging a write leaves the entries that it does not reach into. It becomes one entry together
/// with those that it reaches into, from the first of their addresses to the last, in which it
/// holds its own bytes, and else that of the entry that started last.
pub proof fn merge_makes_one_entry(
    layer: &mut BTreeMap<u64, Vec<u8>>,
    offset: u64,
    data: &[u8],
    unit: (),
    lo: u64,
)
    requires
        call_ensures(Overlay::merge_into_committed, (layer, offset, data), unit),
        // The first address of the write and of the entries that it reaches into.
        lo <= offset,
        ({
            let was = old(layer)@;
            let end = offset + data@.len();
            &&& lo == offset || (was.contains_key(lo) && lo < end && lo + was[lo]@.len() > offset)
            &&& forall|k: u64| #[trigger]
                was.contains_key(k) && k < end && k + was[k]@.len() > offset ==> lo <= k
        }),
    ensures
        ({
            let was = old(layer)@;
            let now = final(layer)@;
            let end = offset + data@.len();
            &&& now.contains_key(lo)
            &&& end <= lo + now[lo]@.len()
            // It ends with the write or with an entry that the write reaches into.
            &&& lo + now[lo]@.len() == end || exists|k: u64| #[trigger]
                was.contains_key(k) && k < end && k + was[k]@.len() > offset && k + was[k]@.len()
                    == lo + now[lo]@.len()
            &&& forall|k: u64| #[trigger]
                was.contains_key(k) && k < end && k + was[k]@.len() > offset ==> k + was[k]@.len()
                    <= lo + now[lo]@.len()
            // The others stay.
            &&& forall|k: u64|
                k != lo ==> (#[trigger] now.contains_key(k) <==> was.contains_key(k) && !(k < end
                    && k + was[k]@.len() > offset))
            &&& forall|k: u64| k != lo && #[trigger] now.contains_key(k) ==> now[k]@ == was[k]@
            // The write holds its bytes.
            &&& forall|i: int|
                0 <= i < data@.len() ==> now[lo]@[offset + i - lo] == #[trigger] data@[i]
            // The entries hold theirs beside it, the one that started last counting.
            &&& forall|addr: int, k: u64|
                !(offset <= addr < end) && #[trigger] was.contains_key(k) && k < end && k
                    + was[k]@.len() > offset && k <= addr < k + was[k]@.len() && (forall|m: u64|
                 #[trigger]
                    was.contains_key(m) && m < end && m + was[m]@.len() > offset && m <= addr < m
                        + was[m]@.len() ==> m <= k) ==> #[trigger] now[lo]@[addr - lo]
                    == was[k]@[addr - k]
        }),
{
    let was = old(layer)@;
    let now = final(layer)@;
    let before = entries(was);
    let after = entries(now);
    let end = offset + data@.len();
    let (first, hi) = choose|first: u64, hi: int|
        {
            &&& #[trigger] is_merge_range(before, offset as int, end, first, hi)
            &&& after == merged(before, offset, data@, first, hi)
        };
    if first != offset {
        assert(was.contains_key(first));
    }
    if lo != offset {
        assert(overlaps(before, lo, offset as int, end));
    }
    assert(first == lo);
    let reached = overlapping(before, offset as int, end);
    assert(after.contains_key(lo));
    assert(after[lo].len() == hi - lo);
    assert forall|k: u64| was.contains_key(k) <==> before.contains_key(k) by {}
    assert forall|k: u64| #[trigger]
        was.contains_key(k) && k < end && k + was[k]@.len() > offset implies overlaps(
        before,
        k,
        offset as int,
        end,
    ) by {}
    if hi != end {
        let k = choose|k: u64| #[trigger]
            overlaps(before, k, offset as int, end) && k + before[k].len() == hi;
        assert(was.contains_key(k));
    }
    assert forall|k: u64| k != lo implies (#[trigger] now.contains_key(k) <==> was.contains_key(k)
        && !(k < end && k + was[k]@.len() > offset)) by {
        assert(after.contains_key(k) <==> now.contains_key(k));
    }
    assert forall|k: u64| k != lo && #[trigger] now.contains_key(k) implies now[k]@ == was[k]@ by {
        assert(after.contains_key(k));
        assert(after[k] == before[k]);
    }
    assert forall|i: int| 0 <= i < data@.len() implies now[lo]@[offset + i - lo]
        == #[trigger] data@[i] by {
        assert(after[lo][offset + i - lo] == data@[i]);
    }
    assert forall|addr: int, k: u64|
        !(offset <= addr < end) && #[trigger] was.contains_key(k) && k < end && k + was[k]@.len()
            > offset && k <= addr < k + was[k]@.len() && (forall|m: u64| #[trigger]
            was.contains_key(m) && m < end && m + was[m]@.len() > offset && m <= addr < m
                + was[m]@.len() ==> m <= k) implies #[trigger] now[lo]@[addr - lo] == was[k]@[addr
        - k] by {
        assert(overlaps(before, k, offset as int, end));
        assert forall|m: u64| #[trigger]
            reached.contains_key(m) && m <= addr < m + reached[m].len() implies m <= k by {
            assert(was.contains_key(m));
        }
        layer_holds_the_last_entry(reached, addr, k);
        assert(lookup(reached, lo + (addr - lo)) == Some(before[k][addr - k]));
        assert(after[lo][addr - lo] == before[k][addr - k]);
    }
}

} // verus!
