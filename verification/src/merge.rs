//! Merging a write into a layer: the write and the entries that it reaches into become one entry.

use vstd::prelude::*;

verus! {

use crate::bytes::splice;
use crate::layer::{
    end_of,
    lemma_lookup_some,
    lemma_disjoint_lookup,
    lookup,
    overlaid,
    overlapping,
    overlaps,
    packed,
    within,
};

/// Whether the addresses from `lo` up to `hi` are those of a write from `start` up to `end`
/// together with all entries that reach into it.
pub open spec fn is_merge_range(
    layer: Map<u64, Seq<u8>>,
    start: int,
    end: int,
    lo: u64,
    hi: int,
) -> bool {
    &&& lo <= start
    &&& end <= hi
    &&& lo == start || overlaps(layer, lo, start, end)
    &&& hi == end || exists|key: u64| #[trigger]
        overlaps(layer, key, start, end) && end_of(layer, key) == hi
    &&& forall|key: u64| #[trigger]
        overlaps(layer, key, start, end) ==> lo <= key && end_of(layer, key) <= hi
}

/// The entries that do not reach into the addresses from `start` up to `end`.
pub open spec fn untouched(layer: Map<u64, Seq<u8>>, start: int, end: int) -> Map<u64, Seq<u8>> {
    Map::new(
        |key: u64| layer.contains_key(key) && !overlaps(layer, key, start, end),
        |key: u64| layer[key],
    )
}

/// `len` zero bytes.
pub open spec fn zeros(len: nat) -> Seq<u8> {
    Seq::new(len, |i: int| 0u8)
}

/// The layer with a write and all entries that reach into it replaced by one entry for the
/// addresses from `lo` up to `hi`, in which the bytes of the write count over those of the
/// entries.
pub open spec fn merged(
    layer: Map<u64, Seq<u8>>,
    offset: u64,
    data: Seq<u8>,
    lo: u64,
    hi: int,
) -> Map<u64, Seq<u8>> {
    let end = offset + data.len();
    untouched(layer, offset as int, end).insert(
        lo,
        splice(
            overlaid(overlapping(layer, offset as int, end), zeros((hi - lo) as nat), lo as int),
            offset - lo,
            data,
        ),
    )
}

/// A write and the entries that it reaches into lie below where they all do.
pub proof fn lemma_merge_range_within(
    layer: Map<u64, Seq<u8>>,
    start: int,
    end: int,
    lo: u64,
    hi: int,
    len: int,
)
    requires
        is_merge_range(layer, start, end, lo, hi),
        within(layer, len),
        end <= len,
    ensures
        hi <= len,
{
    if hi != end {
        let key = choose|key: u64| #[trigger]
            overlaps(layer, key, start, end) && end_of(layer, key) == hi;
        assert(layer.contains_key(key));
    }
}

/// Merging a write into a packed layer keeps it packed, and the write is what the layer then
/// holds at its addresses.
pub proof fn lemma_merged(
    layer: Map<u64, Seq<u8>>,
    offset: u64,
    data: Seq<u8>,
    lo: u64,
    hi: int,
)
    requires
        packed(layer),
        data.len() > 0,
        offset + data.len() <= u64::MAX,
        is_merge_range(layer, offset as int, offset + data.len(), lo, hi),
    ensures
        packed(merged(layer, offset, data, lo, hi)),
        forall|addr: int| #[trigger]
            lookup(merged(layer, offset, data, lo, hi), addr) == (if offset <= addr < offset
                + data.len() {
                Some(data[addr - offset])
            } else {
                lookup(layer, addr)
            }),
{
    let start = offset as int;
    let end = offset + data.len();
    let after = merged(layer, offset, data, lo, hi);
    let reached = overlapping(layer, start, end);
    if hi != end {
        let key = choose|key: u64| #[trigger]
            overlaps(layer, key, start, end) && end_of(layer, key) == hi;
        assert(layer.contains_key(key));
    }
    if lo != start {
        assert(layer.contains_key(lo));
    }
    assert(after[lo].len() == hi - lo);
    assert forall|k: u64| #[trigger] after.contains_key(k) implies after[k].len() > 0 && end_of(
        after,
        k,
    ) <= u64::MAX by {
        if k != lo {
            assert(layer.contains_key(k));
        }
    }
    assert forall|j: u64, k: u64|
        #![trigger after.contains_key(j), after.contains_key(k)]
        after.contains_key(j) && after.contains_key(k) && j < k implies end_of(after, j) <= k by {
        if j != lo {
            assert(layer.contains_key(j));
        }
        if k != lo {
            assert(layer.contains_key(k));
        }
    }
    assert(packed(after));
    assert forall|addr: int| #[trigger]
        lookup(after, addr) == (if start <= addr < end {
            Some(data[addr - offset])
        } else {
            lookup(layer, addr)
        }) by {
        if lo <= addr < hi {
            lemma_disjoint_lookup(after, lo, addr);
            if !(start <= addr < end) {
                let key = if addr < start {
                    lo
                } else {
                    choose|key: u64| #[trigger]
                        overlaps(layer, key, start, end) && end_of(layer, key) == hi
                };
                assert(overlaps(layer, key, start, end));
                lemma_disjoint_lookup(layer, key, addr);
                assert(packed(reached)) by {
                    assert forall|j: u64, k: u64|
                        #![trigger reached.contains_key(j), reached.contains_key(k)]
                        reached.contains_key(j) && reached.contains_key(k) && j
                            < k implies end_of(reached, j) <= k by {
                        assert(layer.contains_key(j) && layer.contains_key(k));
                    }
                }
                lemma_disjoint_lookup(reached, key, addr);
                assert(lookup(reached, lo + (addr - lo)) == lookup(layer, addr));
            }
        } else if lookup(layer, addr) is Some {
            let key = lemma_lookup_some(layer, addr);
            assert(!overlaps(layer, key, start, end));
            lemma_disjoint_lookup(after, key, addr);
        } else if lookup(after, addr) is Some {
            let key = lemma_lookup_some(after, addr);
            lemma_disjoint_lookup(layer, key, addr);
        }
    }
}

} // verus!
