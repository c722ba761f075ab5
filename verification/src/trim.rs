//! Writing into a layer: the entries that a write reaches into are trimmed.

use vstd::prelude::*;

verus! {

use crate::layer::{
    below,
    end_of,
    is_key_listing,
    key_bound,
    lemma_key_listing_step,
    lemma_lookup_some,
    lemma_disjoint_lookup,
    lookup,
    overlapping,
    overlaps,
    packed,
};

/// Whether the entry at `key` starts below address `end` and goes on at it.
pub open spec fn straddles(layer: Map<u64, Seq<u8>>, key: u64, end: int) -> bool {
    layer.contains_key(key) && key < end < end_of(layer, key)
}

/// The layer with the addresses from `start` up to `end` cut out of its entries: of an entry
/// that reaches into them, what lies before `start` and what lies from `end` on stays.
pub open spec fn trimmed(layer: Map<u64, Seq<u8>>, start: int, end: int) -> Map<u64, Seq<u8>> {
    Map::new(
        |key: u64|
            {
                ||| layer.contains_key(key) && (key < start || end <= key)
                ||| key == end && exists|from: u64| straddles(layer, from, end)
            },
        |key: u64|
            if key == end && exists|from: u64| straddles(layer, from, end) {
                let from = choose|from: u64| straddles(layer, from, end);
                layer[from].skip(end - from)
            } else if key < start && start < end_of(layer, key) {
                layer[key].take(start - key)
            } else {
                layer[key]
            },
    )
}

/// The layer after a write: the bytes of the write are one entry, cut out of all others.
pub open spec fn written(layer: Map<u64, Seq<u8>>, offset: u64, data: Seq<u8>) -> Map<
    u64,
    Seq<u8>,
> {
    if data.len() == 0 {
        layer
    } else {
        trimmed(layer, offset as int, offset + data.len()).insert(offset, data)
    }
}

/// The layer with the addresses from `start` up to `end` cut out of the entries below `bound`.
pub open spec fn trimmed_below(layer: Map<u64, Seq<u8>>, start: int, end: int, bound: int) -> Map<
    u64,
    Seq<u8>,
> {
    trimmed(below(layer, bound), start, end).union_prefer_right(
        Map::new(|key: u64| layer.contains_key(key) && bound <= key, |key: u64| layer[key]),
    )
}

/// Cutting the addresses out of one more entry.
pub proof fn lemma_trimmed_step(
    layer: Map<u64, Seq<u8>>,
    start: int,
    end: int,
    keys: Seq<u64>,
    i: int,
)
    requires
        packed(layer),
        0 <= start < end <= u64::MAX,
        is_key_listing(keys, overlapping(layer, start, end)),
        0 <= i < keys.len(),
    ensures
        ({
            let key = keys[i];
            let whole = trimmed_below(layer, start, end, key_bound(keys, i));
            let gone = whole.remove(key);
            let front = if key < start {
                gone.insert(key, layer[key].take(start - key))
            } else {
                gone
            };
            let both = if end < end_of(layer, key) {
                front.insert(end as u64, layer[key].skip(end - key))
            } else {
                front
            };
            &&& whole.contains_key(key)
            &&& whole[key] == layer[key]
            &&& trimmed_below(layer, start, end, key_bound(keys, i + 1)) == both
        }),
{
    let key = keys[i];
    let reached = overlapping(layer, start, end);
    let bound = key_bound(keys, i);
    let next = key_bound(keys, i + 1);
    let whole = trimmed_below(layer, start, end, bound);
    let gone = whole.remove(key);
    let front = if key < start {
        gone.insert(key, layer[key].take(start - key))
    } else {
        gone
    };
    let both = if end < end_of(layer, key) {
        front.insert(end as u64, layer[key].skip(end - key))
    } else {
        front
    };
    let seen = below(layer, bound);
    let more = below(layer, next);
    lemma_key_listing_step(keys, reached, i);
    assert(reached.contains_key(key));
    assert(layer.contains_key(key));
    assert forall|from: u64| !straddles(seen, from, end) by {
        if straddles(seen, from, end) {
            assert(layer.contains_key(from));
        }
    }
    if end < end_of(layer, key) {
        assert(straddles(more, key, end));
        assert forall|from: u64| straddles(more, from, end) implies from == key by {
            assert(layer.contains_key(from));
        }
    } else {
        assert forall|from: u64| !straddles(more, from, end) by {
            if straddles(more, from, end) {
                assert(layer.contains_key(from));
                assert(reached.contains_key(from));
            }
        }
    }
    let result = trimmed_below(layer, start, end, next);
    assert forall|k: u64| #[trigger] result.contains_key(k) <==> both.contains_key(k) by {
        if layer.contains_key(k) && key < k < next {
            assert(!reached.contains_key(k));
        }
    }
    assert forall|k: u64| #[trigger] result.contains_key(k) implies result[k] == both[k] by {
        if layer.contains_key(k) && key < k < next {
            assert(!reached.contains_key(k));
        }
    }
    assert(result =~= both);
}

/// Before the first entry that is reached nothing is cut out, and past the last all is.
pub proof fn lemma_trimmed_ends(layer: Map<u64, Seq<u8>>, start: int, end: int, keys: Seq<u64>)
    requires
        packed(layer),
        0 <= start < end <= u64::MAX,
        is_key_listing(keys, overlapping(layer, start, end)),
    ensures
        trimmed_below(layer, start, end, key_bound(keys, 0)) == layer,
        trimmed_below(layer, start, end, key_bound(keys, keys.len() as int)) == trimmed(
            layer,
            start,
            end,
        ),
{
    let reached = overlapping(layer, start, end);
    let first = key_bound(keys, 0);
    assert forall|k: u64| layer.contains_key(k) && k < first implies !overlaps(
        layer,
        k,
        start,
        end,
    ) by {
        if overlaps(layer, k, start, end) {
            assert(reached.contains_key(k));
            let j = choose|j: int| 0 <= j < keys.len() && #[trigger] keys[j] == k;
            assert(keys[0] <= keys[j]);
        }
    }
    assert forall|from: u64| !straddles(below(layer, first), from, end) by {
        if straddles(below(layer, first), from, end) {
            assert(overlaps(layer, from, start, end));
        }
    }
    assert(trimmed_below(layer, start, end, first) =~= layer);
    let last = key_bound(keys, keys.len() as int);
    assert(below(layer, last) =~= layer);
    assert(trimmed_below(layer, start, end, last) =~= trimmed(layer, start, end));
}

/// A write keeps a layer packed, and is what the layer then holds at its addresses.
pub proof fn lemma_written(layer: Map<u64, Seq<u8>>, offset: u64, data: Seq<u8>)
    requires
        packed(layer),
        offset + data.len() <= u64::MAX,
    ensures
        packed(written(layer, offset, data)),
        forall|addr: int| #[trigger]
            lookup(written(layer, offset, data), addr) == (if offset <= addr < offset
                + data.len() {
                Some(data[addr - offset])
            } else {
                lookup(layer, addr)
            }),
{
    if data.len() > 0 {
        let start = offset as int;
        let end = offset + data.len();
        let after = written(layer, offset, data);
        if exists|from: u64| straddles(layer, from, end) {
            let from = choose|from: u64| straddles(layer, from, end);
            assert(layer.contains_key(from));
            assert forall|k: u64| #[trigger] layer.contains_key(k) && from < k implies end
                < k by {}
        }
        assert forall|k: u64| #[trigger] after.contains_key(k) implies after[k].len() > 0
            && end_of(after, k) <= u64::MAX by {
            if layer.contains_key(k) {
            }
        }
        assert forall|j: u64, k: u64|
            #![trigger after.contains_key(j), after.contains_key(k)]
            after.contains_key(j) && after.contains_key(k) && j < k implies end_of(after, j)
            <= k by {
            if layer.contains_key(j) {
            }
            if layer.contains_key(k) {
            }
        }
        assert(packed(after));
        assert forall|addr: int| #[trigger]
            lookup(after, addr) == (if start <= addr < end {
                Some(data[addr - offset])
            } else {
                lookup(layer, addr)
            }) by {
            if start <= addr < end {
                lemma_disjoint_lookup(after, offset, addr);
            } else if lookup(layer, addr) is Some {
                let key = lemma_lookup_some(layer, addr);
                if key < end <= addr {
                    assert(straddles(layer, key, end));
                    let from = choose|from: u64| straddles(layer, from, end);
                    assert(layer.contains_key(from));
                    assert(from == key);
                    lemma_disjoint_lookup(after, end as u64, addr);
                } else {
                    lemma_disjoint_lookup(after, key, addr);
                }
            } else if lookup(after, addr) is Some {
                let key = lemma_lookup_some(after, addr);
                if key == end && exists|from: u64| straddles(layer, from, end) {
                    let from = choose|from: u64| straddles(layer, from, end);
                    lemma_disjoint_lookup(layer, from, addr);
                } else {
                    lemma_disjoint_lookup(layer, key, addr);
                }
            }
        }
    }
}

/// Where the entries of a packed layer start after a write: at the write, where entries started
/// outside it, and just past it where the layer goes on.
pub proof fn lemma_written_keys(layer: Map<u64, Seq<u8>>, offset: u64, data: Seq<u8>, key: u64)
    requires
        packed(layer),
        data.len() > 0,
        offset + data.len() <= u64::MAX,
    ensures
        written(layer, offset, data).contains_key(key) <==> key == offset || (!(offset <= key
            < offset + data.len()) && (layer.contains_key(key) || (key == offset + data.len()
            && lookup(layer, key as int) is Some))),
{
    let end = offset + data.len();
    if key == end {
        if exists|from: u64| straddles(layer, from, end) {
            let from = choose|from: u64| straddles(layer, from, end);
            lemma_disjoint_lookup(layer, from, end);
        } else if lookup(layer, end) is Some {
            let from = lemma_lookup_some(layer, end);
            assert(!straddles(layer, from, end));
        }
    }
}

} // verus!
