//! Runs: entries of a layer that overlap or follow on each other, to be consolidated into one.

use vstd::prelude::*;

verus! {

use crate::layer::{
    below,
    covers,
    end_of,
    gapped,
    lemma_covered_has_top,
    lemma_lookup_insert_last,
    lemma_lookup_some,
    lemma_disjoint_lookup,
    lookup,
    packed,
    separated,
    within,
};

/// Whether the entry at `key` starts a run of entries: every entry before it ends at an address
/// below `key`, so that it neither overlaps them nor follows on them.
pub open spec fn is_run_start(layer: Map<u64, Seq<u8>>, key: u64) -> bool {
    &&& layer.contains_key(key)
    &&& forall|other: u64| #[trigger]
        layer.contains_key(other) && other < key ==> end_of(layer, other) < key
}

/// Whether the entries at `first` and `last` belong to one run.
pub open spec fn in_one_run(layer: Map<u64, Seq<u8>>, first: u64, last: u64) -> bool {
    &&& layer.contains_key(first)
    &&& layer.contains_key(last)
    &&& first <= last
    &&& forall|key: u64| first < key <= last ==> !#[trigger] is_run_start(layer, key)
}

/// Every run fits in a vector.
pub open spec fn runs_fit(layer: Map<u64, Seq<u8>>) -> bool {
    forall|first: u64, last: u64| #[trigger]
        in_one_run(layer, first, last) ==> end_of(layer, last) - first <= usize::MAX
}

/// Whether the entries of `runs` are the runs of `layer`: they start where the runs start, at
/// least one address that none covers lies between any two, and they hold the same bytes.
pub open spec fn is_consolidation(layer: Map<u64, Seq<u8>>, runs: Map<u64, Seq<u8>>) -> bool {
    &&& forall|key: u64| #[trigger] runs.contains_key(key) <==> is_run_start(layer, key)
    &&& gapped(runs)
    &&& forall|addr: int| #[trigger] lookup(runs, addr) == lookup(layer, addr)
}

/// Whether the entries of `out`, followed by one of `data` at `offset`, are the runs of the
/// entries of `seen`.
pub open spec fn consolidated(
    seen: Map<u64, Seq<u8>>,
    out: Map<u64, Seq<u8>>,
    offset: u64,
    data: Seq<u8>,
) -> bool {
    &&& forall|key: u64| #[trigger]
        out.contains_key(key) ==> key < offset && end_of(out, key) < offset
    &&& gapped(out)
    &&& forall|key: u64| #[trigger]
        out.insert(offset, data).contains_key(key) <==> is_run_start(seen, key)
    &&& forall|addr: int| #[trigger]
        lookup(out.insert(offset, data), addr) == lookup(seen, addr)
    &&& forall|key: u64| #[trigger]
        seen.contains_key(key) ==> end_of(seen, key) <= offset + data.len()
    &&& exists|key: u64| #[trigger]
        seen.contains_key(key) && end_of(seen, key) == offset + data.len()
}

/// A single entry is a run.
pub proof fn lemma_consolidated_first(key: u64, data: Seq<u8>)
    ensures
        consolidated(
            Map::<u64, Seq<u8>>::empty().insert(key, data),
            Map::<u64, Seq<u8>>::empty(),
            key,
            data,
        ),
{
    let seen = Map::<u64, Seq<u8>>::empty().insert(key, data);
    assert(seen.contains_key(key));
}

/// An entry that overlaps the last run or follows on it extends it.
pub proof fn lemma_consolidated_extend(
    seen: Map<u64, Seq<u8>>,
    out: Map<u64, Seq<u8>>,
    offset: u64,
    data: Seq<u8>,
    key: u64,
    next: Seq<u8>,
    extended: Seq<u8>,
)
    requires
        consolidated(seen, out, offset, data),
        forall|k: u64| #[trigger] seen.contains_key(k) ==> k < key,
        offset <= key <= offset + data.len(),
        extended.len() >= data.len(),
        extended.len() >= key + next.len() - offset,
        extended.len() == data.len() || extended.len() == key + next.len() - offset,
        forall|i: int|
            0 <= i < extended.len() ==> #[trigger] extended[i] == (if key - offset <= i < key
                - offset + next.len() {
                next[i - (key - offset)]
            } else {
                data[i]
            }),
    ensures
        consolidated(seen.insert(key, next), out, offset, extended),
{
    let joined = seen.insert(key, next);
    let last = choose|k: u64| #[trigger]
        seen.contains_key(k) && end_of(seen, k) == offset + data.len();
    assert forall|k: u64| #[trigger]
        out.insert(offset, extended).contains_key(k) <==> is_run_start(joined, k) by {
        assert(out.insert(offset, data).contains_key(k) <==> out.insert(
            offset,
            extended,
        ).contains_key(k));
        if k == key {
            assert(joined.contains_key(last) && last < key && end_of(joined, last) >= key);
        } else if joined.contains_key(k) {
            assert forall|other: u64| #[trigger]
                joined.contains_key(other) && other < k implies seen.contains_key(other) by {}
        }
        if is_run_start(seen, k) {
            assert(is_run_start(joined, k));
        }
        if is_run_start(joined, k) {
            assert forall|other: u64| #[trigger]
                seen.contains_key(other) && other < k implies end_of(seen, other) < k by {
                assert(joined.contains_key(other));
            }
            assert(is_run_start(seen, k));
        }
    }
    assert forall|addr: int| #[trigger]
        lookup(out.insert(offset, extended), addr) == lookup(joined, addr) by {
        lemma_lookup_insert_last(seen, key, next, addr);
        lemma_lookup_insert_last(out, offset, extended, addr);
        lemma_lookup_insert_last(out, offset, data, addr);
        assert(lookup(out.insert(offset, data), addr) == lookup(seen, addr));
        if offset <= addr < offset + extended.len() {
            assert(extended[addr - offset] == extended[addr - offset]);
        }
    }
    assert forall|k: u64| #[trigger] joined.contains_key(k) implies end_of(joined, k) <= offset
        + extended.len() by {
        if k != key {
            assert(seen.contains_key(k));
        }
    }
    if extended.len() == data.len() {
        assert(joined.contains_key(last) && end_of(joined, last) == offset + extended.len());
    } else {
        assert(joined.contains_key(key) && end_of(joined, key) == offset + extended.len());
    }
}

/// An entry past the last run, with a gap between, starts a run of its own.
pub proof fn lemma_consolidated_start(
    seen: Map<u64, Seq<u8>>,
    out: Map<u64, Seq<u8>>,
    offset: u64,
    data: Seq<u8>,
    key: u64,
    next: Seq<u8>,
)
    requires
        consolidated(seen, out, offset, data),
        forall|k: u64| #[trigger] seen.contains_key(k) ==> k < key,
        key > offset + data.len(),
    ensures
        consolidated(seen.insert(key, next), out.insert(offset, data), key, next),
{
    let joined = seen.insert(key, next);
    let emitted = out.insert(offset, data);
    assert forall|k: u64| #[trigger]
        emitted.insert(key, next).contains_key(k) <==> is_run_start(joined, k) by {
        assert(emitted.contains_key(k) <==> is_run_start(seen, k));
        if k == key {
            assert forall|other: u64| #[trigger]
                joined.contains_key(other) && other < k implies end_of(joined, other) < k by {
                assert(seen.contains_key(other));
            }
        } else {
            if is_run_start(joined, k) {
                assert forall|other: u64| #[trigger]
                    seen.contains_key(other) && other < k implies end_of(seen, other) < k by {
                    assert(joined.contains_key(other));
                }
                assert(is_run_start(seen, k));
            }
        }
    }
    assert forall|addr: int| #[trigger]
        lookup(emitted.insert(key, next), addr) == lookup(joined, addr) by {
        lemma_lookup_insert_last(seen, key, next, addr);
        lemma_lookup_insert_last(emitted, key, next, addr);
        assert(lookup(emitted, addr) == lookup(seen, addr));
    }
    assert(joined.contains_key(key) && end_of(joined, key) == key + next.len());
    assert forall|k: u64| #[trigger] joined.contains_key(k) implies end_of(joined, k) <= key
        + next.len() by {
        if k != key {
            assert(seen.contains_key(k));
        }
    }
}

/// An entry that overlaps the last run or follows on it belongs to that run.
pub proof fn lemma_joins_run(
    layer: Map<u64, Seq<u8>>,
    out: Map<u64, Seq<u8>>,
    offset: u64,
    data: Seq<u8>,
    key: u64,
)
    requires
        consolidated(below(layer, key as int), out, offset, data),
        layer.contains_key(key),
        key <= offset + data.len(),
    ensures
        in_one_run(layer, offset, key),
{
    let seen = below(layer, key as int);
    assert(out.insert(offset, data).contains_key(offset));
    assert(is_run_start(seen, offset));
    assert forall|k: u64| offset < k <= key implies !#[trigger] is_run_start(layer, k) by {
        if is_run_start(layer, k) {
            if k == key {
                let last = choose|last: u64| #[trigger]
                    seen.contains_key(last) && end_of(seen, last) == offset + data.len();
                assert(layer.contains_key(last));
            } else {
                assert forall|other: u64| #[trigger]
                    seen.contains_key(other) && other < k implies end_of(seen, other) < k by {
                    assert(layer.contains_key(other));
                }
                assert(is_run_start(seen, k));
                assert(out.insert(offset, data).contains_key(k));
            }
        }
    }
}

/// Where all entries lie at addresses that a byte buffer can have, every run fits in a vector.
pub proof fn lemma_runs_fit(layer: Map<u64, Seq<u8>>)
    requires
        within(layer, usize::MAX as int),
    ensures
        runs_fit(layer),
{
    assert forall|first: u64, last: u64| #[trigger] in_one_run(layer, first, last) implies end_of(
        layer,
        last,
    ) - first <= usize::MAX by {
        assert(layer.contains_key(last));
    }
}

/// The runs of a packed layer are separated.
pub proof fn lemma_runs_separated(layer: Map<u64, Seq<u8>>, runs: Map<u64, Seq<u8>>)
    requires
        packed(layer),
        is_consolidation(layer, runs),
    ensures
        separated(runs),
{
    assert forall|key: u64| #[trigger] runs.contains_key(key) implies runs[key].len() > 0
        && end_of(runs, key) <= u64::MAX by {
        assert(layer.contains_key(key));
        lemma_disjoint_lookup(layer, key, key as int);
        assert(lookup(runs, key as int) is Some);
        let from = lemma_lookup_some(runs, key as int);
        assert(runs.contains_key(from));
        assert(from == key);
        let last = end_of(runs, key) - 1;
        assert(covers(runs, key, last));
        lemma_covered_has_top(runs, key, last);
        assert(lookup(runs, last) is Some);
        let holder = lemma_lookup_some(layer, last);
        assert(layer.contains_key(holder));
    }
}

} // verus!
