//! Layers: bytes recorded at addresses, grouped into entries.
//!
//! A layer maps the address of an entry's first byte to the bytes of the entry. Where two
//! entries cover an address, the entry that starts at the higher address counts.

use std::collections::btree_map;
use std::collections::BTreeMap;

use vstd::prelude::*;
use vstd::std_specs::cmp::OrdSpec;
use vstd::std_specs::iter::IteratorSpec;

verus! {

use crate::bytes::splice;

/// The entries of a map of byte vectors, as sequences of bytes.
pub open spec fn entries(map: Map<u64, Vec<u8>>) -> Map<u64, Seq<u8>> {
    map.map_values(|data: Vec<u8>| data@)
}

/// The address just past the entry at `key`.
pub open spec fn end_of(layer: Map<u64, Seq<u8>>, key: u64) -> int {
    key + layer[key].len()
}

/// Whether the entry at `key` holds a byte for address `addr`.
pub open spec fn covers(layer: Map<u64, Seq<u8>>, key: u64, addr: int) -> bool {
    layer.contains_key(key) && key <= addr < end_of(layer, key)
}

/// Whether the entry at `key` is the one that counts at address `addr`.
pub open spec fn is_top(layer: Map<u64, Seq<u8>>, key: u64, addr: int) -> bool {
    &&& covers(layer, key, addr)
    &&& forall|other: u64| covers(layer, other, addr) ==> other <= key
}

/// The byte that the layer holds for address `addr`, if it holds one.
pub open spec fn lookup(layer: Map<u64, Seq<u8>>, addr: int) -> Option<u8> {
    if exists|key: u64| is_top(layer, key, addr) {
        let key = choose|key: u64| is_top(layer, key, addr);
        Some(layer[key][addr - key])
    } else {
        None
    }
}

/// `base`, whose first byte sits at address `at`, with the bytes of the layer laid over it.
pub open spec fn overlaid(layer: Map<u64, Seq<u8>>, base: Seq<u8>, at: int) -> Seq<u8> {
    Seq::new(
        base.len(),
        |i: int|
            match lookup(layer, at + i) {
                Some(byte) => byte,
                None => base[i],
            },
    )
}

/// Every entry ends at address `len` at the latest.
pub open spec fn within(layer: Map<u64, Seq<u8>>, len: int) -> bool {
    forall|key: u64| #[trigger] layer.contains_key(key) ==> end_of(layer, key) <= len
}

/// Every entry ends at a 64-bit address.
pub open spec fn bounded(layer: Map<u64, Seq<u8>>) -> bool {
    within(layer, u64::MAX as int)
}

/// Every entry that starts below `bound` ends at `limit` at the latest.
pub open spec fn bounded_below(layer: Map<u64, Seq<u8>>, bound: int, limit: int) -> bool {
    forall|key: u64| #[trigger]
        layer.contains_key(key) && key < bound ==> end_of(layer, key) <= limit
}

/// No two entries cover the same address.
pub open spec fn disjoint(layer: Map<u64, Seq<u8>>) -> bool {
    forall|j: u64, k: u64|
        #![trigger layer.contains_key(j), layer.contains_key(k)]
        layer.contains_key(j) && layer.contains_key(k) && j < k ==> end_of(layer, j) <= k
}

/// No entry is empty and no two entries cover the same address.
pub open spec fn packed(layer: Map<u64, Seq<u8>>) -> bool {
    &&& bounded(layer)
    &&& forall|key: u64| #[trigger] layer.contains_key(key) ==> layer[key].len() > 0
    &&& disjoint(layer)
}

/// No entry is empty and at least one address that no entry covers lies between any two.
pub open spec fn separated(layer: Map<u64, Seq<u8>>) -> bool {
    &&& packed(layer)
    &&& gapped(layer)
}

/// At least one address that no entry covers lies between any two entries.
pub open spec fn gapped(layer: Map<u64, Seq<u8>>) -> bool {
    forall|j: u64, k: u64|
        #![trigger layer.contains_key(j), layer.contains_key(k)]
        layer.contains_key(j) && layer.contains_key(k) && j < k ==> end_of(layer, j) < k
}

/// The entries whose key lies below `bound`.
pub open spec fn below(layer: Map<u64, Seq<u8>>, bound: int) -> Map<u64, Seq<u8>> {
    Map::new(|key: u64| layer.contains_key(key) && key < bound, |key: u64| layer[key])
}

/// An entry that covers an address implies one that counts there.
pub proof fn lemma_covered_has_top(layer: Map<u64, Seq<u8>>, key: u64, addr: int)
    requires
        covers(layer, key, addr),
    ensures
        exists|top: u64| is_top(layer, top, addr),
    decreases u64::MAX - key,
{
    if !is_top(layer, key, addr) {
        let other = choose|other: u64| covers(layer, other, addr) && other > key;
        lemma_covered_has_top(layer, other, addr);
    }
}

/// The entry that counts at an address decides what the layer holds there.
pub proof fn lemma_lookup_top(layer: Map<u64, Seq<u8>>, key: u64, addr: int)
    requires
        is_top(layer, key, addr),
    ensures
        lookup(layer, addr) == Some(layer[key][addr - key]),
{
    let chosen = choose|k: u64| is_top(layer, k, addr);
    assert(is_top(layer, chosen, addr));
    assert(chosen <= key && key <= chosen);
}

/// A byte of the layer comes from some entry that counts at its address.
pub proof fn lemma_lookup_some(layer: Map<u64, Seq<u8>>, addr: int) -> (key: u64)
    requires
        lookup(layer, addr) is Some,
    ensures
        is_top(layer, key, addr),
        lookup(layer, addr) == Some(layer[key][addr - key]),
{
    choose|k: u64| is_top(layer, k, addr)
}

/// In a layer of disjoint entries the one that covers an address is the one that counts there.
pub proof fn lemma_disjoint_lookup(layer: Map<u64, Seq<u8>>, key: u64, addr: int)
    requires
        disjoint(layer),
        covers(layer, key, addr),
    ensures
        lookup(layer, addr) == Some(layer[key][addr - key]),
{
    assert(is_top(layer, key, addr));
    lemma_lookup_top(layer, key, addr);
}

/// A packed layer ends where the last byte that it holds does.
pub proof fn lemma_within(layer: Map<u64, Seq<u8>>, len: int)
    requires
        packed(layer),
    ensures
        within(layer, len) <==> forall|addr: int| #[trigger]
            lookup(layer, addr) is Some ==> addr < len,
{
    if within(layer, len) {
        assert forall|addr: int| #[trigger] lookup(layer, addr) is Some implies addr < len by {
            let key = lemma_lookup_some(layer, addr);
            assert(layer.contains_key(key));
        }
    }
    if forall|addr: int| #[trigger] lookup(layer, addr) is Some ==> addr < len {
        assert forall|key: u64| #[trigger] layer.contains_key(key) implies end_of(layer, key)
            <= len by {
            lemma_disjoint_lookup(layer, key, end_of(layer, key) - 1);
        }
    }
}

/// Layers of disjoint entries that start at the same addresses and hold the same bytes are equal.
pub proof fn lemma_same_entries(one: Map<u64, Seq<u8>>, two: Map<u64, Seq<u8>>)
    requires
        disjoint(one),
        disjoint(two),
        forall|key: u64| #[trigger] one.contains_key(key) <==> two.contains_key(key),
        forall|addr: int| #[trigger] lookup(one, addr) == lookup(two, addr),
    ensures
        one == two,
{
    assert forall|key: u64| #[trigger] one.contains_key(key) implies one[key] == two[key] by {
        assert(two.contains_key(key));
        lemma_no_longer(one, two, key);
        lemma_no_longer(two, one, key);
        assert forall|i: int| 0 <= i < one[key].len() implies one[key][i] == two[key][i] by {
            lemma_disjoint_lookup(one, key, key + i);
            lemma_disjoint_lookup(two, key, key + i);
            assert(lookup(one, key + i) == lookup(two, key + i));
        }
        assert(one[key] =~= two[key]);
    }
    assert(one.dom() =~= two.dom());
    assert(one =~= two);
}

/// Of two layers of disjoint entries that start at the same addresses and hold the same bytes,
/// neither has a longer entry.
proof fn lemma_no_longer(one: Map<u64, Seq<u8>>, two: Map<u64, Seq<u8>>, key: u64)
    requires
        disjoint(one),
        disjoint(two),
        forall|k: u64| #[trigger] one.contains_key(k) <==> two.contains_key(k),
        forall|addr: int| #[trigger] lookup(one, addr) == lookup(two, addr),
        one.contains_key(key),
    ensures
        two[key].len() <= one[key].len(),
{
    assert(two.contains_key(key));
    if one[key].len() < two[key].len() {
        // The byte just past the shorter entry would be held by one layer only.
        let addr = end_of(one, key);
        lemma_disjoint_lookup(two, key, addr);
        assert(lookup(one, addr) == lookup(two, addr));
        let other = lemma_lookup_some(one, addr);
        assert(one.contains_key(other));
        assert(two.contains_key(other));
    }
}

/// What a layer holds at an address once an entry above all others joins it.
pub proof fn lemma_lookup_insert_last(
    layer: Map<u64, Seq<u8>>,
    key: u64,
    data: Seq<u8>,
    addr: int,
)
    requires
        forall|k: u64| #[trigger] layer.contains_key(k) ==> k < key,
    ensures
        lookup(layer.insert(key, data), addr) == (if key <= addr < key + data.len() {
            Some(data[addr - key])
        } else {
            lookup(layer, addr)
        }),
{
    let joined = layer.insert(key, data);
    if key <= addr < key + data.len() {
        assert(is_top(joined, key, addr));
        lemma_lookup_top(joined, key, addr);
    } else {
        assert forall|k: u64| covers(joined, k, addr) <==> covers(layer, k, addr) by {}
        if lookup(layer, addr) is Some {
            let top = lemma_lookup_some(layer, addr);
            assert(is_top(joined, top, addr));
            lemma_lookup_top(joined, top, addr);
        } else if lookup(joined, addr) is Some {
            let top = lemma_lookup_some(joined, addr);
            assert(is_top(layer, top, addr));
        }
    }
}

/// Laying a layer over a buffer and then an entry above all others is laying both at once.
pub proof fn lemma_overlaid_insert_last(
    layer: Map<u64, Seq<u8>>,
    key: u64,
    data: Seq<u8>,
    base: Seq<u8>,
    at: int,
)
    requires
        forall|k: u64| #[trigger] layer.contains_key(k) ==> k < key,
    ensures
        overlaid(layer.insert(key, data), base, at) == splice(
            overlaid(layer, base, at),
            key - at,
            data,
        ),
{
    let lhs = overlaid(layer.insert(key, data), base, at);
    let rhs = splice(overlaid(layer, base, at), key - at, data);
    assert forall|i: int| 0 <= i < lhs.len() implies lhs[i] == rhs[i] by {
        lemma_lookup_insert_last(layer, key, data, at + i);
    }
    assert(lhs =~= rhs);
}

/// Whether `list` holds the entries of `map`, each once, by ascending key.
pub open spec fn is_listing(list: Seq<(u64, &Vec<u8>)>, map: Map<u64, Vec<u8>>) -> bool {
    &&& forall|i: int, j: int| 0 <= i < j < list.len() ==> list[i].0 < list[j].0
    &&& forall|i: int|
        0 <= i < list.len() ==> map.contains_key(#[trigger] list[i].0) && map[list[i].0]
            == *list[i].1
    &&& forall|key: u64| #[trigger]
        map.contains_key(key) ==> exists|i: int| 0 <= i < list.len() && #[trigger] list[i].0 == key
}

/// The key of the entry at index `i`, or an address past all keys where the list ends.
pub open spec fn bound_at(list: Seq<(u64, &Vec<u8>)>, i: int) -> int {
    if i < list.len() {
        list[i].0 as int
    } else {
        u64::MAX + 1
    }
}

/// Going on by one entry in a listing adds that entry to those seen so far.
pub proof fn lemma_listing_step(list: Seq<(u64, &Vec<u8>)>, map: Map<u64, Vec<u8>>, i: int)
    requires
        is_listing(list, map),
        0 <= i < list.len(),
    ensures
        below(entries(map), bound_at(list, i + 1)) == below(entries(map), bound_at(list, i)).insert(
            list[i].0,
            list[i].1@,
        ),
{
    let layer = entries(map);
    let next = bound_at(list, i + 1);
    assert forall|key: u64| layer.contains_key(key) && list[i].0 < key implies next <= key by {
        assert(map.contains_key(key));
        let j = choose|j: int| 0 <= j < list.len() && #[trigger] list[j].0 == key;
        assert(i < j);
    }
    assert(map.contains_key(list[i].0));
    assert(below(layer, next) =~= below(layer, bound_at(list, i)).insert(list[i].0, list[i].1@));
}

/// Before the first entry of a listing none is seen, and past the last all are.
pub proof fn lemma_listing_ends(list: Seq<(u64, &Vec<u8>)>, map: Map<u64, Vec<u8>>)
    requires
        is_listing(list, map),
    ensures
        below(entries(map), bound_at(list, 0)) == Map::<u64, Seq<u8>>::empty(),
        below(entries(map), bound_at(list, list.len() as int)) == entries(map),
{
    let layer = entries(map);
    assert forall|key: u64| layer.contains_key(key) implies bound_at(list, 0) <= key by {
        assert(map.contains_key(key));
        let j = choose|j: int| 0 <= j < list.len() && #[trigger] list[j].0 == key;
        assert(0 <= j);
    }
    assert(below(layer, bound_at(list, 0)) =~= Map::<u64, Seq<u8>>::empty());
    assert(below(layer, bound_at(list, list.len() as int)) =~= layer);
}

/// Whether `pairs` holds the entries of the layer, each once, by ascending key.
pub open spec fn yields_entries(pairs: Seq<(&u64, &Vec<u8>)>, layer: Map<u64, Seq<u8>>) -> bool {
    &&& forall|i: int, j: int| 0 <= i < j < pairs.len() ==> *pairs[i].0 < *pairs[j].0
    &&& forall|i: int|
        0 <= i < pairs.len() ==> layer.contains_key(*(#[trigger] pairs[i]).0)
            && layer[*pairs[i].0] == pairs[i].1@
    &&& forall|key: u64| #[trigger]
        layer.contains_key(key) ==> exists|i: int|
            0 <= i < pairs.len() && *(#[trigger] pairs[i]).0 == key
}

/// Walks the entries of a map by ascending key.
pub fn iter_entries<'a>(map: &'a BTreeMap<u64, Vec<u8>>) -> (iter: btree_map::Iter<
    'a,
    u64,
    Vec<u8>,
>)
    ensures
        yields_entries(iter.remaining(), entries(map@)),
{
    broadcast use vstd::std_specs::btree::group_btree_axioms;

    let iter = map.iter();
    proof {
        let pairs = iter.remaining();
        let keys = pairs.map_values(|pair: (&u64, &Vec<u8>)| *pair.0);
        assert(vstd::laws_cmp::obeys_cmp::<u64>());
        assert forall|i: int, j: int| 0 <= i < j < pairs.len() implies *pairs[i].0
            < *pairs[j].0 by {
            assert(keys[i].cmp_spec(&keys[j]) is Less);
        }
        assert forall|i: int| 0 <= i < pairs.len() implies entries(map@).contains_key(
            *(#[trigger] pairs[i]).0,
        ) && entries(map@)[*pairs[i].0] == pairs[i].1@ by {
            assert(map@.contains_key(*pairs[i].0));
        }
        assert forall|key: u64| #[trigger] entries(map@).contains_key(key) implies exists|i: int|
            0 <= i < pairs.len() && *(#[trigger] pairs[i]).0 == key by {
            assert(map@.contains_key(key));
            assert(pairs.contains((&key, &map@[key])));
        }
    }
    iter
}

/// Lists the entries of a map by ascending key.
pub fn list_entries<'a>(map: &'a BTreeMap<u64, Vec<u8>>) -> (list: Vec<(u64, &'a Vec<u8>)>)
    ensures
        is_listing(list@, map@),
{
    broadcast use vstd::std_specs::btree::group_btree_axioms;

    let mut list: Vec<(u64, &'a Vec<u8>)> = Vec::new();
    for (key, data) in iter: map.iter()
        invariant
            list@.len() == iter.index(),
            iter.seq() == vstd::std_specs::btree::spec_btree_map_iter(map).remaining(),
            vstd::std_specs::btree::increasing_seq(
                iter.seq().map_values(|pair: (&u64, &Vec<u8>)| *pair.0),
            ),
            forall|i: int|
                0 <= i < list@.len() ==> list@[i].0 == *iter.seq()[i].0 && list@[i].1
                    == iter.seq()[i].1,
    {
        list.push((*key, data));
    }
    proof {
        let pairs = vstd::std_specs::btree::spec_btree_map_iter(map).remaining();
        let keys = pairs.map_values(|pair: (&u64, &Vec<u8>)| *pair.0);
        assert(vstd::laws_cmp::obeys_cmp::<u64>());
        assert forall|i: int, j: int| 0 <= i < j < list.len() implies list[i].0 < list[j].0 by {
            assert(keys[i].cmp_spec(&keys[j]) is Less);
        }
        assert forall|i: int| 0 <= i < list.len() implies map@.contains_key(#[trigger] list[i].0)
            && map@[list[i].0] == *list[i].1 by {
            assert(map@.contains_key(*pairs[i].0));
        }
    }
    list
}

/// Whether the entry at `key` reaches into the addresses from `start` up to `end`.
pub open spec fn overlaps(layer: Map<u64, Seq<u8>>, key: u64, start: int, end: int) -> bool {
    layer.contains_key(key) && key < end && end_of(layer, key) > start
}

/// The entries that reach into the addresses from `start` up to `end`.
pub open spec fn overlapping(layer: Map<u64, Seq<u8>>, start: int, end: int) -> Map<u64, Seq<u8>> {
    Map::new(|key: u64| overlaps(layer, key, start, end), |key: u64| layer[key])
}

/// Whether `keys` holds the keys of the layer, each once, in ascending order.
pub open spec fn is_key_listing(keys: Seq<u64>, layer: Map<u64, Seq<u8>>) -> bool {
    &&& forall|i: int, j: int| 0 <= i < j < keys.len() ==> keys[i] < keys[j]
    &&& forall|i: int| 0 <= i < keys.len() ==> layer.contains_key(#[trigger] keys[i])
    &&& forall|key: u64| #[trigger]
        layer.contains_key(key) ==> exists|i: int| 0 <= i < keys.len() && #[trigger] keys[i] == key
}

/// The key at index `i`, or an address past all keys where the list ends.
pub open spec fn key_bound(keys: Seq<u64>, i: int) -> int {
    if i < keys.len() {
        keys[i] as int
    } else {
        u64::MAX + 1
    }
}

/// Going on by one key in a key listing adds the entry there to those seen so far.
pub proof fn lemma_key_listing_step(keys: Seq<u64>, layer: Map<u64, Seq<u8>>, i: int)
    requires
        is_key_listing(keys, layer),
        0 <= i < keys.len(),
    ensures
        below(layer, key_bound(keys, i + 1)) == below(layer, key_bound(keys, i)).insert(
            keys[i],
            layer[keys[i]],
        ),
        forall|key: u64| #[trigger]
            layer.contains_key(key) ==> (key < key_bound(keys, i + 1) <==> key <= keys[i]),
{
    let next = key_bound(keys, i + 1);
    assert forall|key: u64| #[trigger] layer.contains_key(key) && keys[i] < key implies next
        <= key by {
        let j = choose|j: int| 0 <= j < keys.len() && #[trigger] keys[j] == key;
        assert(i < j);
    }
    assert(layer.contains_key(keys[i]));
    assert(below(layer, next) =~= below(layer, key_bound(keys, i)).insert(keys[i], layer[keys[i]]));
}

/// Before the first key of a key listing no entry is seen, and past the last all are.
pub proof fn lemma_key_listing_ends(keys: Seq<u64>, layer: Map<u64, Seq<u8>>)
    requires
        is_key_listing(keys, layer),
    ensures
        below(layer, key_bound(keys, 0)) == Map::<u64, Seq<u8>>::empty(),
        below(layer, key_bound(keys, keys.len() as int)) == layer,
{
    assert forall|key: u64| #[trigger] layer.contains_key(key) implies key_bound(keys, 0)
        <= key by {
        let j = choose|j: int| 0 <= j < keys.len() && #[trigger] keys[j] == key;
        assert(0 <= j);
    }
    assert(below(layer, key_bound(keys, 0)) =~= Map::<u64, Seq<u8>>::empty());
    assert(below(layer, key_bound(keys, keys.len() as int)) =~= layer);
}

/// Lists, by ascending key, the entries that reach into the addresses from `start` up to `end`.
pub fn overlapping_keys(map: &BTreeMap<u64, Vec<u8>>, start: u64, end: u64) -> (keys: Vec<u64>)
    requires
        bounded_below(entries(map@), end as int, u64::MAX as int),
    ensures
        is_key_listing(keys@, overlapping(entries(map@), start as int, end as int)),
{
    let list = list_entries(map);
    let ghost all = entries(map@);
    let ghost wanted = overlapping(all, start as int, end as int);
    let mut keys: Vec<u64> = Vec::new();
    let mut i: usize = 0;
    while i < list.len()
        invariant
            i <= list@.len(),
            is_listing(list@, map@),
            all == entries(map@),
            wanted == overlapping(all, start as int, end as int),
            bounded_below(all, end as int, u64::MAX as int),
            forall|m: int, n: int| 0 <= m < n < keys@.len() ==> keys@[m] < keys@[n],
            forall|m: int|
                0 <= m < keys@.len() ==> wanted.contains_key(#[trigger] keys@[m]) && keys@[m]
                    < bound_at(list@, i as int),
            forall|n: int|
                0 <= n < i && wanted.contains_key(#[trigger] list@[n].0) ==> keys@.contains(
                    list@[n].0,
                ),
        decreases list@.len() - i,
    {
        let key: u64 = list[i].0;
        let data: &Vec<u8> = list[i].1;
        assert(all.contains_key(key) && all[key] == data@);
        let ghost before = keys@;
        if key < end && key + data.len() as u64 > start {
            keys.push(key);
            assert(keys@[before.len() as int] == key);
            assert forall|k: u64| before.contains(k) implies keys@.contains(k) by {
                let m = choose|m: int| 0 <= m < before.len() && before[m] == k;
                assert(keys@[m] == k);
            }
        }
        i += 1;
    }
    assert forall|key: u64| #[trigger] wanted.contains_key(key) implies exists|m: int|
        0 <= m < keys@.len() && #[trigger] keys@[m] == key by {
        assert(map@.contains_key(key));
        let n = choose|n: int| 0 <= n < list@.len() && #[trigger] list@[n].0 == key;
        assert(keys@.contains(list@[n].0));
    }
    keys
}

} // verus!
