//! Copying bytes into place.

use vstd::prelude::*;

verus! {

/// `base` with `data` laid over it, the first byte of `data` at index `at`.
///
/// Bytes of `data` that fall outside `base` are dropped, so the length is that of `base`.
pub open spec fn splice(base: Seq<u8>, at: int, data: Seq<u8>) -> Seq<u8> {
    Seq::new(
        base.len(),
        |i: int|
            if at <= i < at + data.len() {
                data[i - at]
            } else {
                base[i]
            },
    )
}

/// Copies all of `src` into `dst`, starting at index `at`.
pub fn copy_into(dst: &mut [u8], at: usize, src: &[u8])
    requires
        at + src@.len() <= old(dst)@.len(),
    ensures
        final(dst)@ == splice(old(dst)@, at as int, src@),
{
    let len: usize = dst.len();
    let count: usize = src.len();
    let mut i: usize = 0;
    while i < count
        invariant
            i <= count,
            count == src@.len(),
            len == old(dst)@.len(),
            at + count <= len,
            dst@ == splice(old(dst)@, at as int, src@.take(i as int)),
        decreases count - i,
    {
        dst[at + i] = src[i];
        i += 1;
    }
    assert(src@.take(count as int) =~= src@);
}

/// Makes `dst` equal to `src`, writing only where they differ.
pub fn overwrite(dst: &mut [u8], src: &[u8])
    requires
        old(dst)@.len() == src@.len(),
    ensures
        final(dst)@ == src@,
{
    let count: usize = src.len();
    let mut i: usize = 0;
    while i < count
        invariant
            i <= count,
            count == src@.len() == dst@.len(),
            dst@.take(i as int) == src@.take(i as int),
        decreases count - i,
    {
        let ghost before = dst@;
        if dst[i] != src[i] {
            dst[i] = src[i];
        }
        i += 1;
        assert(dst@.take(i as int) =~= before.take(i - 1).push(dst@[i - 1]));
        assert(src@.take(i as int) =~= src@.take(i - 1).push(src@[i - 1]));
    }
    assert(dst@ =~= dst@.take(count as int));
    assert(src@ =~= src@.take(count as int));
}

/// Copies the bytes of `src` from index `start` up to `end` into a vector of their own.
pub fn copy_range(src: &[u8], start: usize, end: usize) -> (copy: Vec<u8>)
    requires
        start <= end <= src@.len(),
    ensures
        copy@ == src@.subrange(start as int, end as int),
{
    let mut copy: Vec<u8> = Vec::with_capacity(end - start);
    let mut i: usize = start;
    while i < end
        invariant
            start <= i <= end <= src@.len(),
            copy@ == src@.subrange(start as int, i as int),
        decreases end - i,
    {
        copy.push(src[i]);
        i += 1;
    }
    copy
}

} // verus!
