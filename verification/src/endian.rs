//! Unsigned numbers as byte sequences, in little-endian and big-endian order.

use vstd::prelude::*;

verus! {

use crate::bytes::splice;

/// The number of values that `size` bytes can hold.
pub open spec fn pow256(size: nat) -> nat
    decreases size,
{
    if size == 0 {
        1
    } else {
        256 * pow256((size - 1) as nat)
    }
}

/// The number that bytes stand for, least significant byte first.
pub open spec fn le_value(bytes: Seq<u8>) -> nat
    decreases bytes.len(),
{
    if bytes.len() == 0 {
        0
    } else {
        bytes[0] as nat + 256 * le_value(bytes.drop_first())
    }
}

/// The lowest `size` bytes of a number, least significant byte first.
pub open spec fn le_bytes(value: nat, size: nat) -> Seq<u8>
    decreases size,
{
    if size == 0 {
        Seq::empty()
    } else {
        seq![(value % 256) as u8] + le_bytes(value / 256, (size - 1) as nat)
    }
}

/// The number that bytes stand for, most significant byte first.
pub open spec fn be_value(bytes: Seq<u8>) -> nat {
    le_value(bytes.reverse())
}

/// The lowest `size` bytes of a number, most significant byte first.
pub open spec fn be_bytes(value: nat, size: nat) -> Seq<u8> {
    le_bytes(value, size).reverse()
}

/// The bytes of a number are as many as were asked for.
pub proof fn lemma_bytes_len(value: nat, size: nat)
    ensures
        le_bytes(value, size).len() == size,
        be_bytes(value, size).len() == size,
    decreases size,
{
    if size > 0 {
        lemma_bytes_len(value / 256, (size - 1) as nat);
    }
}

/// What bytes stand for fits in as many bytes.
pub proof fn lemma_value_bound(bytes: Seq<u8>)
    ensures
        le_value(bytes) < pow256(bytes.len()),
    decreases bytes.len(),
{
    if bytes.len() > 0 {
        lemma_value_bound(bytes.drop_first());
    }
}

/// Eight bytes and fewer hold what a `u64` holds.
pub proof fn lemma_pow256_bound(size: nat)
    requires
        size <= 8,
    ensures
        pow256(size) <= 0x1_0000_0000_0000_0000,
{
    reveal_with_fuel(pow256, 9);
}

/// A number that fits in `size` bytes is what its bytes stand for, in either order.
pub proof fn lemma_value_of_bytes(value: nat, size: nat)
    requires
        value < pow256(size),
    ensures
        le_value(le_bytes(value, size)) == value,
        be_value(be_bytes(value, size)) == value,
    decreases size,
{
    if size > 0 {
        let rest = le_bytes(value / 256, (size - 1) as nat);
        lemma_value_of_bytes(value / 256, (size - 1) as nat);
        assert(le_bytes(value, size).drop_first() =~= rest);
    }
    assert(le_bytes(value, size).reverse().reverse() =~= le_bytes(value, size));
}

/// Bytes are the bytes of what they stand for, in either order.
pub proof fn lemma_bytes_of_value(bytes: Seq<u8>)
    ensures
        le_bytes(le_value(bytes), bytes.len()) == bytes,
        be_bytes(be_value(bytes), bytes.len()) == bytes,
    decreases bytes.len(),
{
    lemma_le_bytes_of_value(bytes);
    lemma_le_bytes_of_value(bytes.reverse());
    assert(bytes.reverse().reverse() =~= bytes);
}

/// Bytes are the bytes of what they stand for, least significant byte first.
proof fn lemma_le_bytes_of_value(bytes: Seq<u8>)
    ensures
        le_bytes(le_value(bytes), bytes.len()) == bytes,
    decreases bytes.len(),
{
    if bytes.len() > 0 {
        let rest = bytes.drop_first();
        lemma_le_bytes_of_value(rest);
        assert(le_value(bytes) % 256 == bytes[0]);
        assert(le_value(bytes) / 256 == le_value(rest));
        assert(bytes =~= seq![bytes[0]] + rest);
    }
}

/// Reads the first `size` bytes, least significant byte first.
pub fn get_le(bytes: &[u8], size: usize) -> (value: u64)
    requires
        size <= 8,
        size <= bytes@.len(),
    ensures
        value == le_value(bytes@.take(size as int)),
        value < pow256(size as nat),
{
    let mut value: u64 = 0;
    let mut i: usize = size;
    while i > 0
        invariant
            i <= size <= 8,
            size <= bytes@.len(),
            value == le_value(bytes@.subrange(i as int, size as int)),
        decreases i,
    {
        let ghost rest = bytes@.subrange(i as int, size as int);
        let ghost all = bytes@.subrange(i - 1, size as int);
        proof {
            assert(all.drop_first() =~= rest);
            lemma_value_bound(all);
            lemma_pow256_bound(all.len());
        }
        i -= 1;
        value = value * 256 + bytes[i] as u64;
    }
    proof {
        lemma_value_bound(bytes@.take(size as int));
    }
    value
}

/// Reads the first `size` bytes, most significant byte first.
pub fn get_be(bytes: &[u8], size: usize) -> (value: u64)
    requires
        size <= 8,
        size <= bytes@.len(),
    ensures
        value == be_value(bytes@.take(size as int)),
        value < pow256(size as nat),
{
    let mut value: u64 = 0;
    let mut i: usize = 0;
    while i < size
        invariant
            i <= size <= 8,
            size <= bytes@.len(),
            value == be_value(bytes@.take(i as int)),
        decreases size - i,
    {
        let ghost all = bytes@.take(i + 1).reverse();
        proof {
            assert(all.drop_first() =~= bytes@.take(i as int).reverse());
            lemma_value_bound(all);
            lemma_pow256_bound(all.len());
        }
        value = value * 256 + bytes[i] as u64;
        i += 1;
    }
    proof {
        lemma_value_bound(bytes@.take(size as int).reverse());
    }
    value
}

/// Writes the lowest `size` bytes of `value`, least significant byte first.
pub fn put_le(value: u64, buf: &mut [u8], size: usize)
    requires
        size <= old(buf)@.len(),
    ensures
        final(buf)@ == splice(old(buf)@, 0, le_bytes(value as nat, size as nat)),
{
    let mut rest: u64 = value;
    let mut i: usize = 0;
    let len: usize = buf.len();
    while i < size
        invariant
            i <= size <= len,
            len == buf@.len() == old(buf)@.len(),
            buf@.take(i as int) + le_bytes(rest as nat, (size - i) as nat) =~= le_bytes(
                value as nat,
                size as nat,
            ),
            buf@.skip(i as int) == old(buf)@.skip(i as int),
        decreases size - i,
    {
        let ghost before = buf@;
        buf[i] = (rest % 256) as u8;
        rest = rest / 256;
        i += 1;
        assert(buf@.take(i as int) =~= before.take(i - 1).push(buf@[i - 1]));
        assert(buf@.skip(i as int) =~= before.skip(i - 1).skip(1));
        assert(old(buf)@.skip(i as int) =~= old(buf)@.skip(i - 1).skip(1));
    }
    proof {
        let bytes = le_bytes(value as nat, size as nat);
        lemma_bytes_len(value as nat, size as nat);
        assert(buf@.take(size as int) =~= bytes);
        assert forall|k: int| 0 <= k < len implies buf@[k] == splice(old(buf)@, 0, bytes)[k] by {
            if k < size {
                assert(buf@.take(size as int)[k] == bytes[k]);
            } else {
                assert(buf@.skip(size as int)[k - size] == old(buf)@.skip(size as int)[k - size]);
            }
        }
    }
}

/// Writes the lowest `size` bytes of `value`, most significant byte first.
pub fn put_be(value: u64, buf: &mut [u8], size: usize)
    requires
        size <= old(buf)@.len(),
    ensures
        final(buf)@ == splice(old(buf)@, 0, be_bytes(value as nat, size as nat)),
{
    let mut rest: u64 = value;
    let mut i: usize = size;
    let len: usize = buf.len();
    while i > 0
        invariant
            i <= size <= len,
            len == buf@.len() == old(buf)@.len(),
            buf@.subrange(i as int, size as int).reverse() + le_bytes(rest as nat, i as nat)
                =~= le_bytes(value as nat, size as nat),
            buf@.skip(size as int) == old(buf)@.skip(size as int),
        decreases i,
    {
        let ghost before = buf@;
        i -= 1;
        buf[i] = (rest % 256) as u8;
        rest = rest / 256;
        assert(buf@.subrange(i as int, size as int).reverse() =~= before.subrange(
            i + 1,
            size as int,
        ).reverse().push(buf@[i as int]));
        assert(buf@.skip(size as int) =~= before.skip(size as int));
    }
    proof {
        let bytes = be_bytes(value as nat, size as nat);
        lemma_bytes_len(value as nat, size as nat);
        assert(buf@.take(size as int).reverse() =~= le_bytes(value as nat, size as nat));
        assert(buf@.take(size as int).reverse().reverse() =~= buf@.take(size as int));
        assert forall|k: int| 0 <= k < len implies buf@[k] == splice(old(buf)@, 0, bytes)[k] by {
            if k < size {
                assert(buf@.take(size as int)[k] == bytes[k]);
            } else {
                assert(buf@.skip(size as int)[k - size] == old(buf)@.skip(size as int)[k - size]);
            }
        }
    }
}

} // verus!
