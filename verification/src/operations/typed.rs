//! Typed values and their bytes.
//!
//! The unsigned number that stands for a value is the value itself, and for a negative one the
//! value plus the number of values that its size can hold. Its bytes are its digits to the base of
//! 256.

use vstd::prelude::*;

use crate::cowfile::CowFile;
use crate::endian::{get_be, get_le, put_be, put_le};
use crate::error::Error;
use crate::primitives::Primitive;

verus! {

use crate::endian::{be_bytes, be_value, le_bytes, le_value};
use crate::endian::lemma_bytes_len;
use crate::pending::lemma_composited_len;

/// Numbers and their bytes digit by digit: the least significant byte first, or last.
pub proof fn digits_go_on(bytes: Seq<u8>, value: nat, size: nat)
    ensures
        bytes.len() == 0 ==> le_value(bytes) == 0 && be_value(bytes) == 0,
        bytes.len() > 0 ==> le_value(bytes) == bytes[0] + 256 * le_value(bytes.drop_first()),
        bytes.len() > 0 ==> be_value(bytes) == bytes.last() + 256 * be_value(bytes.drop_last()),
        size == 0 ==> le_bytes(value, size).len() == 0 && be_bytes(value, size).len() == 0,
        size > 0 ==> le_bytes(value, size) == seq![(value % 256) as u8] + le_bytes(
            value / 256,
            (size - 1) as nat,
        ),
        size > 0 ==> be_bytes(value, size) == be_bytes(value / 256, (size - 1) as nat).push(
            (value % 256) as u8,
        ),
{
    if bytes.len() > 0 {
        assert(bytes.reverse().drop_first() =~= bytes.drop_last().reverse());
    }
    if size > 0 {
        let rest = le_bytes(value / 256, (size - 1) as nat);
        assert((seq![(value % 256) as u8] + rest).reverse() =~= rest.reverse().push(
            (value % 256) as u8,
        ));
    }
}

/// Getting a number reads the bytes at the front, and putting one writes them there and leaves the
/// rest.
pub proof fn numbers_are_got_and_put(
    bytes: &[u8],
    size: usize,
    little: u64,
    big: u64,
    value: u64,
    left: &mut [u8],
    right: &mut [u8],
    unit: (),
    i: int,
)
    requires
        size <= 8,
        size <= bytes@.len(),
        size <= old(left)@.len(),
        size <= old(right)@.len(),
        call_ensures(get_le, (bytes, size), little),
        call_ensures(get_be, (bytes, size), big),
        call_ensures(put_le, (value, left, size), unit),
        call_ensures(put_be, (value, right, size), unit),
    ensures
        little == le_value(bytes@.subrange(0, size as int)),
        big == be_value(bytes@.subrange(0, size as int)),
        final(left)@.len() == old(left)@.len(),
        final(right)@.len() == old(right)@.len(),
        0 <= i < size ==> final(left)@[i] == le_bytes(value as nat, size as nat)[i],
        0 <= i < size ==> final(right)@[i] == be_bytes(value as nat, size as nat)[i],
        size <= i < old(left)@.len() ==> final(left)@[i] == old(left)@[i],
        size <= i < old(right)@.len() ==> final(right)@[i] == old(right)@[i],
{
    lemma_bytes_len(value as nat, size as nat);
    assert(bytes@.take(size as int) =~= bytes@.subrange(0, size as int));
}

/// One byte stands for the sum of their digits, from either end.
pub proof fn value_of_1_bytes(bytes: Seq<u8>)
    requires
        bytes.len() == 1,
    ensures
        le_value(bytes) == bytes[0],
        be_value(bytes) == bytes[0],
{
    let l0 = bytes.skip(0);
    let b0 = bytes.reverse().skip(0);
    let l1 = bytes.skip(1);
    let b1 = bytes.reverse().skip(1);
    assert(l0 =~= bytes);
    assert(b0 =~= bytes.reverse());
    assert(l0.drop_first() =~= l1);
    assert(b0.drop_first() =~= b1);
    assert(le_value(l0) == bytes[0] + 256 * le_value(l1));
    assert(le_value(b0) == bytes[0] + 256 * le_value(b1));
}

/// The 1 lowest bytes of a number are its digits, from either end.
pub proof fn bytes_of_1_byte_number(value: nat)
    ensures
        le_bytes(value, 1).len() == 1,
        be_bytes(value, 1).len() == 1,
        le_bytes(value, 1)[0] == value % 256,
        be_bytes(value, 1)[0] == value % 256,
{
    lemma_bytes_len(value, 1);
    let v0 = value;
    let v1 = v0 / 256;
    assert(le_bytes(v0, 1) =~= seq![(v0 % 256) as u8] + le_bytes(v1, 0));
    lemma_bytes_len(v1, 0);
}

/// Two bytes stand for the sum of their digits, from either end.
pub proof fn value_of_2_bytes(bytes: Seq<u8>)
    requires
        bytes.len() == 2,
    ensures
        le_value(bytes) == bytes[0] + bytes[1] * 0x100,
        be_value(bytes) == bytes[1] + bytes[0] * 0x100,
{
    let l0 = bytes.skip(0);
    let b0 = bytes.reverse().skip(0);
    let l1 = bytes.skip(1);
    let b1 = bytes.reverse().skip(1);
    let l2 = bytes.skip(2);
    let b2 = bytes.reverse().skip(2);
    assert(l0 =~= bytes);
    assert(b0 =~= bytes.reverse());
    assert(l0.drop_first() =~= l1);
    assert(b0.drop_first() =~= b1);
    assert(le_value(l0) == bytes[0] + 256 * le_value(l1));
    assert(le_value(b0) == bytes[1] + 256 * le_value(b1));
    assert(l1.drop_first() =~= l2);
    assert(b1.drop_first() =~= b2);
    assert(le_value(l1) == bytes[1] + 256 * le_value(l2));
    assert(le_value(b1) == bytes[0] + 256 * le_value(b2));
}

/// The 2 lowest bytes of a number are its digits, from either end.
pub proof fn bytes_of_2_byte_number(value: nat)
    ensures
        le_bytes(value, 2).len() == 2,
        be_bytes(value, 2).len() == 2,
        le_bytes(value, 2)[0] == value % 256,
        be_bytes(value, 2)[1] == value % 256,
        le_bytes(value, 2)[1] == (value / 0x100) % 256,
        be_bytes(value, 2)[0] == (value / 0x100) % 256,
{
    lemma_bytes_len(value, 2);
    let v0 = value;
    let v1 = v0 / 256;
    assert(le_bytes(v0, 2) =~= seq![(v0 % 256) as u8] + le_bytes(v1, 1));
    lemma_bytes_len(v1, 1);
    let v2 = v1 / 256;
    assert(le_bytes(v1, 1) =~= seq![(v1 % 256) as u8] + le_bytes(v2, 0));
    lemma_bytes_len(v2, 0);
    assert(v1 == value / 0x100);
    assert(le_bytes(v0, 2)[1] == le_bytes(v1, 1)[0]);
}

/// Four bytes stand for the sum of their digits, from either end.
pub proof fn value_of_4_bytes(bytes: Seq<u8>)
    requires
        bytes.len() == 4,
    ensures
        le_value(bytes) == bytes[0] + bytes[1] * 0x100 + bytes[2] * 0x10000 + bytes[3] * 0x1000000,
        be_value(bytes) == bytes[3] + bytes[2] * 0x100 + bytes[1] * 0x10000 + bytes[0] * 0x1000000,
{
    let l0 = bytes.skip(0);
    let b0 = bytes.reverse().skip(0);
    let l1 = bytes.skip(1);
    let b1 = bytes.reverse().skip(1);
    let l2 = bytes.skip(2);
    let b2 = bytes.reverse().skip(2);
    let l3 = bytes.skip(3);
    let b3 = bytes.reverse().skip(3);
    let l4 = bytes.skip(4);
    let b4 = bytes.reverse().skip(4);
    assert(l0 =~= bytes);
    assert(b0 =~= bytes.reverse());
    assert(l0.drop_first() =~= l1);
    assert(b0.drop_first() =~= b1);
    assert(le_value(l0) == bytes[0] + 256 * le_value(l1));
    assert(le_value(b0) == bytes[3] + 256 * le_value(b1));
    assert(l1.drop_first() =~= l2);
    assert(b1.drop_first() =~= b2);
    assert(le_value(l1) == bytes[1] + 256 * le_value(l2));
    assert(le_value(b1) == bytes[2] + 256 * le_value(b2));
    assert(l2.drop_first() =~= l3);
    assert(b2.drop_first() =~= b3);
    assert(le_value(l2) == bytes[2] + 256 * le_value(l3));
    assert(le_value(b2) == bytes[1] + 256 * le_value(b3));
    assert(l3.drop_first() =~= l4);
    assert(b3.drop_first() =~= b4);
    assert(le_value(l3) == bytes[3] + 256 * le_value(l4));
    assert(le_value(b3) == bytes[0] + 256 * le_value(b4));
}

/// The 4 lowest bytes of a number are its digits, from either end.
pub proof fn bytes_of_4_byte_number(value: nat)
    ensures
        le_bytes(value, 4).len() == 4,
        be_bytes(value, 4).len() == 4,
        le_bytes(value, 4)[0] == value % 256,
        be_bytes(value, 4)[3] == value % 256,
        le_bytes(value, 4)[1] == (value / 0x100) % 256,
        be_bytes(value, 4)[2] == (value / 0x100) % 256,
        le_bytes(value, 4)[2] == (value / 0x10000) % 256,
        be_bytes(value, 4)[1] == (value / 0x10000) % 256,
        le_bytes(value, 4)[3] == (value / 0x1000000) % 256,
        be_bytes(value, 4)[0] == (value / 0x1000000) % 256,
{
    lemma_bytes_len(value, 4);
    let v0 = value;
    let v1 = v0 / 256;
    assert(le_bytes(v0, 4) =~= seq![(v0 % 256) as u8] + le_bytes(v1, 3));
    lemma_bytes_len(v1, 3);
    let v2 = v1 / 256;
    assert(le_bytes(v1, 3) =~= seq![(v1 % 256) as u8] + le_bytes(v2, 2));
    lemma_bytes_len(v2, 2);
    let v3 = v2 / 256;
    assert(le_bytes(v2, 2) =~= seq![(v2 % 256) as u8] + le_bytes(v3, 1));
    lemma_bytes_len(v3, 1);
    let v4 = v3 / 256;
    assert(le_bytes(v3, 1) =~= seq![(v3 % 256) as u8] + le_bytes(v4, 0));
    lemma_bytes_len(v4, 0);
    assert(v1 == value / 0x100);
    assert(v2 == value / 0x10000);
    assert(v3 == value / 0x1000000);
    assert(le_bytes(v0, 4)[1] == le_bytes(v1, 3)[0]);
    assert(le_bytes(v0, 4)[2] == le_bytes(v1, 3)[1]);
    assert(le_bytes(v1, 3)[1] == le_bytes(v2, 2)[0]);
    assert(le_bytes(v0, 4)[3] == le_bytes(v1, 3)[2]);
    assert(le_bytes(v1, 3)[2] == le_bytes(v2, 2)[1]);
    assert(le_bytes(v2, 2)[1] == le_bytes(v3, 1)[0]);
}

/// Eight bytes stand for the sum of their digits, from either end.
pub proof fn value_of_8_bytes(bytes: Seq<u8>)
    requires
        bytes.len() == 8,
    ensures
        le_value(bytes) == bytes[0] + bytes[1] * 0x100 + bytes[2] * 0x10000
            + bytes[3] * 0x1000000 + bytes[4] * 0x100000000 + bytes[5] * 0x10000000000
            + bytes[6] * 0x1000000000000 + bytes[7] * 0x100000000000000,
        be_value(bytes) == bytes[7] + bytes[6] * 0x100 + bytes[5] * 0x10000
            + bytes[4] * 0x1000000 + bytes[3] * 0x100000000 + bytes[2] * 0x10000000000
            + bytes[1] * 0x1000000000000 + bytes[0] * 0x100000000000000,
{
    let l0 = bytes.skip(0);
    let b0 = bytes.reverse().skip(0);
    let l1 = bytes.skip(1);
    let b1 = bytes.reverse().skip(1);
    let l2 = bytes.skip(2);
    let b2 = bytes.reverse().skip(2);
    let l3 = bytes.skip(3);
    let b3 = bytes.reverse().skip(3);
    let l4 = bytes.skip(4);
    let b4 = bytes.reverse().skip(4);
    let l5 = bytes.skip(5);
    let b5 = bytes.reverse().skip(5);
    let l6 = bytes.skip(6);
    let b6 = bytes.reverse().skip(6);
    let l7 = bytes.skip(7);
    let b7 = bytes.reverse().skip(7);
    let l8 = bytes.skip(8);
    let b8 = bytes.reverse().skip(8);
    assert(l0 =~= bytes);
    assert(b0 =~= bytes.reverse());
    assert(l0.drop_first() =~= l1);
    assert(b0.drop_first() =~= b1);
    assert(le_value(l0) == bytes[0] + 256 * le_value(l1));
    assert(le_value(b0) == bytes[7] + 256 * le_value(b1));
    assert(l1.drop_first() =~= l2);
    assert(b1.drop_first() =~= b2);
    assert(le_value(l1) == bytes[1] + 256 * le_value(l2));
    assert(le_value(b1) == bytes[6] + 256 * le_value(b2));
    assert(l2.drop_first() =~= l3);
    assert(b2.drop_first() =~= b3);
    assert(le_value(l2) == bytes[2] + 256 * le_value(l3));
    assert(le_value(b2) == bytes[5] + 256 * le_value(b3));
    assert(l3.drop_first() =~= l4);
    assert(b3.drop_first() =~= b4);
    assert(le_value(l3) == bytes[3] + 256 * le_value(l4));
    assert(le_value(b3) == bytes[4] + 256 * le_value(b4));
    assert(l4.drop_first() =~= l5);
    assert(b4.drop_first() =~= b5);
    assert(le_value(l4) == bytes[4] + 256 * le_value(l5));
    assert(le_value(b4) == bytes[3] + 256 * le_value(b5));
    assert(l5.drop_first() =~= l6);
    assert(b5.drop_first() =~= b6);
    assert(le_value(l5) == bytes[5] + 256 * le_value(l6));
    assert(le_value(b5) == bytes[2] + 256 * le_value(b6));
    assert(l6.drop_first() =~= l7);
    assert(b6.drop_first() =~= b7);
    assert(le_value(l6) == bytes[6] + 256 * le_value(l7));
    assert(le_value(b6) == bytes[1] + 256 * le_value(b7));
    assert(l7.drop_first() =~= l8);
    assert(b7.drop_first() =~= b8);
    assert(le_value(l7) == bytes[7] + 256 * le_value(l8));
    assert(le_value(b7) == bytes[0] + 256 * le_value(b8));
}

/// The 8 lowest bytes of a number are its digits, from either end.
pub proof fn bytes_of_8_byte_number(value: nat)
    ensures
        le_bytes(value, 8).len() == 8,
        be_bytes(value, 8).len() == 8,
        le_bytes(value, 8)[0] == value % 256,
        be_bytes(value, 8)[7] == value % 256,
        le_bytes(value, 8)[1] == (value / 0x100) % 256,
        be_bytes(value, 8)[6] == (value / 0x100) % 256,
        le_bytes(value, 8)[2] == (value / 0x10000) % 256,
        be_bytes(value, 8)[5] == (value / 0x10000) % 256,
        le_bytes(value, 8)[3] == (value / 0x1000000) % 256,
        be_bytes(value, 8)[4] == (value / 0x1000000) % 256,
        le_bytes(value, 8)[4] == (value / 0x100000000) % 256,
        be_bytes(value, 8)[3] == (value / 0x100000000) % 256,
        le_bytes(value, 8)[5] == (value / 0x10000000000) % 256,
        be_bytes(value, 8)[2] == (value / 0x10000000000) % 256,
        le_bytes(value, 8)[6] == (value / 0x1000000000000) % 256,
        be_bytes(value, 8)[1] == (value / 0x1000000000000) % 256,
        le_bytes(value, 8)[7] == (value / 0x100000000000000) % 256,
        be_bytes(value, 8)[0] == (value / 0x100000000000000) % 256,
{
    lemma_bytes_len(value, 8);
    let v0 = value;
    let v1 = v0 / 256;
    assert(le_bytes(v0, 8) =~= seq![(v0 % 256) as u8] + le_bytes(v1, 7));
    lemma_bytes_len(v1, 7);
    let v2 = v1 / 256;
    assert(le_bytes(v1, 7) =~= seq![(v1 % 256) as u8] + le_bytes(v2, 6));
    lemma_bytes_len(v2, 6);
    let v3 = v2 / 256;
    assert(le_bytes(v2, 6) =~= seq![(v2 % 256) as u8] + le_bytes(v3, 5));
    lemma_bytes_len(v3, 5);
    let v4 = v3 / 256;
    assert(le_bytes(v3, 5) =~= seq![(v3 % 256) as u8] + le_bytes(v4, 4));
    lemma_bytes_len(v4, 4);
    let v5 = v4 / 256;
    assert(le_bytes(v4, 4) =~= seq![(v4 % 256) as u8] + le_bytes(v5, 3));
    lemma_bytes_len(v5, 3);
    let v6 = v5 / 256;
    assert(le_bytes(v5, 3) =~= seq![(v5 % 256) as u8] + le_bytes(v6, 2));
    lemma_bytes_len(v6, 2);
    let v7 = v6 / 256;
    assert(le_bytes(v6, 2) =~= seq![(v6 % 256) as u8] + le_bytes(v7, 1));
    lemma_bytes_len(v7, 1);
    let v8 = v7 / 256;
    assert(le_bytes(v7, 1) =~= seq![(v7 % 256) as u8] + le_bytes(v8, 0));
    lemma_bytes_len(v8, 0);
    assert(v1 == value / 0x100);
    assert(v2 == value / 0x10000);
    assert(v3 == value / 0x1000000);
    assert(v4 == value / 0x100000000);
    assert(v5 == value / 0x10000000000);
    assert(v6 == value / 0x1000000000000);
    assert(v7 == value / 0x100000000000000);
    assert(le_bytes(v0, 8)[1] == le_bytes(v1, 7)[0]);
    assert(le_bytes(v0, 8)[2] == le_bytes(v1, 7)[1]);
    assert(le_bytes(v1, 7)[1] == le_bytes(v2, 6)[0]);
    assert(le_bytes(v0, 8)[3] == le_bytes(v1, 7)[2]);
    assert(le_bytes(v1, 7)[2] == le_bytes(v2, 6)[1]);
    assert(le_bytes(v2, 6)[1] == le_bytes(v3, 5)[0]);
    assert(le_bytes(v0, 8)[4] == le_bytes(v1, 7)[3]);
    assert(le_bytes(v1, 7)[3] == le_bytes(v2, 6)[2]);
    assert(le_bytes(v2, 6)[2] == le_bytes(v3, 5)[1]);
    assert(le_bytes(v3, 5)[1] == le_bytes(v4, 4)[0]);
    assert(le_bytes(v0, 8)[5] == le_bytes(v1, 7)[4]);
    assert(le_bytes(v1, 7)[4] == le_bytes(v2, 6)[3]);
    assert(le_bytes(v2, 6)[3] == le_bytes(v3, 5)[2]);
    assert(le_bytes(v3, 5)[2] == le_bytes(v4, 4)[1]);
    assert(le_bytes(v4, 4)[1] == le_bytes(v5, 3)[0]);
    assert(le_bytes(v0, 8)[6] == le_bytes(v1, 7)[5]);
    assert(le_bytes(v1, 7)[5] == le_bytes(v2, 6)[4]);
    assert(le_bytes(v2, 6)[4] == le_bytes(v3, 5)[3]);
    assert(le_bytes(v3, 5)[3] == le_bytes(v4, 4)[2]);
    assert(le_bytes(v4, 4)[2] == le_bytes(v5, 3)[1]);
    assert(le_bytes(v5, 3)[1] == le_bytes(v6, 2)[0]);
    assert(le_bytes(v0, 8)[7] == le_bytes(v1, 7)[6]);
    assert(le_bytes(v1, 7)[6] == le_bytes(v2, 6)[5]);
    assert(le_bytes(v2, 6)[5] == le_bytes(v3, 5)[4]);
    assert(le_bytes(v3, 5)[4] == le_bytes(v4, 4)[3]);
    assert(le_bytes(v4, 4)[3] == le_bytes(v5, 3)[2]);
    assert(le_bytes(v5, 3)[2] == le_bytes(v6, 2)[1]);
    assert(le_bytes(v6, 2)[1] == le_bytes(v7, 1)[0]);
}

/// The unsigned number that stands for a `u8`, and its size.
pub proof fn u8_bits_are_the_value(value: u8)
    ensures
        <u8 as Primitive>::size() == 1,
        value.bits() == value,
{
}

/// Decoding a `u8` gives the value whose digits the bytes are.
pub proof fn u8_is_decoded_from_its_digits(bytes: &[u8], little: u8, big: u8)
    requires
        bytes@.len() >= 1,
        call_ensures(<u8 as Primitive>::from_le_bytes, (bytes,), little),
        call_ensures(<u8 as Primitive>::from_be_bytes, (bytes,), big),
    ensures
        little == bytes@[0],
        big == bytes@[0],
{
    value_of_1_bytes(bytes@.take(1));
}

/// Encoding a `u8` puts its digits at the front of the buffer and leaves the rest.
pub proof fn u8_is_encoded_as_its_digits(
    value: u8,
    little: &mut [u8],
    big: &mut [u8],
    unit: (),
    i: int,
)
    requires
        old(little)@.len() >= 1,
        old(big)@.len() >= 1,
        call_ensures(<u8 as Primitive>::write_le_bytes, (value, little), unit),
        call_ensures(<u8 as Primitive>::write_be_bytes, (value, big), unit),
    ensures
        ({
            let number: int = value as int;
            &&& final(little)@.len() == old(little)@.len()
            &&& final(big)@.len() == old(big)@.len()
            &&& 1 <= i < old(little)@.len() ==> final(little)@[i] == old(little)@[i]
            &&& 1 <= i < old(big)@.len() ==> final(big)@[i] == old(big)@[i]
            &&& final(little)@[0] == number % 256
            &&& final(big)@[0] == number % 256
        }),
{
    bytes_of_1_byte_number(value.bits());
}

/// Reading a `u8` of a file gives the value whose digits a read of as many bytes gives, and
/// succeeds exactly where that lies within the data.
pub proof fn u8_is_read_from_its_digits(
    file: &CowFile,
    offset: usize,
    little: Result<u8, Error>,
    big: Result<u8, Error>,
    read: Result<Vec<u8>, Error>,
)
    requires
        call_ensures(CowFile::read_le::<u8>, (file, offset), little),
        call_ensures(CowFile::read_be::<u8>, (file, offset), big),
        call_ensures(CowFile::read, (file, offset, 1usize), read),
    ensures
        little is Ok <==> offset + 1 <= file@.committed.len(),
        big is Ok <==> offset + 1 <= file@.committed.len(),
        read is Ok <==> offset + 1 <= file@.committed.len(),
        little matches Ok(value) ==> value == read->Ok_0@[0],
        big matches Ok(value) ==> value == read->Ok_0@[0],
        little matches Err(error) ==> error == (Error::OutOfBounds {
            offset,
            length: 1,
            file_size: file@.committed.len() as usize,
        }),
        big matches Err(error) ==> error == (Error::OutOfBounds {
            offset,
            length: 1,
            file_size: file@.committed.len() as usize,
        }),
{
    lemma_composited_len(file@.committed, 0, file@.log);
    if read is Ok {
        value_of_1_bytes(read->Ok_0@);
    }
}

/// Writing a `u8` to a file logs its digits at the offset, and succeeds exactly where they lie
/// within the data.
pub proof fn u8_is_written_as_its_digits(
    value: u8,
    offset: usize,
    little: &mut CowFile,
    big: &mut CowFile,
    put: Result<(), Error>,
    laid: Result<(), Error>,
)
    requires
        call_ensures(CowFile::write_le::<u8>, (little, offset, value), put),
        call_ensures(CowFile::write_be::<u8>, (big, offset, value), laid),
    ensures
        put is Ok <==> offset + 1 <= old(little)@.committed.len(),
        laid is Ok <==> offset + 1 <= old(big)@.committed.len(),
        put is Err ==> final(little)@ == old(little)@ && put->Err_0 == (Error::OutOfBounds {
            offset,
            length: 1,
            file_size: old(little)@.committed.len() as usize,
        }),
        laid is Err ==> final(big)@ == old(big)@ && laid->Err_0 == (Error::OutOfBounds {
            offset,
            length: 1,
            file_size: old(big)@.committed.len() as usize,
        }),
        put is Ok ==> ({
            let number: int = value as int;
            let logged = final(little)@.log.last();
            &&& final(little)@.log == old(little)@.log.push(logged)
            &&& logged.offset == offset
            &&& logged.data.len() == 1
            &&& logged.data[0] == number % 256
        }),
        laid is Ok ==> ({
            let number: int = value as int;
            let logged = final(big)@.log.last();
            &&& final(big)@.log == old(big)@.log.push(logged)
            &&& logged.offset == offset
            &&& logged.data.len() == 1
            &&& logged.data[0] == number % 256
        }),
        final(little)@.committed == old(little)@.committed,
        final(little)@.mapped == old(little)@.mapped,
        final(little)@.source == old(little)@.source,
        final(little)@.opened == old(little)@.opened,
        final(little)@.changed == old(little)@.changed,
        final(big)@.committed == old(big)@.committed,
        final(big)@.mapped == old(big)@.mapped,
        final(big)@.source == old(big)@.source,
        final(big)@.opened == old(big)@.opened,
        final(big)@.changed == old(big)@.changed,
{
    bytes_of_1_byte_number(value.bits());
}

/// The unsigned number that stands for a `i8`, and its size.
pub proof fn i8_bits_are_the_value(value: i8)
    ensures
        <i8 as Primitive>::size() == 1,
        value >= 0 ==> value.bits() == value,
        value < 0 ==> value.bits() == value + 0x100,
{
}

/// Decoding a `i8` gives the value whose digits the bytes are.
pub proof fn i8_is_decoded_from_its_digits(bytes: &[u8], little: i8, big: i8)
    requires
        bytes@.len() >= 1,
        call_ensures(<i8 as Primitive>::from_le_bytes, (bytes,), little),
        call_ensures(<i8 as Primitive>::from_be_bytes, (bytes,), big),
    ensures
        (if little >= 0 {
            little as int
        } else {
            little + 0x100
        }) == bytes@[0],
        (if big >= 0 {
            big as int
        } else {
            big + 0x100
        }) == bytes@[0],
{
    value_of_1_bytes(bytes@.take(1));
}

/// Encoding a `i8` puts its digits at the front of the buffer and leaves the rest.
pub proof fn i8_is_encoded_as_its_digits(
    value: i8,
    little: &mut [u8],
    big: &mut [u8],
    unit: (),
    i: int,
)
    requires
        old(little)@.len() >= 1,
        old(big)@.len() >= 1,
        call_ensures(<i8 as Primitive>::write_le_bytes, (value, little), unit),
        call_ensures(<i8 as Primitive>::write_be_bytes, (value, big), unit),
    ensures
        ({
            let number: int = (if value >= 0 {
            value as int
        } else {
            value + 0x100
        });
            &&& final(little)@.len() == old(little)@.len()
            &&& final(big)@.len() == old(big)@.len()
            &&& 1 <= i < old(little)@.len() ==> final(little)@[i] == old(little)@[i]
            &&& 1 <= i < old(big)@.len() ==> final(big)@[i] == old(big)@[i]
            &&& final(little)@[0] == number % 256
            &&& final(big)@[0] == number % 256
        }),
{
    bytes_of_1_byte_number(value.bits());
}

/// Reading a `i8` of a file gives the value whose digits a read of as many bytes gives, and
/// succeeds exactly where that lies within the data.
pub proof fn i8_is_read_from_its_digits(
    file: &CowFile,
    offset: usize,
    little: Result<i8, Error>,
    big: Result<i8, Error>,
    read: Result<Vec<u8>, Error>,
)
    requires
        call_ensures(CowFile::read_le::<i8>, (file, offset), little),
        call_ensures(CowFile::read_be::<i8>, (file, offset), big),
        call_ensures(CowFile::read, (file, offset, 1usize), read),
    ensures
        little is Ok <==> offset + 1 <= file@.committed.len(),
        big is Ok <==> offset + 1 <= file@.committed.len(),
        read is Ok <==> offset + 1 <= file@.committed.len(),
        little matches Ok(value) ==> (if value >= 0 {
            value as int
        } else {
            value + 0x100
        }) == read->Ok_0@[0],
        big matches Ok(value) ==> (if value >= 0 {
            value as int
        } else {
            value + 0x100
        }) == read->Ok_0@[0],
        little matches Err(error) ==> error == (Error::OutOfBounds {
            offset,
            length: 1,
            file_size: file@.committed.len() as usize,
        }),
        big matches Err(error) ==> error == (Error::OutOfBounds {
            offset,
            length: 1,
            file_size: file@.committed.len() as usize,
        }),
{
    lemma_composited_len(file@.committed, 0, file@.log);
    if read is Ok {
        value_of_1_bytes(read->Ok_0@);
    }
}

/// Writing a `i8` to a file logs its digits at the offset, and succeeds exactly where they lie
/// within the data.
pub proof fn i8_is_written_as_its_digits(
    value: i8,
    offset: usize,
    little: &mut CowFile,
    big: &mut CowFile,
    put: Result<(), Error>,
    laid: Result<(), Error>,
)
    requires
        call_ensures(CowFile::write_le::<i8>, (little, offset, value), put),
        call_ensures(CowFile::write_be::<i8>, (big, offset, value), laid),
    ensures
        put is Ok <==> offset + 1 <= old(little)@.committed.len(),
        laid is Ok <==> offset + 1 <= old(big)@.committed.len(),
        put is Err ==> final(little)@ == old(little)@ && put->Err_0 == (Error::OutOfBounds {
            offset,
            length: 1,
            file_size: old(little)@.committed.len() as usize,
        }),
        laid is Err ==> final(big)@ == old(big)@ && laid->Err_0 == (Error::OutOfBounds {
            offset,
            length: 1,
            file_size: old(big)@.committed.len() as usize,
        }),
        put is Ok ==> ({
            let number: int = (if value >= 0 {
            value as int
        } else {
            value + 0x100
        });
            let logged = final(little)@.log.last();
            &&& final(little)@.log == old(little)@.log.push(logged)
            &&& logged.offset == offset
            &&& logged.data.len() == 1
            &&& logged.data[0] == number % 256
        }),
        laid is Ok ==> ({
            let number: int = (if value >= 0 {
            value as int
        } else {
            value + 0x100
        });
            let logged = final(big)@.log.last();
            &&& final(big)@.log == old(big)@.log.push(logged)
            &&& logged.offset == offset
            &&& logged.data.len() == 1
            &&& logged.data[0] == number % 256
        }),
        final(little)@.committed == old(little)@.committed,
        final(little)@.mapped == old(little)@.mapped,
        final(little)@.source == old(little)@.source,
        final(little)@.opened == old(little)@.opened,
        final(little)@.changed == old(little)@.changed,
        final(big)@.committed == old(big)@.committed,
        final(big)@.mapped == old(big)@.mapped,
        final(big)@.source == old(big)@.source,
        final(big)@.opened == old(big)@.opened,
        final(big)@.changed == old(big)@.changed,
{
    bytes_of_1_byte_number(value.bits());
}

/// The unsigned number that stands for a `u16`, and its size.
pub proof fn u16_bits_are_the_value(value: u16)
    ensures
        <u16 as Primitive>::size() == 2,
        value.bits() == value,
{
}

/// Decoding a `u16` gives the value whose digits the bytes are.
pub proof fn u16_is_decoded_from_its_digits(bytes: &[u8], little: u16, big: u16)
    requires
        bytes@.len() >= 2,
        call_ensures(<u16 as Primitive>::from_le_bytes, (bytes,), little),
        call_ensures(<u16 as Primitive>::from_be_bytes, (bytes,), big),
    ensures
        little == bytes@[0] + bytes@[1] * 0x100,
        big == bytes@[1] + bytes@[0] * 0x100,
{
    value_of_2_bytes(bytes@.take(2));
}

/// Encoding a `u16` puts its digits at the front of the buffer and leaves the rest.
pub proof fn u16_is_encoded_as_its_digits(
    value: u16,
    little: &mut [u8],
    big: &mut [u8],
    unit: (),
    i: int,
)
    requires
        old(little)@.len() >= 2,
        old(big)@.len() >= 2,
        call_ensures(<u16 as Primitive>::write_le_bytes, (value, little), unit),
        call_ensures(<u16 as Primitive>::write_be_bytes, (value, big), unit),
    ensures
        ({
            let number: int = value as int;
            &&& final(little)@.len() == old(little)@.len()
            &&& final(big)@.len() == old(big)@.len()
            &&& 2 <= i < old(little)@.len() ==> final(little)@[i] == old(little)@[i]
            &&& 2 <= i < old(big)@.len() ==> final(big)@[i] == old(big)@[i]
            &&& final(little)@[0] == number % 256
            &&& final(big)@[1] == number % 256
            &&& final(little)@[1] == (number / 0x100) % 256
            &&& final(big)@[0] == (number / 0x100) % 256
        }),
{
    bytes_of_2_byte_number(value.bits());
}

/// Reading a `u16` of a file gives the value whose digits a read of as many bytes gives, and
/// succeeds exactly where that lies within the data.
pub proof fn u16_is_read_from_its_digits(
    file: &CowFile,
    offset: usize,
    little: Result<u16, Error>,
    big: Result<u16, Error>,
    read: Result<Vec<u8>, Error>,
)
    requires
        call_ensures(CowFile::read_le::<u16>, (file, offset), little),
        call_ensures(CowFile::read_be::<u16>, (file, offset), big),
        call_ensures(CowFile::read, (file, offset, 2usize), read),
    ensures
        little is Ok <==> offset + 2 <= file@.committed.len(),
        big is Ok <==> offset + 2 <= file@.committed.len(),
        read is Ok <==> offset + 2 <= file@.committed.len(),
        little matches Ok(value) ==> value == read->Ok_0@[0] + read->Ok_0@[1] * 0x100,
        big matches Ok(value) ==> value == read->Ok_0@[1] + read->Ok_0@[0] * 0x100,
        little matches Err(error) ==> error == (Error::OutOfBounds {
            offset,
            length: 2,
            file_size: file@.committed.len() as usize,
        }),
        big matches Err(error) ==> error == (Error::OutOfBounds {
            offset,
            length: 2,
            file_size: file@.committed.len() as usize,
        }),
{
    lemma_composited_len(file@.committed, 0, file@.log);
    if read is Ok {
        value_of_2_bytes(read->Ok_0@);
    }
}

/// Writing a `u16` to a file logs its digits at the offset, and succeeds exactly where they lie
/// within the data.
pub proof fn u16_is_written_as_its_digits(
    value: u16,
    offset: usize,
    little: &mut CowFile,
    big: &mut CowFile,
    put: Result<(), Error>,
    laid: Result<(), Error>,
)
    requires
        call_ensures(CowFile::write_le::<u16>, (little, offset, value), put),
        call_ensures(CowFile::write_be::<u16>, (big, offset, value), laid),
    ensures
        put is Ok <==> offset + 2 <= old(little)@.committed.len(),
        laid is Ok <==> offset + 2 <= old(big)@.committed.len(),
        put is Err ==> final(little)@ == old(little)@ && put->Err_0 == (Error::OutOfBounds {
            offset,
            length: 2,
            file_size: old(little)@.committed.len() as usize,
        }),
        laid is Err ==> final(big)@ == old(big)@ && laid->Err_0 == (Error::OutOfBounds {
            offset,
            length: 2,
            file_size: old(big)@.committed.len() as usize,
        }),
        put is Ok ==> ({
            let number: int = value as int;
            let logged = final(little)@.log.last();
            &&& final(little)@.log == old(little)@.log.push(logged)
            &&& logged.offset == offset
            &&& logged.data.len() == 2
            &&& logged.data[0] == number % 256
            &&& logged.data[1] == (number / 0x100) % 256
        }),
        laid is Ok ==> ({
            let number: int = value as int;
            let logged = final(big)@.log.last();
            &&& final(big)@.log == old(big)@.log.push(logged)
            &&& logged.offset == offset
            &&& logged.data.len() == 2
            &&& logged.data[1] == number % 256
            &&& logged.data[0] == (number / 0x100) % 256
        }),
        final(little)@.committed == old(little)@.committed,
        final(little)@.mapped == old(little)@.mapped,
        final(little)@.source == old(little)@.source,
        final(little)@.opened == old(little)@.opened,
        final(little)@.changed == old(little)@.changed,
        final(big)@.committed == old(big)@.committed,
        final(big)@.mapped == old(big)@.mapped,
        final(big)@.source == old(big)@.source,
        final(big)@.opened == old(big)@.opened,
        final(big)@.changed == old(big)@.changed,
{
    bytes_of_2_byte_number(value.bits());
}

/// The unsigned number that stands for a `i16`, and its size.
pub proof fn i16_bits_are_the_value(value: i16)
    ensures
        <i16 as Primitive>::size() == 2,
        value >= 0 ==> value.bits() == value,
        value < 0 ==> value.bits() == value + 0x1_0000,
{
}

/// Decoding a `i16` gives the value whose digits the bytes are.
pub proof fn i16_is_decoded_from_its_digits(bytes: &[u8], little: i16, big: i16)
    requires
        bytes@.len() >= 2,
        call_ensures(<i16 as Primitive>::from_le_bytes, (bytes,), little),
        call_ensures(<i16 as Primitive>::from_be_bytes, (bytes,), big),
    ensures
        (if little >= 0 {
            little as int
        } else {
            little + 0x1_0000
        }) == bytes@[0] + bytes@[1] * 0x100,
        (if big >= 0 {
            big as int
        } else {
            big + 0x1_0000
        }) == bytes@[1] + bytes@[0] * 0x100,
{
    value_of_2_bytes(bytes@.take(2));
}

/// Encoding a `i16` puts its digits at the front of the buffer and leaves the rest.
pub proof fn i16_is_encoded_as_its_digits(
    value: i16,
    little: &mut [u8],
    big: &mut [u8],
    unit: (),
    i: int,
)
    requires
        old(little)@.len() >= 2,
        old(big)@.len() >= 2,
        call_ensures(<i16 as Primitive>::write_le_bytes, (value, little), unit),
        call_ensures(<i16 as Primitive>::write_be_bytes, (value, big), unit),
    ensures
        ({
            let number: int = (if value >= 0 {
            value as int
        } else {
            value + 0x1_0000
        });
            &&& final(little)@.len() == old(little)@.len()
            &&& final(big)@.len() == old(big)@.len()
            &&& 2 <= i < old(little)@.len() ==> final(little)@[i] == old(little)@[i]
            &&& 2 <= i < old(big)@.len() ==> final(big)@[i] == old(big)@[i]
            &&& final(little)@[0] == number % 256
            &&& final(big)@[1] == number % 256
            &&& final(little)@[1] == (number / 0x100) % 256
            &&& final(big)@[0] == (number / 0x100) % 256
        }),
{
    bytes_of_2_byte_number(value.bits());
}

/// Reading a `i16` of a file gives the value whose digits a read of as many bytes gives, and
/// succeeds exactly where that lies within the data.
pub proof fn i16_is_read_from_its_digits(
    file: &CowFile,
    offset: usize,
    little: Result<i16, Error>,
    big: Result<i16, Error>,
    read: Result<Vec<u8>, Error>,
)
    requires
        call_ensures(CowFile::read_le::<i16>, (file, offset), little),
        call_ensures(CowFile::read_be::<i16>, (file, offset), big),
        call_ensures(CowFile::read, (file, offset, 2usize), read),
    ensures
        little is Ok <==> offset + 2 <= file@.committed.len(),
        big is Ok <==> offset + 2 <= file@.committed.len(),
        read is Ok <==> offset + 2 <= file@.committed.len(),
        little matches Ok(value) ==> (if value >= 0 {
            value as int
        } else {
            value + 0x1_0000
        }) == read->Ok_0@[0] + read->Ok_0@[1] * 0x100,
        big matches Ok(value) ==> (if value >= 0 {
            value as int
        } else {
            value + 0x1_0000
        }) == read->Ok_0@[1] + read->Ok_0@[0] * 0x100,
        little matches Err(error) ==> error == (Error::OutOfBounds {
            offset,
            length: 2,
            file_size: file@.committed.len() as usize,
        }),
        big matches Err(error) ==> error == (Error::OutOfBounds {
            offset,
            length: 2,
            file_size: file@.committed.len() as usize,
        }),
{
    lemma_composited_len(file@.committed, 0, file@.log);
    if read is Ok {
        value_of_2_bytes(read->Ok_0@);
    }
}

/// Writing a `i16` to a file logs its digits at the offset, and succeeds exactly where they lie
/// within the data.
pub proof fn i16_is_written_as_its_digits(
    value: i16,
    offset: usize,
    little: &mut CowFile,
    big: &mut CowFile,
    put: Result<(), Error>,
    laid: Result<(), Error>,
)
    requires
        call_ensures(CowFile::write_le::<i16>, (little, offset, value), put),
        call_ensures(CowFile::write_be::<i16>, (big, offset, value), laid),
    ensures
        put is Ok <==> offset + 2 <= old(little)@.committed.len(),
        laid is Ok <==> offset + 2 <= old(big)@.committed.len(),
        put is Err ==> final(little)@ == old(little)@ && put->Err_0 == (Error::OutOfBounds {
            offset,
            length: 2,
            file_size: old(little)@.committed.len() as usize,
        }),
        laid is Err ==> final(big)@ == old(big)@ && laid->Err_0 == (Error::OutOfBounds {
            offset,
            length: 2,
            file_size: old(big)@.committed.len() as usize,
        }),
        put is Ok ==> ({
            let number: int = (if value >= 0 {
            value as int
        } else {
            value + 0x1_0000
        });
            let logged = final(little)@.log.last();
            &&& final(little)@.log == old(little)@.log.push(logged)
            &&& logged.offset == offset
            &&& logged.data.len() == 2
            &&& logged.data[0] == number % 256
            &&& logged.data[1] == (number / 0x100) % 256
        }),
        laid is Ok ==> ({
            let number: int = (if value >= 0 {
            value as int
        } else {
            value + 0x1_0000
        });
            let logged = final(big)@.log.last();
            &&& final(big)@.log == old(big)@.log.push(logged)
            &&& logged.offset == offset
            &&& logged.data.len() == 2
            &&& logged.data[1] == number % 256
            &&& logged.data[0] == (number / 0x100) % 256
        }),
        final(little)@.committed == old(little)@.committed,
        final(little)@.mapped == old(little)@.mapped,
        final(little)@.source == old(little)@.source,
        final(little)@.opened == old(little)@.opened,
        final(little)@.changed == old(little)@.changed,
        final(big)@.committed == old(big)@.committed,
        final(big)@.mapped == old(big)@.mapped,
        final(big)@.source == old(big)@.source,
        final(big)@.opened == old(big)@.opened,
        final(big)@.changed == old(big)@.changed,
{
    bytes_of_2_byte_number(value.bits());
}

/// The unsigned number that stands for a `u32`, and its size.
pub proof fn u32_bits_are_the_value(value: u32)
    ensures
        <u32 as Primitive>::size() == 4,
        value.bits() == value,
{
}

/// Decoding a `u32` gives the value whose digits the bytes are.
pub proof fn u32_is_decoded_from_its_digits(bytes: &[u8], little: u32, big: u32)
    requires
        bytes@.len() >= 4,
        call_ensures(<u32 as Primitive>::from_le_bytes, (bytes,), little),
        call_ensures(<u32 as Primitive>::from_be_bytes, (bytes,), big),
    ensures
        little == bytes@[0] + bytes@[1] * 0x100 + bytes@[2] * 0x10000 + bytes@[3] * 0x1000000,
        big == bytes@[3] + bytes@[2] * 0x100 + bytes@[1] * 0x10000 + bytes@[0] * 0x1000000,
{
    value_of_4_bytes(bytes@.take(4));
}

/// Encoding a `u32` puts its digits at the front of the buffer and leaves the rest.
pub proof fn u32_is_encoded_as_its_digits(
    value: u32,
    little: &mut [u8],
    big: &mut [u8],
    unit: (),
    i: int,
)
    requires
        old(little)@.len() >= 4,
        old(big)@.len() >= 4,
        call_ensures(<u32 as Primitive>::write_le_bytes, (value, little), unit),
        call_ensures(<u32 as Primitive>::write_be_bytes, (value, big), unit),
    ensures
        ({
            let number: int = value as int;
            &&& final(little)@.len() == old(little)@.len()
            &&& final(big)@.len() == old(big)@.len()
            &&& 4 <= i < old(little)@.len() ==> final(little)@[i] == old(little)@[i]
            &&& 4 <= i < old(big)@.len() ==> final(big)@[i] == old(big)@[i]
            &&& final(little)@[0] == number % 256
            &&& final(big)@[3] == number % 256
            &&& final(little)@[1] == (number / 0x100) % 256
            &&& final(big)@[2] == (number / 0x100) % 256
            &&& final(little)@[2] == (number / 0x10000) % 256
            &&& final(big)@[1] == (number / 0x10000) % 256
            &&& final(little)@[3] == (number / 0x1000000) % 256
            &&& final(big)@[0] == (number / 0x1000000) % 256
        }),
{
    bytes_of_4_byte_number(value.bits());
}

/// Reading a `u32` of a file gives the value whose digits a read of as many bytes gives, and
/// succeeds exactly where that lies within the data.
pub proof fn u32_is_read_from_its_digits(
    file: &CowFile,
    offset: usize,
    little: Result<u32, Error>,
    big: Result<u32, Error>,
    read: Result<Vec<u8>, Error>,
)
    requires
        call_ensures(CowFile::read_le::<u32>, (file, offset), little),
        call_ensures(CowFile::read_be::<u32>, (file, offset), big),
        call_ensures(CowFile::read, (file, offset, 4usize), read),
    ensures
        little is Ok <==> offset + 4 <= file@.committed.len(),
        big is Ok <==> offset + 4 <= file@.committed.len(),
        read is Ok <==> offset + 4 <= file@.committed.len(),
        little matches Ok(value) ==> value == read->Ok_0@[0] + read->Ok_0@[1] * 0x100
            + read->Ok_0@[2] * 0x10000 + read->Ok_0@[3] * 0x1000000,
        big matches Ok(value) ==> value == read->Ok_0@[3] + read->Ok_0@[2] * 0x100
            + read->Ok_0@[1] * 0x10000 + read->Ok_0@[0] * 0x1000000,
        little matches Err(error) ==> error == (Error::OutOfBounds {
            offset,
            length: 4,
            file_size: file@.committed.len() as usize,
        }),
        big matches Err(error) ==> error == (Error::OutOfBounds {
            offset,
            length: 4,
            file_size: file@.committed.len() as usize,
        }),
{
    lemma_composited_len(file@.committed, 0, file@.log);
    if read is Ok {
        value_of_4_bytes(read->Ok_0@);
    }
}

/// Writing a `u32` to a file logs its digits at the offset, and succeeds exactly where they lie
/// within the data.
pub proof fn u32_is_written_as_its_digits(
    value: u32,
    offset: usize,
    little: &mut CowFile,
    big: &mut CowFile,
    put: Result<(), Error>,
    laid: Result<(), Error>,
)
    requires
        call_ensures(CowFile::write_le::<u32>, (little, offset, value), put),
        call_ensures(CowFile::write_be::<u32>, (big, offset, value), laid),
    ensures
        put is Ok <==> offset + 4 <= old(little)@.committed.len(),
        laid is Ok <==> offset + 4 <= old(big)@.committed.len(),
        put is Err ==> final(little)@ == old(little)@ && put->Err_0 == (Error::OutOfBounds {
            offset,
            length: 4,
            file_size: old(little)@.committed.len() as usize,
        }),
        laid is Err ==> final(big)@ == old(big)@ && laid->Err_0 == (Error::OutOfBounds {
            offset,
            length: 4,
            file_size: old(big)@.committed.len() as usize,
        }),
        put is Ok ==> ({
            let number: int = value as int;
            let logged = final(little)@.log.last();
            &&& final(little)@.log == old(little)@.log.push(logged)
            &&& logged.offset == offset
            &&& logged.data.len() == 4
            &&& logged.data[0] == number % 256
            &&& logged.data[1] == (number / 0x100) % 256
            &&& logged.data[2] == (number / 0x10000) % 256
            &&& logged.data[3] == (number / 0x1000000) % 256
        }),
        laid is Ok ==> ({
            let number: int = value as int;
            let logged = final(big)@.log.last();
            &&& final(big)@.log == old(big)@.log.push(logged)
            &&& logged.offset == offset
            &&& logged.data.len() == 4
            &&& logged.data[3] == number % 256
            &&& logged.data[2] == (number / 0x100) % 256
            &&& logged.data[1] == (number / 0x10000) % 256
            &&& logged.data[0] == (number / 0x1000000) % 256
        }),
        final(little)@.committed == old(little)@.committed,
        final(little)@.mapped == old(little)@.mapped,
        final(little)@.source == old(little)@.source,
        final(little)@.opened == old(little)@.opened,
        final(little)@.changed == old(little)@.changed,
        final(big)@.committed == old(big)@.committed,
        final(big)@.mapped == old(big)@.mapped,
        final(big)@.source == old(big)@.source,
        final(big)@.opened == old(big)@.opened,
        final(big)@.changed == old(big)@.changed,
{
    bytes_of_4_byte_number(value.bits());
}

/// The unsigned number that stands for a `i32`, and its size.
pub proof fn i32_bits_are_the_value(value: i32)
    ensures
        <i32 as Primitive>::size() == 4,
        value >= 0 ==> value.bits() == value,
        value < 0 ==> value.bits() == value + 0x1_0000_0000,
{
}

/// Decoding a `i32` gives the value whose digits the bytes are.
pub proof fn i32_is_decoded_from_its_digits(bytes: &[u8], little: i32, big: i32)
    requires
        bytes@.len() >= 4,
        call_ensures(<i32 as Primitive>::from_le_bytes, (bytes,), little),
        call_ensures(<i32 as Primitive>::from_be_bytes, (bytes,), big),
    ensures
        (if little >= 0 {
            little as int
        } else {
            little + 0x1_0000_0000
        }) == bytes@[0] + bytes@[1] * 0x100 + bytes@[2] * 0x10000 + bytes@[3] * 0x1000000,
        (if big >= 0 {
            big as int
        } else {
            big + 0x1_0000_0000
        }) == bytes@[3] + bytes@[2] * 0x100 + bytes@[1] * 0x10000 + bytes@[0] * 0x1000000,
{
    value_of_4_bytes(bytes@.take(4));
}

/// Encoding a `i32` puts its digits at the front of the buffer and leaves the rest.
pub proof fn i32_is_encoded_as_its_digits(
    value: i32,
    little: &mut [u8],
    big: &mut [u8],
    unit: (),
    i: int,
)
    requires
        old(little)@.len() >= 4,
        old(big)@.len() >= 4,
        call_ensures(<i32 as Primitive>::write_le_bytes, (value, little), unit),
        call_ensures(<i32 as Primitive>::write_be_bytes, (value, big), unit),
    ensures
        ({
            let number: int = (if value >= 0 {
            value as int
        } else {
            value + 0x1_0000_0000
        });
            &&& final(little)@.len() == old(little)@.len()
            &&& final(big)@.len() == old(big)@.len()
            &&& 4 <= i < old(little)@.len() ==> final(little)@[i] == old(little)@[i]
            &&& 4 <= i < old(big)@.len() ==> final(big)@[i] == old(big)@[i]
            &&& final(little)@[0] == number % 256
            &&& final(big)@[3] == number % 256
            &&& final(little)@[1] == (number / 0x100) % 256
            &&& final(big)@[2] == (number / 0x100) % 256
            &&& final(little)@[2] == (number / 0x10000) % 256
            &&& final(big)@[1] == (number / 0x10000) % 256
            &&& final(little)@[3] == (number / 0x1000000) % 256
            &&& final(big)@[0] == (number / 0x1000000) % 256
        }),
{
    bytes_of_4_byte_number(value.bits());
}

/// Reading a `i32` of a file gives the value whose digits a read of as many bytes gives, and
/// succeeds exactly where that lies within the data.
pub proof fn i32_is_read_from_its_digits(
    file: &CowFile,
    offset: usize,
    little: Result<i32, Error>,
    big: Result<i32, Error>,
    read: Result<Vec<u8>, Error>,
)
    requires
        call_ensures(CowFile::read_le::<i32>, (file, offset), little),
        call_ensures(CowFile::read_be::<i32>, (file, offset), big),
        call_ensures(CowFile::read, (file, offset, 4usize), read),
    ensures
        little is Ok <==> offset + 4 <= file@.committed.len(),
        big is Ok <==> offset + 4 <= file@.committed.len(),
        read is Ok <==> offset + 4 <= file@.committed.len(),
        little matches Ok(value) ==> (if value >= 0 {
            value as int
        } else {
            value + 0x1_0000_0000
        }) == read->Ok_0@[0] + read->Ok_0@[1] * 0x100 + read->Ok_0@[2] * 0x10000
            + read->Ok_0@[3] * 0x1000000,
        big matches Ok(value) ==> (if value >= 0 {
            value as int
        } else {
            value + 0x1_0000_0000
        }) == read->Ok_0@[3] + read->Ok_0@[2] * 0x100 + read->Ok_0@[1] * 0x10000
            + read->Ok_0@[0] * 0x1000000,
        little matches Err(error) ==> error == (Error::OutOfBounds {
            offset,
            length: 4,
            file_size: file@.committed.len() as usize,
        }),
        big matches Err(error) ==> error == (Error::OutOfBounds {
            offset,
            length: 4,
            file_size: file@.committed.len() as usize,
        }),
{
    lemma_composited_len(file@.committed, 0, file@.log);
    if read is Ok {
        value_of_4_bytes(read->Ok_0@);
    }
}

/// Writing a `i32` to a file logs its digits at the offset, and succeeds exactly where they lie
/// within the data.
pub proof fn i32_is_written_as_its_digits(
    value: i32,
    offset: usize,
    little: &mut CowFile,
    big: &mut CowFile,
    put: Result<(), Error>,
    laid: Result<(), Error>,
)
    requires
        call_ensures(CowFile::write_le::<i32>, (little, offset, value), put),
        call_ensures(CowFile::write_be::<i32>, (big, offset, value), laid),
    ensures
        put is Ok <==> offset + 4 <= old(little)@.committed.len(),
        laid is Ok <==> offset + 4 <= old(big)@.committed.len(),
        put is Err ==> final(little)@ == old(little)@ && put->Err_0 == (Error::OutOfBounds {
            offset,
            length: 4,
            file_size: old(little)@.committed.len() as usize,
        }),
        laid is Err ==> final(big)@ == old(big)@ && laid->Err_0 == (Error::OutOfBounds {
            offset,
            length: 4,
            file_size: old(big)@.committed.len() as usize,
        }),
        put is Ok ==> ({
            let number: int = (if value >= 0 {
            value as int
        } else {
            value + 0x1_0000_0000
        });
            let logged = final(little)@.log.last();
            &&& final(little)@.log == old(little)@.log.push(logged)
            &&& logged.offset == offset
            &&& logged.data.len() == 4
            &&& logged.data[0] == number % 256
            &&& logged.data[1] == (number / 0x100) % 256
            &&& logged.data[2] == (number / 0x10000) % 256
            &&& logged.data[3] == (number / 0x1000000) % 256
        }),
        laid is Ok ==> ({
            let number: int = (if value >= 0 {
            value as int
        } else {
            value + 0x1_0000_0000
        });
            let logged = final(big)@.log.last();
            &&& final(big)@.log == old(big)@.log.push(logged)
            &&& logged.offset == offset
            &&& logged.data.len() == 4
            &&& logged.data[3] == number % 256
            &&& logged.data[2] == (number / 0x100) % 256
            &&& logged.data[1] == (number / 0x10000) % 256
            &&& logged.data[0] == (number / 0x1000000) % 256
        }),
        final(little)@.committed == old(little)@.committed,
        final(little)@.mapped == old(little)@.mapped,
        final(little)@.source == old(little)@.source,
        final(little)@.opened == old(little)@.opened,
        final(little)@.changed == old(little)@.changed,
        final(big)@.committed == old(big)@.committed,
        final(big)@.mapped == old(big)@.mapped,
        final(big)@.source == old(big)@.source,
        final(big)@.opened == old(big)@.opened,
        final(big)@.changed == old(big)@.changed,
{
    bytes_of_4_byte_number(value.bits());
}

/// The unsigned number that stands for a `u64`, and its size.
pub proof fn u64_bits_are_the_value(value: u64)
    ensures
        <u64 as Primitive>::size() == 8,
        value.bits() == value,
{
}

/// Decoding a `u64` gives the value whose digits the bytes are.
pub proof fn u64_is_decoded_from_its_digits(bytes: &[u8], little: u64, big: u64)
    requires
        bytes@.len() >= 8,
        call_ensures(<u64 as Primitive>::from_le_bytes, (bytes,), little),
        call_ensures(<u64 as Primitive>::from_be_bytes, (bytes,), big),
    ensures
        little == bytes@[0] + bytes@[1] * 0x100 + bytes@[2] * 0x10000 + bytes@[3] * 0x1000000
            + bytes@[4] * 0x100000000 + bytes@[5] * 0x10000000000 + bytes@[6] * 0x1000000000000
            + bytes@[7] * 0x100000000000000,
        big == bytes@[7] + bytes@[6] * 0x100 + bytes@[5] * 0x10000 + bytes@[4] * 0x1000000
            + bytes@[3] * 0x100000000 + bytes@[2] * 0x10000000000 + bytes@[1] * 0x1000000000000
            + bytes@[0] * 0x100000000000000,
{
    value_of_8_bytes(bytes@.take(8));
}

/// Encoding a `u64` puts its digits at the front of the buffer and leaves the rest.
pub proof fn u64_is_encoded_as_its_digits(
    value: u64,
    little: &mut [u8],
    big: &mut [u8],
    unit: (),
    i: int,
)
    requires
        old(little)@.len() >= 8,
        old(big)@.len() >= 8,
        call_ensures(<u64 as Primitive>::write_le_bytes, (value, little), unit),
        call_ensures(<u64 as Primitive>::write_be_bytes, (value, big), unit),
    ensures
        ({
            let number: int = value as int;
            &&& final(little)@.len() == old(little)@.len()
            &&& final(big)@.len() == old(big)@.len()
            &&& 8 <= i < old(little)@.len() ==> final(little)@[i] == old(little)@[i]
            &&& 8 <= i < old(big)@.len() ==> final(big)@[i] == old(big)@[i]
            &&& final(little)@[0] == number % 256
            &&& final(big)@[7] == number % 256
            &&& final(little)@[1] == (number / 0x100) % 256
            &&& final(big)@[6] == (number / 0x100) % 256
            &&& final(little)@[2] == (number / 0x10000) % 256
            &&& final(big)@[5] == (number / 0x10000) % 256
            &&& final(little)@[3] == (number / 0x1000000) % 256
            &&& final(big)@[4] == (number / 0x1000000) % 256
            &&& final(little)@[4] == (number / 0x100000000) % 256
            &&& final(big)@[3] == (number / 0x100000000) % 256
            &&& final(little)@[5] == (number / 0x10000000000) % 256
            &&& final(big)@[2] == (number / 0x10000000000) % 256
            &&& final(little)@[6] == (number / 0x1000000000000) % 256
            &&& final(big)@[1] == (number / 0x1000000000000) % 256
            &&& final(little)@[7] == (number / 0x100000000000000) % 256
            &&& final(big)@[0] == (number / 0x100000000000000) % 256
        }),
{
    bytes_of_8_byte_number(value.bits());
}

/// Reading a `u64` of a file gives the value whose digits a read of as many bytes gives, and
/// succeeds exactly where that lies within the data.
pub proof fn u64_is_read_from_its_digits(
    file: &CowFile,
    offset: usize,
    little: Result<u64, Error>,
    big: Result<u64, Error>,
    read: Result<Vec<u8>, Error>,
)
    requires
        call_ensures(CowFile::read_le::<u64>, (file, offset), little),
        call_ensures(CowFile::read_be::<u64>, (file, offset), big),
        call_ensures(CowFile::read, (file, offset, 8usize), read),
    ensures
        little is Ok <==> offset + 8 <= file@.committed.len(),
        big is Ok <==> offset + 8 <= file@.committed.len(),
        read is Ok <==> offset + 8 <= file@.committed.len(),
        little matches Ok(value) ==> value == read->Ok_0@[0] + read->Ok_0@[1] * 0x100
            + read->Ok_0@[2] * 0x10000 + read->Ok_0@[3] * 0x1000000
            + read->Ok_0@[4] * 0x100000000 + read->Ok_0@[5] * 0x10000000000
            + read->Ok_0@[6] * 0x1000000000000 + read->Ok_0@[7] * 0x100000000000000,
        big matches Ok(value) ==> value == read->Ok_0@[7] + read->Ok_0@[6] * 0x100
            + read->Ok_0@[5] * 0x10000 + read->Ok_0@[4] * 0x1000000
            + read->Ok_0@[3] * 0x100000000 + read->Ok_0@[2] * 0x10000000000
            + read->Ok_0@[1] * 0x1000000000000 + read->Ok_0@[0] * 0x100000000000000,
        little matches Err(error) ==> error == (Error::OutOfBounds {
            offset,
            length: 8,
            file_size: file@.committed.len() as usize,
        }),
        big matches Err(error) ==> error == (Error::OutOfBounds {
            offset,
            length: 8,
            file_size: file@.committed.len() as usize,
        }),
{
    lemma_composited_len(file@.committed, 0, file@.log);
    if read is Ok {
        value_of_8_bytes(read->Ok_0@);
    }
}

/// Writing a `u64` to a file logs its digits at the offset, and succeeds exactly where they lie
/// within the data.
pub proof fn u64_is_written_as_its_digits(
    value: u64,
    offset: usize,
    little: &mut CowFile,
    big: &mut CowFile,
    put: Result<(), Error>,
    laid: Result<(), Error>,
)
    requires
        call_ensures(CowFile::write_le::<u64>, (little, offset, value), put),
        call_ensures(CowFile::write_be::<u64>, (big, offset, value), laid),
    ensures
        put is Ok <==> offset + 8 <= old(little)@.committed.len(),
        laid is Ok <==> offset + 8 <= old(big)@.committed.len(),
        put is Err ==> final(little)@ == old(little)@ && put->Err_0 == (Error::OutOfBounds {
            offset,
            length: 8,
            file_size: old(little)@.committed.len() as usize,
        }),
        laid is Err ==> final(big)@ == old(big)@ && laid->Err_0 == (Error::OutOfBounds {
            offset,
            length: 8,
            file_size: old(big)@.committed.len() as usize,
        }),
        put is Ok ==> ({
            let number: int = value as int;
            let logged = final(little)@.log.last();
            &&& final(little)@.log == old(little)@.log.push(logged)
            &&& logged.offset == offset
            &&& logged.data.len() == 8
            &&& logged.data[0] == number % 256
            &&& logged.data[1] == (number / 0x100) % 256
            &&& logged.data[2] == (number / 0x10000) % 256
            &&& logged.data[3] == (number / 0x1000000) % 256
            &&& logged.data[4] == (number / 0x100000000) % 256
            &&& logged.data[5] == (number / 0x10000000000) % 256
            &&& logged.data[6] == (number / 0x1000000000000) % 256
            &&& logged.data[7] == (number / 0x100000000000000) % 256
        }),
        laid is Ok ==> ({
            let number: int = value as int;
            let logged = final(big)@.log.last();
            &&& final(big)@.log == old(big)@.log.push(logged)
            &&& logged.offset == offset
            &&& logged.data.len() == 8
            &&& logged.data[7] == number % 256
            &&& logged.data[6] == (number / 0x100) % 256
            &&& logged.data[5] == (number / 0x10000) % 256
            &&& logged.data[4] == (number / 0x1000000) % 256
            &&& logged.data[3] == (number / 0x100000000) % 256
            &&& logged.data[2] == (number / 0x10000000000) % 256
            &&& logged.data[1] == (number / 0x1000000000000) % 256
            &&& logged.data[0] == (number / 0x100000000000000) % 256
        }),
        final(little)@.committed == old(little)@.committed,
        final(little)@.mapped == old(little)@.mapped,
        final(little)@.source == old(little)@.source,
        final(little)@.opened == old(little)@.opened,
        final(little)@.changed == old(little)@.changed,
        final(big)@.committed == old(big)@.committed,
        final(big)@.mapped == old(big)@.mapped,
        final(big)@.source == old(big)@.source,
        final(big)@.opened == old(big)@.opened,
        final(big)@.changed == old(big)@.changed,
{
    bytes_of_8_byte_number(value.bits());
}

/// The unsigned number that stands for a `i64`, and its size.
pub proof fn i64_bits_are_the_value(value: i64)
    ensures
        <i64 as Primitive>::size() == 8,
        value >= 0 ==> value.bits() == value,
        value < 0 ==> value.bits() == value + 0x1_0000_0000_0000_0000,
{
}

/// Decoding a `i64` gives the value whose digits the bytes are.
pub proof fn i64_is_decoded_from_its_digits(bytes: &[u8], little: i64, big: i64)
    requires
        bytes@.len() >= 8,
        call_ensures(<i64 as Primitive>::from_le_bytes, (bytes,), little),
        call_ensures(<i64 as Primitive>::from_be_bytes, (bytes,), big),
    ensures
        (if little >= 0 {
            little as int
        } else {
            little + 0x1_0000_0000_0000_0000
        }) == bytes@[0] + bytes@[1] * 0x100 + bytes@[2] * 0x10000 + bytes@[3] * 0x1000000
            + bytes@[4] * 0x100000000 + bytes@[5] * 0x10000000000 + bytes@[6] * 0x1000000000000
            + bytes@[7] * 0x100000000000000,
        (if big >= 0 {
            big as int
        } else {
            big + 0x1_0000_0000_0000_0000
        }) == bytes@[7] + bytes@[6] * 0x100 + bytes@[5] * 0x10000 + bytes@[4] * 0x1000000
            + bytes@[3] * 0x100000000 + bytes@[2] * 0x10000000000 + bytes@[1] * 0x1000000000000
            + bytes@[0] * 0x100000000000000,
{
    value_of_8_bytes(bytes@.take(8));
}

/// Encoding a `i64` puts its digits at the front of the buffer and leaves the rest.
pub proof fn i64_is_encoded_as_its_digits(
    value: i64,
    little: &mut [u8],
    big: &mut [u8],
    unit: (),
    i: int,
)
    requires
        old(little)@.len() >= 8,
        old(big)@.len() >= 8,
        call_ensures(<i64 as Primitive>::write_le_bytes, (value, little), unit),
        call_ensures(<i64 as Primitive>::write_be_bytes, (value, big), unit),
    ensures
        ({
            let number: int = (if value >= 0 {
            value as int
        } else {
            value + 0x1_0000_0000_0000_0000
        });
            &&& final(little)@.len() == old(little)@.len()
            &&& final(big)@.len() == old(big)@.len()
            &&& 8 <= i < old(little)@.len() ==> final(little)@[i] == old(little)@[i]
            &&& 8 <= i < old(big)@.len() ==> final(big)@[i] == old(big)@[i]
            &&& final(little)@[0] == number % 256
            &&& final(big)@[7] == number % 256
            &&& final(little)@[1] == (number / 0x100) % 256
            &&& final(big)@[6] == (number / 0x100) % 256
            &&& final(little)@[2] == (number / 0x10000) % 256
            &&& final(big)@[5] == (number / 0x10000) % 256
            &&& final(little)@[3] == (number / 0x1000000) % 256
            &&& final(big)@[4] == (number / 0x1000000) % 256
            &&& final(little)@[4] == (number / 0x100000000) % 256
            &&& final(big)@[3] == (number / 0x100000000) % 256
            &&& final(little)@[5] == (number / 0x10000000000) % 256
            &&& final(big)@[2] == (number / 0x10000000000) % 256
            &&& final(little)@[6] == (number / 0x1000000000000) % 256
            &&& final(big)@[1] == (number / 0x1000000000000) % 256
            &&& final(little)@[7] == (number / 0x100000000000000) % 256
            &&& final(big)@[0] == (number / 0x100000000000000) % 256
        }),
{
    bytes_of_8_byte_number(value.bits());
}

/// Reading a `i64` of a file gives the value whose digits a read of as many bytes gives, and
/// succeeds exactly where that lies within the data.
pub proof fn i64_is_read_from_its_digits(
    file: &CowFile,
    offset: usize,
    little: Result<i64, Error>,
    big: Result<i64, Error>,
    read: Result<Vec<u8>, Error>,
)
    requires
        call_ensures(CowFile::read_le::<i64>, (file, offset), little),
        call_ensures(CowFile::read_be::<i64>, (file, offset), big),
        call_ensures(CowFile::read, (file, offset, 8usize), read),
    ensures
        little is Ok <==> offset + 8 <= file@.committed.len(),
        big is Ok <==> offset + 8 <= file@.committed.len(),
        read is Ok <==> offset + 8 <= file@.committed.len(),
        little matches Ok(value) ==> (if value >= 0 {
            value as int
        } else {
            value + 0x1_0000_0000_0000_0000
        }) == read->Ok_0@[0] + read->Ok_0@[1] * 0x100 + read->Ok_0@[2] * 0x10000
            + read->Ok_0@[3] * 0x1000000 + read->Ok_0@[4] * 0x100000000
            + read->Ok_0@[5] * 0x10000000000 + read->Ok_0@[6] * 0x1000000000000
            + read->Ok_0@[7] * 0x100000000000000,
        big matches Ok(value) ==> (if value >= 0 {
            value as int
        } else {
            value + 0x1_0000_0000_0000_0000
        }) == read->Ok_0@[7] + read->Ok_0@[6] * 0x100 + read->Ok_0@[5] * 0x10000
            + read->Ok_0@[4] * 0x1000000 + read->Ok_0@[3] * 0x100000000
            + read->Ok_0@[2] * 0x10000000000 + read->Ok_0@[1] * 0x1000000000000
            + read->Ok_0@[0] * 0x100000000000000,
        little matches Err(error) ==> error == (Error::OutOfBounds {
            offset,
            length: 8,
            file_size: file@.committed.len() as usize,
        }),
        big matches Err(error) ==> error == (Error::OutOfBounds {
            offset,
            length: 8,
            file_size: file@.committed.len() as usize,
        }),
{
    lemma_composited_len(file@.committed, 0, file@.log);
    if read is Ok {
        value_of_8_bytes(read->Ok_0@);
    }
}

/// Writing a `i64` to a file logs its digits at the offset, and succeeds exactly where they lie
/// within the data.
pub proof fn i64_is_written_as_its_digits(
    value: i64,
    offset: usize,
    little: &mut CowFile,
    big: &mut CowFile,
    put: Result<(), Error>,
    laid: Result<(), Error>,
)
    requires
        call_ensures(CowFile::write_le::<i64>, (little, offset, value), put),
        call_ensures(CowFile::write_be::<i64>, (big, offset, value), laid),
    ensures
        put is Ok <==> offset + 8 <= old(little)@.committed.len(),
        laid is Ok <==> offset + 8 <= old(big)@.committed.len(),
        put is Err ==> final(little)@ == old(little)@ && put->Err_0 == (Error::OutOfBounds {
            offset,
            length: 8,
            file_size: old(little)@.committed.len() as usize,
        }),
        laid is Err ==> final(big)@ == old(big)@ && laid->Err_0 == (Error::OutOfBounds {
            offset,
            length: 8,
            file_size: old(big)@.committed.len() as usize,
        }),
        put is Ok ==> ({
            let number: int = (if value >= 0 {
            value as int
        } else {
            value + 0x1_0000_0000_0000_0000
        });
            let logged = final(little)@.log.last();
            &&& final(little)@.log == old(little)@.log.push(logged)
            &&& logged.offset == offset
            &&& logged.data.len() == 8
            &&& logged.data[0] == number % 256
            &&& logged.data[1] == (number / 0x100) % 256
            &&& logged.data[2] == (number / 0x10000) % 256
            &&& logged.data[3] == (number / 0x1000000) % 256
            &&& logged.data[4] == (number / 0x100000000) % 256
            &&& logged.data[5] == (number / 0x10000000000) % 256
            &&& logged.data[6] == (number / 0x1000000000000) % 256
            &&& logged.data[7] == (number / 0x100000000000000) % 256
        }),
        laid is Ok ==> ({
            let number: int = (if value >= 0 {
            value as int
        } else {
            value + 0x1_0000_0000_0000_0000
        });
            let logged = final(big)@.log.last();
            &&& final(big)@.log == old(big)@.log.push(logged)
            &&& logged.offset == offset
            &&& logged.data.len() == 8
            &&& logged.data[7] == number % 256
            &&& logged.data[6] == (number / 0x100) % 256
            &&& logged.data[5] == (number / 0x10000) % 256
            &&& logged.data[4] == (number / 0x1000000) % 256
            &&& logged.data[3] == (number / 0x100000000) % 256
            &&& logged.data[2] == (number / 0x10000000000) % 256
            &&& logged.data[1] == (number / 0x1000000000000) % 256
            &&& logged.data[0] == (number / 0x100000000000000) % 256
        }),
        final(little)@.committed == old(little)@.committed,
        final(little)@.mapped == old(little)@.mapped,
        final(little)@.source == old(little)@.source,
        final(little)@.opened == old(little)@.opened,
        final(little)@.changed == old(little)@.changed,
        final(big)@.committed == old(big)@.committed,
        final(big)@.mapped == old(big)@.mapped,
        final(big)@.source == old(big)@.source,
        final(big)@.opened == old(big)@.opened,
        final(big)@.changed == old(big)@.changed,
{
    bytes_of_8_byte_number(value.bits());
}

} // verus!
