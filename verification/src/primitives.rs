//! Sealed [`Primitive`] trait for typed little-endian and big-endian I/O.
//!
//! This module defines a trait for numeric types that can be read from and written to a
//! [`CowFile`](crate::CowFile) at a given byte offset. The trait is sealed: external crates cannot
//! implement it for their own types. For user-defined structs, use
//! [`ReadFrom`](crate::ReadFrom) and [`WriteTo`](crate::WriteTo) instead.
//!
//! Floating-point numbers go through the unsigned integers that hold their bits.

use vstd::prelude::*;

use crate::endian::{get_be, get_le, put_be, put_le};
use crate::private::Sealed;

verus! {

use crate::bytes::splice;
use crate::endian::{be_bytes, be_value, le_bytes, le_value, pow256};

/// Sealed trait for numeric primitives that support endian-aware byte I/O.
///
/// Implemented for: [`u8`], [`i8`], [`u16`], [`i16`], [`u32`], [`i32`], [`u64`], [`i64`].
pub trait Primitive: Sized + Copy + Sealed {
    /// The size of this type in bytes.
    const SIZE: usize;

    /// The size of this type in bytes, as contracts speak of it.
    spec fn size() -> nat;

    /// The value as an unsigned number: itself, or its two's complement where it is negative.
    spec fn bits(self) -> nat;

    /// The size is that of a 64-bit number or less.
    proof fn size_is_small()
        ensures
            Self::SIZE == Self::size(),
            0 < Self::size() <= 8,
    ;

    /// The unsigned number fits in the size.
    proof fn bits_fit(self)
        ensures
            self.bits() < pow256(Self::size()),
    ;

    /// The unsigned number tells values apart.
    proof fn bits_injective(self, other: Self)
        requires
            self.bits() == other.bits(),
        ensures
            self == other,
    ;

    /// Decodes a value from little-endian bytes, of which there must be at least `SIZE`.
    fn from_le_bytes(bytes: &[u8]) -> (value: Self)
        requires
            bytes@.len() >= Self::size(),
        ensures
            value.bits() == le_value(bytes@.take(Self::size() as int)),
    ;

    /// Decodes a value from big-endian bytes, of which there must be at least `SIZE`.
    fn from_be_bytes(bytes: &[u8]) -> (value: Self)
        requires
            bytes@.len() >= Self::size(),
        ensures
            value.bits() == be_value(bytes@.take(Self::size() as int)),
    ;

    /// Encodes this value as little-endian bytes into the front of `buf`, which must have room
    /// for `SIZE`.
    fn write_le_bytes(self, buf: &mut [u8])
        requires
            old(buf)@.len() >= Self::size(),
        ensures
            final(buf)@ == splice(old(buf)@, 0, le_bytes(self.bits(), Self::size())),
    ;

    /// Encodes this value as big-endian bytes into the front of `buf`, which must have room for
    /// `SIZE`.
    fn write_be_bytes(self, buf: &mut [u8])
        requires
            old(buf)@.len() >= Self::size(),
        ensures
            final(buf)@ == splice(old(buf)@, 0, be_bytes(self.bits(), Self::size())),
    ;
}

impl Sealed for u8 {

}

impl Primitive for u8 {
    const SIZE: usize = 1;

    open spec fn size() -> nat {
        1
    }

    proof fn size_is_small() {
    }

    open spec fn bits(self) -> nat {
        self as nat
    }

    proof fn bits_fit(self) {
        reveal_with_fuel(pow256, 9);
    }

    proof fn bits_injective(self, other: Self) {
    }

    fn from_le_bytes(bytes: &[u8]) -> (value: Self) {
        proof {
            reveal_with_fuel(pow256, 9);
        }
        get_le(bytes, 1) as u8
    }

    fn from_be_bytes(bytes: &[u8]) -> (value: Self) {
        proof {
            reveal_with_fuel(pow256, 9);
        }
        get_be(bytes, 1) as u8
    }

    fn write_le_bytes(self, buf: &mut [u8]) {
        put_le(self as u64, buf, 1);
    }

    fn write_be_bytes(self, buf: &mut [u8]) {
        put_be(self as u64, buf, 1);
    }
}

impl Sealed for i8 {

}

impl Primitive for i8 {
    const SIZE: usize = 1;

    open spec fn size() -> nat {
        1
    }

    proof fn size_is_small() {
    }

    open spec fn bits(self) -> nat {
        if self >= 0 {
            self as nat
        } else {
            (self + 0x100) as nat
        }
    }

    proof fn bits_fit(self) {
        reveal_with_fuel(pow256, 9);
    }

    proof fn bits_injective(self, other: Self) {
    }

    fn from_le_bytes(bytes: &[u8]) -> (value: Self) {
        signed8(<u8 as Primitive>::from_le_bytes(bytes))
    }

    fn from_be_bytes(bytes: &[u8]) -> (value: Self) {
        signed8(<u8 as Primitive>::from_be_bytes(bytes))
    }

    fn write_le_bytes(self, buf: &mut [u8]) {
        unsigned8(self).write_le_bytes(buf);
    }

    fn write_be_bytes(self, buf: &mut [u8]) {
        unsigned8(self).write_be_bytes(buf);
    }
}

/// The signed number whose two's complement is `bits`.
fn signed8(bits: u8) -> (value: i8)
    ensures
        value.bits() == bits,
{
    assert((bits as i8) >= 0 ==> (bits as i8) == bits) by (bit_vector);
    assert((bits as i8) < 0 ==> (bits as i8) + 0x100 == bits) by (bit_vector);
    bits as i8
}

/// The two's complement of a signed number.
fn unsigned8(value: i8) -> (bits: u8)
    ensures
        bits == value.bits(),
{
    assert(value >= 0 ==> (value as u8) == value) by (bit_vector);
    assert(value < 0 ==> (value as u8) == value + 0x100) by (bit_vector);
    value as u8
}

impl Sealed for u16 {

}

impl Primitive for u16 {
    const SIZE: usize = 2;

    open spec fn size() -> nat {
        2
    }

    proof fn size_is_small() {
    }

    open spec fn bits(self) -> nat {
        self as nat
    }

    proof fn bits_fit(self) {
        reveal_with_fuel(pow256, 9);
    }

    proof fn bits_injective(self, other: Self) {
    }

    fn from_le_bytes(bytes: &[u8]) -> (value: Self) {
        proof {
            reveal_with_fuel(pow256, 9);
        }
        get_le(bytes, 2) as u16
    }

    fn from_be_bytes(bytes: &[u8]) -> (value: Self) {
        proof {
            reveal_with_fuel(pow256, 9);
        }
        get_be(bytes, 2) as u16
    }

    fn write_le_bytes(self, buf: &mut [u8]) {
        put_le(self as u64, buf, 2);
    }

    fn write_be_bytes(self, buf: &mut [u8]) {
        put_be(self as u64, buf, 2);
    }
}

impl Sealed for i16 {

}

impl Primitive for i16 {
    const SIZE: usize = 2;

    open spec fn size() -> nat {
        2
    }

    proof fn size_is_small() {
    }

    open spec fn bits(self) -> nat {
        if self >= 0 {
            self as nat
        } else {
            (self + 0x1_0000) as nat
        }
    }

    proof fn bits_fit(self) {
        reveal_with_fuel(pow256, 9);
    }

    proof fn bits_injective(self, other: Self) {
    }

    fn from_le_bytes(bytes: &[u8]) -> (value: Self) {
        signed16(<u16 as Primitive>::from_le_bytes(bytes))
    }

    fn from_be_bytes(bytes: &[u8]) -> (value: Self) {
        signed16(<u16 as Primitive>::from_be_bytes(bytes))
    }

    fn write_le_bytes(self, buf: &mut [u8]) {
        unsigned16(self).write_le_bytes(buf);
    }

    fn write_be_bytes(self, buf: &mut [u8]) {
        unsigned16(self).write_be_bytes(buf);
    }
}

/// The signed number whose two's complement is `bits`.
fn signed16(bits: u16) -> (value: i16)
    ensures
        value.bits() == bits,
{
    assert((bits as i16) >= 0 ==> (bits as i16) == bits) by (bit_vector);
    assert((bits as i16) < 0 ==> (bits as i16) + 0x1_0000 == bits) by (bit_vector);
    bits as i16
}

/// The two's complement of a signed number.
fn unsigned16(value: i16) -> (bits: u16)
    ensures
        bits == value.bits(),
{
    assert(value >= 0 ==> (value as u16) == value) by (bit_vector);
    assert(value < 0 ==> (value as u16) == value + 0x1_0000) by (bit_vector);
    value as u16
}

impl Sealed for u32 {

}

impl Primitive for u32 {
    const SIZE: usize = 4;

    open spec fn size() -> nat {
        4
    }

    proof fn size_is_small() {
    }

    open spec fn bits(self) -> nat {
        self as nat
    }

    proof fn bits_fit(self) {
        reveal_with_fuel(pow256, 9);
    }

    proof fn bits_injective(self, other: Self) {
    }

    fn from_le_bytes(bytes: &[u8]) -> (value: Self) {
        proof {
            reveal_with_fuel(pow256, 9);
        }
        get_le(bytes, 4) as u32
    }

    fn from_be_bytes(bytes: &[u8]) -> (value: Self) {
        proof {
            reveal_with_fuel(pow256, 9);
        }
        get_be(bytes, 4) as u32
    }

    fn write_le_bytes(self, buf: &mut [u8]) {
        put_le(self as u64, buf, 4);
    }

    fn write_be_bytes(self, buf: &mut [u8]) {
        put_be(self as u64, buf, 4);
    }
}

impl Sealed for i32 {

}

impl Primitive for i32 {
    const SIZE: usize = 4;

    open spec fn size() -> nat {
        4
    }

    proof fn size_is_small() {
    }

    open spec fn bits(self) -> nat {
        if self >= 0 {
            self as nat
        } else {
            (self + 0x1_0000_0000) as nat
        }
    }

    proof fn bits_fit(self) {
        reveal_with_fuel(pow256, 9);
    }

    proof fn bits_injective(self, other: Self) {
    }

    fn from_le_bytes(bytes: &[u8]) -> (value: Self) {
        signed32(<u32 as Primitive>::from_le_bytes(bytes))
    }

    fn from_be_bytes(bytes: &[u8]) -> (value: Self) {
        signed32(<u32 as Primitive>::from_be_bytes(bytes))
    }

    fn write_le_bytes(self, buf: &mut [u8]) {
        unsigned32(self).write_le_bytes(buf);
    }

    fn write_be_bytes(self, buf: &mut [u8]) {
        unsigned32(self).write_be_bytes(buf);
    }
}

/// The signed number whose two's complement is `bits`.
fn signed32(bits: u32) -> (value: i32)
    ensures
        value.bits() == bits,
{
    assert((bits as i32) >= 0 ==> (bits as i32) == bits) by (bit_vector);
    assert((bits as i32) < 0 ==> (bits as i32) + 0x1_0000_0000 == bits) by (bit_vector);
    bits as i32
}

/// The two's complement of a signed number.
fn unsigned32(value: i32) -> (bits: u32)
    ensures
        bits == value.bits(),
{
    assert(value >= 0 ==> (value as u32) == value) by (bit_vector);
    assert(value < 0 ==> (value as u32) == value + 0x1_0000_0000) by (bit_vector);
    value as u32
}

impl Sealed for u64 {

}

impl Primitive for u64 {
    const SIZE: usize = 8;

    open spec fn size() -> nat {
        8
    }

    proof fn size_is_small() {
    }

    open spec fn bits(self) -> nat {
        self as nat
    }

    proof fn bits_fit(self) {
        reveal_with_fuel(pow256, 9);
    }

    proof fn bits_injective(self, other: Self) {
    }

    fn from_le_bytes(bytes: &[u8]) -> (value: Self) {
        proof {
            reveal_with_fuel(pow256, 9);
        }
        get_le(bytes, 8)
    }

    fn from_be_bytes(bytes: &[u8]) -> (value: Self) {
        proof {
            reveal_with_fuel(pow256, 9);
        }
        get_be(bytes, 8)
    }

    fn write_le_bytes(self, buf: &mut [u8]) {
        put_le(self, buf, 8);
    }

    fn write_be_bytes(self, buf: &mut [u8]) {
        put_be(self, buf, 8);
    }
}

impl Sealed for i64 {

}

impl Primitive for i64 {
    const SIZE: usize = 8;

    open spec fn size() -> nat {
        8
    }

    proof fn size_is_small() {
    }

    open spec fn bits(self) -> nat {
        if self >= 0 {
            self as nat
        } else {
            (self + 0x1_0000_0000_0000_0000) as nat
        }
    }

    proof fn bits_fit(self) {
        reveal_with_fuel(pow256, 9);
    }

    proof fn bits_injective(self, other: Self) {
    }

    fn from_le_bytes(bytes: &[u8]) -> (value: Self) {
        signed64(<u64 as Primitive>::from_le_bytes(bytes))
    }

    fn from_be_bytes(bytes: &[u8]) -> (value: Self) {
        signed64(<u64 as Primitive>::from_be_bytes(bytes))
    }

    fn write_le_bytes(self, buf: &mut [u8]) {
        unsigned64(self).write_le_bytes(buf);
    }

    fn write_be_bytes(self, buf: &mut [u8]) {
        unsigned64(self).write_be_bytes(buf);
    }
}

/// The signed number whose two's complement is `bits`.
pub(crate) fn signed64(bits: u64) -> (value: i64)
    ensures
        value.bits() == bits,
{
    assert((bits as i64) >= 0 ==> (bits as i64) == bits) by (bit_vector);
    assert((bits as i64) < 0 ==> (bits as i64) + 0x1_0000_0000_0000_0000 == bits) by (bit_vector);
    bits as i64
}

/// The two's complement of a signed number.
fn unsigned64(value: i64) -> (bits: u64)
    ensures
        bits == value.bits(),
{
    assert(value >= 0 ==> (value as u64) == value) by (bit_vector);
    assert(value < 0 ==> (value as u64) == value + 0x1_0000_0000_0000_0000) by (bit_vector);
    value as u64
}

} // verus!
