//! Integers as arrays of bytes, for commands that a device reads.
use crate::bytes::{holds_at, le2, le4, le8, le_byte, u16_le, u32_le, u64_le};
use crate::bytes::{lemma_u16_round_trip, lemma_u32_round_trip, lemma_u64_round_trip};
use vstd::prelude::*;

verus! {

/// `n` bytes of zero.
pub open spec fn zeros(n: nat) -> Seq<u8> {
    Seq::new(n, |k: int| 0u8)
}

/// The big-endian bytes of a `u32`.
pub open spec fn u32_be(x: u32) -> Seq<u8> {
    Seq::new(4, |k: int| le_byte(x as int, 3 - k))
}

/// The big-endian bytes of a `u64`.
pub open spec fn u64_be(x: u64) -> Seq<u8> {
    Seq::new(8, |k: int| le_byte(x as int, 7 - k))
}

/// The integer whose big-endian form is `b`, of four bytes.
pub open spec fn be4(b: Seq<u8>) -> int {
    le4(b.reverse(), 0)
}

/// The integer whose big-endian form is `b`, of eight bytes.
pub open spec fn be8(b: Seq<u8>) -> int {
    le8(b.reverse(), 0)
}

/// Reading back an integer gives what was written, in either byte order.
pub proof fn law_words_round_trip(a: u16, b: u32, c: u64)
    ensures
        le2(u16_le(a), 0) == a,
        le4(u32_le(b), 0) == b,
        le8(u64_le(c), 0) == c,
        be4(u32_be(b)) == b,
        be8(u64_be(c)) == c,
{
    assert(holds_at(u16_le(a), 0, u16_le(a)));
    assert(holds_at(u32_le(b), 0, u32_le(b)));
    assert(holds_at(u64_le(c), 0, u64_le(c)));
    lemma_u16_round_trip(u16_le(a), 0, a);
    lemma_u32_round_trip(u32_le(b), 0, b);
    lemma_u64_round_trip(u64_le(c), 0, c);
    assert(u32_be(b).reverse() =~= u32_le(b));
    assert(u64_be(c).reverse() =~= u64_le(c));
}

/// The little-endian bytes of a `u16`.
pub fn u16_le_array(x: u16) -> (a: [u8; 2])
    ensures
        a@ == u16_le(x),
{
    let a: [u8; 2] = [(x % 0x100) as u8, (x / 0x100) as u8];
    assert(a@ =~= u16_le(x));
    a
}

/// The little-endian bytes of a `u32`.
pub fn u32_le_array(x: u32) -> (a: [u8; 4])
    ensures
        a@ == u32_le(x),
{
    let a: [u8; 4] = [
        (x % 0x100) as u8,
        ((x / 0x100) % 0x100) as u8,
        ((x / 0x1_0000) % 0x100) as u8,
        (x / 0x100_0000) as u8,
    ];
    assert(a@ =~= u32_le(x));
    a
}

/// The little-endian bytes of a `u64`.
pub fn u64_le_array(x: u64) -> (a: [u8; 8])
    ensures
        a@ == u64_le(x),
{
    let a: [u8; 8] = [
        (x % 0x100) as u8,
        ((x / 0x100) % 0x100) as u8,
        ((x / 0x1_0000) % 0x100) as u8,
        ((x / 0x100_0000) % 0x100) as u8,
        ((x / 0x1_0000_0000) % 0x100) as u8,
        ((x / 0x100_0000_0000) % 0x100) as u8,
        ((x / 0x1_0000_0000_0000) % 0x100) as u8,
        (x / 0x100_0000_0000_0000) as u8,
    ];
    assert(a@ =~= u64_le(x));
    a
}

/// The big-endian bytes of a `u32`.
pub fn u32_be_array(x: u32) -> (a: [u8; 4])
    ensures
        a@ == u32_be(x),
{
    let a: [u8; 4] = [
        (x / 0x100_0000) as u8,
        ((x / 0x1_0000) % 0x100) as u8,
        ((x / 0x100) % 0x100) as u8,
        (x % 0x100) as u8,
    ];
    assert(a@ =~= u32_be(x));
    a
}

/// The big-endian bytes of a `u64`.
pub fn u64_be_array(x: u64) -> (a: [u8; 8])
    ensures
        a@ == u64_be(x),
{
    let a: [u8; 8] = [
        (x / 0x100_0000_0000_0000) as u8,
        ((x / 0x1_0000_0000_0000) % 0x100) as u8,
        ((x / 0x100_0000_0000) % 0x100) as u8,
        ((x / 0x1_0000_0000) % 0x100) as u8,
        ((x / 0x100_0000) % 0x100) as u8,
        ((x / 0x1_0000) % 0x100) as u8,
        ((x / 0x100) % 0x100) as u8,
        (x % 0x100) as u8,
    ];
    assert(a@ =~= u64_be(x));
    a
}

/// The integer whose big-endian form is `a`.
pub fn read_u32_be(a: [u8; 4]) -> (x: u32)
    ensures
        x == be4(a@),
{
    a[3] as u32 + 0x100 * (a[2] as u32) + 0x1_0000 * (a[1] as u32) + 0x100_0000 * (a[0] as u32)
}

} // verus!
