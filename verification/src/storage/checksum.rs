//! The integrity checksum of stored graphs.
use vstd::prelude::*;

verus! {

/// A remainder after one more bit, least significant bit first.
pub open spec fn crc_bit(c: u32) -> u32 {
    if c & 1 == 1 {
        (c >> 1) ^ 0xedb8_8320
    } else {
        c >> 1
    }
}

/// A remainder after `n` more bits.
pub open spec fn crc_bits(c: u32, n: nat) -> u32
    decreases n,
{
    if n == 0 {
        c
    } else {
        crc_bit(crc_bits(c, (n - 1) as nat))
    }
}

/// The remainder after the bytes.
pub open spec fn crc_bytes(data: Seq<u8>) -> u32
    decreases data.len(),
{
    if data.len() == 0 {
        0xffff_ffff
    } else {
        crc_bits(crc_bytes(data.drop_last()) ^ (data.last() as u32), 8)
    }
}

/// CRC-32 (IEEE) of a byte sequence.
pub open spec fn crc32(data: Seq<u8>) -> u32 {
    !crc_bytes(data)
}

/// `crc32fast::hash`: the CRC-32 (IEEE) of `data`.
#[verifier::external_body]
pub(crate) fn crc32_of(data: &[u8]) -> (c: u32)
    ensures
        c == crc32(data@),
{
    crc32fast::hash(data)
}

} // verus!
