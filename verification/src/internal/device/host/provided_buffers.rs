//! Descriptors of buffers that are handed to the kernel in a ring.
use crate::bytes::{push_u16, push_u32, push_u64, u16_le, u32_le, u64_le};
use crate::internal::powers::{is_power_of_two, power_of_two};
use vstd::prelude::*;

verus! {

/// One entry of a ring of provided buffers.
#[derive(Debug, Clone, Copy, PartialEq, Eq, Structural)]
pub struct IoUringBuf {
    /// Address of the buffer.
    pub addr: u64,
    /// Bytes of the buffer.
    pub len: u32,
    /// Identifier that comes back with a completion.
    pub bid: u16,
    /// Zero.
    pub resv: u16,
}

impl IoUringBuf {
    /// The 16 bytes of the entry.
    pub open spec fn wire(self) -> Seq<u8> {
        u64_le(self.addr) + u32_le(self.len) + u16_le(self.bid) + u16_le(self.resv)
    }

    /// The entry of buffer `bid`.
    #[must_use]
    pub fn new(addr: u64, len: u32, bid: u16) -> (buf: Self)
        ensures
            buf == (IoUringBuf { addr, len, bid, resv: 0 }),
    {
        IoUringBuf { addr, len, bid, resv: 0 }
    }

    /// The bytes of the entry.
    pub fn to_bytes(self) -> (out: Vec<u8>)
        ensures
            out@ == self.wire(),
    {
        let mut out: Vec<u8> = Vec::new();
        push_u64(&mut out, self.addr);
        push_u32(&mut out, self.len);
        push_u16(&mut out, self.bid);
        push_u16(&mut out, self.resv);
        assert(out@ =~= self.wire());
        out
    }
}

/// Each member of an entry stands where the kernel looks for it.
pub proof fn law_buf_layout(buf: IoUringBuf)
    ensures
        buf.wire().len() == 16,
        buf.wire().subrange(0, 8) == u64_le(buf.addr),
        buf.wire().subrange(8, 12) == u32_le(buf.len),
        buf.wire().subrange(12, 14) == u16_le(buf.bid),
        buf.wire().subrange(14, 16) == u16_le(buf.resv),
{
    let w = buf.wire();
    assert(w.subrange(0, 8) =~= u64_le(buf.addr));
    assert(w.subrange(8, 12) =~= u32_le(buf.len));
    assert(w.subrange(12, 14) =~= u16_le(buf.bid));
    assert(w.subrange(14, 16) =~= u16_le(buf.resv));
}

/// What a ring is registered with.
#[derive(Debug, Clone, Copy, PartialEq, Eq, Structural)]
pub struct ProvidedBufferRingSpec {
    /// The group of buffers.
    pub bgid: u16,
    /// Entries of the ring.
    pub entries: u16,
    /// Flags.
    pub flags: u16,
}

impl ProvidedBufferRingSpec {
    /// A ring whose memory is the caller's.
    #[must_use]
    pub fn userspace(bgid: u16, entries: u16) -> (spec_: Self)
        ensures
            spec_ == (ProvidedBufferRingSpec { bgid, entries, flags: 0 }),
    {
        ProvidedBufferRingSpec { bgid, entries, flags: 0 }
    }

    /// Whether the kernel takes the number of entries: a power of two.
    #[must_use]
    pub fn entries_ok(self) -> (ok: bool)
        ensures
            ok == power_of_two(self.entries as nat),
    {
        self.entries != 0 && is_power_of_two(self.entries as u64)
    }
}

} // verus!
