//! The Zone Append command of zoned namespaces.
//!
//! Command words 10 and 11 hold the first block of the zone, the low half of
//! word 12 the number of blocks less one.
use super::sqe::{law_transfer_round_trip, transfer_array, transfer_words, SQE_BYTES};
use crate::bytes::{le2, le4, le8, push_bytes, read_u16, read_u64, u16_le, u32_le, u64_le};
use crate::internal::device::words::{
    law_words_round_trip, u16_le_array, u32_le_array, u64_le_array, zeros,
};
use vstd::prelude::*;

verus! {

/// Opcode of Zone Append.
pub const NVME_OPC_ZONE_APPEND: u8 = 0x7d;

/// A Zone Append entry.
#[derive(Debug, Clone, Copy, PartialEq, Eq)]
pub struct ZoneAppendSqe {
    /// Opcode.
    pub opcode: u8,
    /// Flags.
    pub flags: u8,
    /// Command identifier.
    pub command_id: [u8; 2],
    /// Namespace.
    pub nsid: [u8; 4],
    /// Zero.
    pub reserved: [u8; 16],
    /// First page of the data.
    pub prp1: [u8; 8],
    /// Second page of the data, or a list of pages.
    pub prp2: [u8; 8],
    /// Command words 10 to 15.
    pub cdw10_15: [u8; 24],
}

impl ZoneAppendSqe {
    /// The 64 bytes of the entry, in the order in which a device reads them.
    pub open spec fn wire(self) -> Seq<u8> {
        seq![self.opcode, self.flags] + self.command_id@ + self.nsid@ + self.reserved@ + self.prp1@
            + self.prp2@ + self.cdw10_15@
    }

    /// The entry appends `nlb + 1` blocks to the zone that starts at `zone`.
    pub open spec fn appends(
        self,
        nsid: u32,
        command_id: u16,
        zone: u64,
        nlb: u16,
        prp1: u64,
        prp2: u64,
    ) -> bool {
        &&& self.opcode == NVME_OPC_ZONE_APPEND
        &&& self.flags == 0
        &&& self.command_id@ == u16_le(command_id)
        &&& self.nsid@ == u32_le(nsid)
        &&& self.reserved@ == zeros(16)
        &&& self.prp1@ == u64_le(prp1)
        &&& self.prp2@ == u64_le(prp2)
        &&& self.cdw10_15@ == transfer_words(zone, nlb)
    }

    /// Builds a Zone Append. `nlb` counts blocks from zero: zero transfers one.
    pub fn new(nsid: u32, command_id: u16, zone_start_lba: u64, nlb: u16, prp1: u64, prp2: u64) -> (
    sqe: Self)
        ensures
            sqe.appends(nsid, command_id, zone_start_lba, nlb, prp1, prp2),
            sqe.opcode == 0x7d,
    {
        let sqe = ZoneAppendSqe {
            opcode: NVME_OPC_ZONE_APPEND,
            flags: 0,
            command_id: u16_le_array(command_id),
            nsid: u32_le_array(nsid),
            reserved: [0; 16],
            prp1: u64_le_array(prp1),
            prp2: u64_le_array(prp2),
            cdw10_15: transfer_array(zone_start_lba, nlb),
        };
        assert(sqe.reserved@ =~= zeros(16));
        sqe
    }

    /// The first block of the zone, never an offset inside it.
    pub fn zone_start_lba(self) -> (lba: u64)
        ensures
            lba == le8(self.cdw10_15@, 0),
    {
        read_u64(self.cdw10_15.as_slice(), 0)
    }

    /// The number of blocks less one.
    pub fn nlb(self) -> (n: u16)
        ensures
            n == le2(self.cdw10_15@, 8),
    {
        read_u16(self.cdw10_15.as_slice(), 8)
    }

    /// The bytes of the entry.
    pub fn to_bytes(self) -> (out: Vec<u8>)
        ensures
            out@ == self.wire(),
    {
        let mut out: Vec<u8> = Vec::new();
        out.push(self.opcode);
        out.push(self.flags);
        push_bytes(&mut out, self.command_id.as_slice());
        push_bytes(&mut out, self.nsid.as_slice());
        push_bytes(&mut out, self.reserved.as_slice());
        push_bytes(&mut out, self.prp1.as_slice());
        push_bytes(&mut out, self.prp2.as_slice());
        push_bytes(&mut out, self.cdw10_15.as_slice());
        assert(out@ =~= self.wire());
        out
    }
}

/// A Zone Append has the layout of every command: the pages at 24 and 32, the
/// command words at 40.
pub proof fn law_zone_append_layout(sqe: ZoneAppendSqe)
    ensures
        sqe.wire().len() == SQE_BYTES,
        sqe.wire()[0] == sqe.opcode,
        sqe.wire().subrange(2, 4) == sqe.command_id@,
        sqe.wire().subrange(4, 8) == sqe.nsid@,
        sqe.wire().subrange(24, 32) == sqe.prp1@,
        sqe.wire().subrange(32, 40) == sqe.prp2@,
        sqe.wire().subrange(40, 64) == sqe.cdw10_15@,
{
    let w = sqe.wire();
    assert(w.subrange(2, 4) =~= sqe.command_id@);
    assert(w.subrange(4, 8) =~= sqe.nsid@);
    assert(w.subrange(24, 32) =~= sqe.prp1@);
    assert(w.subrange(32, 40) =~= sqe.prp2@);
    assert(w.subrange(40, 64) =~= sqe.cdw10_15@);
}

/// What a Zone Append was built from can be read out of it again.
pub proof fn law_zone_append_round_trip(
    sqe: ZoneAppendSqe,
    nsid: u32,
    command_id: u16,
    zone: u64,
    nlb: u16,
    prp1: u64,
    prp2: u64,
)
    requires
        sqe.appends(nsid, command_id, zone, nlb, prp1, prp2),
    ensures
        le2(sqe.command_id@, 0) == command_id,
        le4(sqe.nsid@, 0) == nsid,
        le8(sqe.prp1@, 0) == prp1,
        le8(sqe.prp2@, 0) == prp2,
        le8(sqe.cdw10_15@, 0) == zone,
        le2(sqe.cdw10_15@, 8) == nlb,
{
    law_words_round_trip(command_id, nsid, prp1);
    law_words_round_trip(command_id, nsid, prp2);
    law_transfer_round_trip(zone, nlb);
}

} // verus!
