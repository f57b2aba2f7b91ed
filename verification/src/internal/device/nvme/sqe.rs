//! Submission queue entries of NVMe READ and WRITE.
//!
//! An entry is 64 bytes that a device reads from memory, so each member of
//! several bytes is kept as the little-endian bytes that go out.
use super::fdp::{directive_word, pack_directive, FdpPlacementId, NvmeDirective};
use crate::bytes::{le2, le4, le8, push_bytes, read_u16, read_u32, read_u64};
use crate::bytes::{lemma_holds_between, lemma_u64_round_trip, u16_le, u32_le, u64_le};
use crate::internal::device::words::{
    law_words_round_trip, u16_le_array, u32_le_array, u64_le_array, zeros,
};
use vstd::prelude::*;

verus! {

/// Opcode of READ.
pub const NVME_OPC_READ: u8 = 0x02;

/// Opcode of WRITE.
pub const NVME_OPC_WRITE: u8 = 0x01;

/// Flag that the data pointer is an SGL descriptor.
pub const PSDT_SGL: u8 = 0x40;

/// Bytes of a submission queue entry.
pub const SQE_BYTES: usize = 64;

/// The data pointer of a READ or WRITE.
#[derive(Debug, Clone, Copy, PartialEq, Eq)]
pub enum NvmeDataPointer {
    /// Addresses of physical region pages.
    Prp {
        /// The first page.
        prp1: u64,
        /// The second page, or a list of pages.
        prp2: u64,
    },
    /// An SGL descriptor, already in the order of bytes that goes out.
    Sgl([u8; 16]),
}

impl NvmeDataPointer {
    /// The 16 bytes of the pointer in a command.
    pub open spec fn wire(self) -> Seq<u8> {
        match self {
            NvmeDataPointer::Prp { prp1, prp2 } => u64_le(prp1) + u64_le(prp2),
            NvmeDataPointer::Sgl(sgl) => sgl@,
        }
    }

    /// The flags of a command with this pointer.
    pub open spec fn flags(self) -> u8 {
        match self {
            NvmeDataPointer::Prp { .. } => 0,
            NvmeDataPointer::Sgl(..) => PSDT_SGL,
        }
    }
}

/// One entry of an NVMe submission queue.
#[derive(Debug, Clone, Copy, PartialEq, Eq)]
pub struct NvmeRwSqe {
    /// Opcode.
    pub opcode: u8,
    /// Flags.
    pub flags: u8,
    /// Command identifier.
    pub command_id: [u8; 2],
    /// Namespace.
    pub nsid: [u8; 4],
    /// Command word 2.
    pub cdw2: [u8; 4],
    /// Command word 3.
    pub cdw3: [u8; 4],
    /// Metadata pointer.
    pub metadata: [u8; 8],
    /// First half of the data pointer.
    pub dptr1: [u8; 8],
    /// Second half of the data pointer.
    pub dptr2: [u8; 8],
    /// Command words 10 to 15.
    pub cdw10_15: [u8; 24],
}

/// Command words 10 to 15 of a transfer of `nlb + 1` blocks from block `lba`.
pub open spec fn transfer_words(lba: u64, nlb: u16) -> Seq<u8> {
    u64_le(lba) + u16_le(nlb) + zeros(14)
}

/// Command words 10 to 15 of a transfer give back its block and block count.
pub proof fn law_transfer_round_trip(lba: u64, nlb: u16)
    ensures
        transfer_words(lba, nlb).len() == 24,
        le8(transfer_words(lba, nlb), 0) == lba,
        le2(transfer_words(lba, nlb), 8) == nlb,
{
    let w = transfer_words(lba, nlb);
    assert(crate::bytes::holds_at(w, 0, u64_le(lba)));
    assert(crate::bytes::holds_at(w, 8, u16_le(nlb)));
    crate::bytes::lemma_u64_round_trip(w, 0, lba);
    crate::bytes::lemma_u16_round_trip(w, 8, nlb);
}

/// Builds command words 10 to 15 of a transfer.
pub(crate) fn transfer_array(lba: u64, nlb: u16) -> (words: [u8; 24])
    ensures
        words@ == transfer_words(lba, nlb),
{
    let l = u64_le_array(lba);
    let n = u16_le_array(nlb);
    let words: [u8; 24] = [
        l[0], l[1], l[2], l[3], l[4], l[5], l[6], l[7], n[0], n[1], 0, 0, 0, 0, 0, 0, 0, 0, 0, 0, 0,
        0, 0, 0,
    ];
    assert(words@ =~= transfer_words(lba, nlb));
    words
}

impl NvmeRwSqe {
    /// The 64 bytes of the entry, in the order in which a device reads them.
    pub open spec fn wire(self) -> Seq<u8> {
        seq![self.opcode, self.flags] + self.command_id@ + self.nsid@ + self.cdw2@ + self.cdw3@
            + self.metadata@ + self.dptr1@ + self.dptr2@ + self.cdw10_15@
    }

    /// The entry asks for `opcode` on `nlb + 1` blocks from `slba` on.
    pub open spec fn asks(
        self,
        opcode: u8,
        nsid: u32,
        command_id: u16,
        slba: u64,
        nlb: u16,
        data: NvmeDataPointer,
    ) -> bool {
        &&& self.opcode == opcode
        &&& self.flags == data.flags()
        &&& self.command_id@ == u16_le(command_id)
        &&& self.nsid@ == u32_le(nsid)
        &&& self.cdw2@ == zeros(4)
        &&& self.cdw3@ == zeros(4)
        &&& self.metadata@ == zeros(8)
        &&& self.dptr1@ == data.wire().take(8)
        &&& self.dptr2@ == data.wire().skip(8)
        &&& self.cdw10_15@ == transfer_words(slba, nlb)
    }

    /// Builds a READ. `nlb` counts blocks from zero: zero transfers one.
    pub fn read(nsid: u32, command_id: u16, slba: u64, nlb: u16, data: NvmeDataPointer) -> (sqe:
        Self)
        ensures
            sqe.asks(NVME_OPC_READ, nsid, command_id, slba, nlb, data),
            sqe.opcode == 0x02,
    {
        Self::rw(NVME_OPC_READ, nsid, command_id, slba, nlb, data)
    }

    /// Builds a WRITE. `nlb` counts blocks from zero: zero transfers one.
    pub fn write(nsid: u32, command_id: u16, slba: u64, nlb: u16, data: NvmeDataPointer) -> (sqe:
        Self)
        ensures
            sqe.asks(NVME_OPC_WRITE, nsid, command_id, slba, nlb, data),
            sqe.opcode == 0x01,
    {
        Self::rw(NVME_OPC_WRITE, nsid, command_id, slba, nlb, data)
    }

    fn rw(
        opcode: u8,
        nsid: u32,
        command_id: u16,
        slba: u64,
        nlb: u16,
        data: NvmeDataPointer,
    ) -> (sqe: Self)
        ensures
            sqe.asks(opcode, nsid, command_id, slba, nlb, data),
    {
        let (flags, dptr1, dptr2): (u8, [u8; 8], [u8; 8]) = match data {
            NvmeDataPointer::Prp { prp1, prp2 } => (0, u64_le_array(prp1), u64_le_array(prp2)),
            NvmeDataPointer::Sgl(g) => (
                PSDT_SGL,
                [g[0], g[1], g[2], g[3], g[4], g[5], g[6], g[7]],
                [g[8], g[9], g[10], g[11], g[12], g[13], g[14], g[15]],
            ),
        };
        let sqe = NvmeRwSqe {
            opcode,
            flags,
            command_id: u16_le_array(command_id),
            nsid: u32_le_array(nsid),
            cdw2: [0; 4],
            cdw3: [0; 4],
            metadata: [0; 8],
            dptr1,
            dptr2,
            cdw10_15: transfer_array(slba, nlb),
        };
        assert(sqe.cdw2@ =~= zeros(4));
        assert(sqe.cdw3@ =~= zeros(4));
        assert(sqe.metadata@ =~= zeros(8));
        assert(sqe.dptr1@ =~= data.wire().take(8));
        assert(sqe.dptr2@ =~= data.wire().skip(8));
        sqe
    }

    /// The first block, from command words 10 and 11.
    pub fn slba(self) -> (lba: u64)
        ensures
            lba == le8(self.cdw10_15@, 0),
    {
        read_u64(self.cdw10_15.as_slice(), 0)
    }

    /// The number of blocks less one, from command word 12.
    pub fn nlb(self) -> (n: u16)
        ensures
            n == le2(self.cdw10_15@, 8),
    {
        read_u16(self.cdw10_15.as_slice(), 8)
    }

    /// The entry with a directive in command word 13.
    #[must_use]
    pub fn with_directive(self, dtype: NvmeDirective, dspec: u16) -> (sqe: Self)
        ensures
            sqe == (NvmeRwSqe { cdw10_15: sqe.cdw10_15, ..self }),
            sqe.cdw10_15@ == self.cdw10_15@.take(12) + u32_le(directive_word(dtype, dspec))
                + self.cdw10_15@.skip(16),
    {
        let w = u32_le_array(pack_directive(dtype, dspec));
        let mut sqe = self;
        sqe.cdw10_15[12] = w[0];
        sqe.cdw10_15[13] = w[1];
        sqe.cdw10_15[14] = w[2];
        sqe.cdw10_15[15] = w[3];
        assert(sqe.cdw10_15@ =~= self.cdw10_15@.take(12) + u32_le(directive_word(dtype, dspec))
            + self.cdw10_15@.skip(16));
        sqe
    }

    /// The entry with an FDP placement in command word 13.
    #[must_use]
    pub fn with_fdp_placement(self, placement: FdpPlacementId) -> (sqe: Self)
        ensures
            sqe == (NvmeRwSqe { cdw10_15: sqe.cdw10_15, ..self }),
            sqe.cdw10_15@ == self.cdw10_15@.take(12) + u32_le(
                directive_word(NvmeDirective::FlexibleDataPlacement, placement.0),
            ) + self.cdw10_15@.skip(16),
    {
        self.with_directive(NvmeDirective::FlexibleDataPlacement, placement.0)
    }

    /// Command word 13.
    pub fn cdw13(self) -> (word: u32)
        ensures
            word == le4(self.cdw10_15@, 12),
    {
        read_u32(self.cdw10_15.as_slice(), 12)
    }

    /// The bytes of the entry.
    pub fn to_bytes(self) -> (out: Vec<u8>)
        ensures
            out@ == self.wire(),
    {
        let mut out: Vec<u8> = Vec::new();
        out.push(self.opcode);
        out.push(self.flags);
        push_bytes(&mut out, self.command_id.as_slice());
        push_bytes(&mut out, self.nsid.as_slice());
        push_bytes(&mut out, self.cdw2.as_slice());
        push_bytes(&mut out, self.cdw3.as_slice());
        push_bytes(&mut out, self.metadata.as_slice());
        push_bytes(&mut out, self.dptr1.as_slice());
        push_bytes(&mut out, self.dptr2.as_slice());
        push_bytes(&mut out, self.cdw10_15.as_slice());
        assert(out@ =~= self.wire());
        out
    }
}

/// Each member of an entry stands where the device looks for it.
pub proof fn law_sqe_layout(sqe: NvmeRwSqe)
    ensures
        sqe.wire().len() == SQE_BYTES,
        sqe.wire()[0] == sqe.opcode,
        sqe.wire()[1] == sqe.flags,
        sqe.wire().subrange(2, 4) == sqe.command_id@,
        sqe.wire().subrange(4, 8) == sqe.nsid@,
        sqe.wire().subrange(16, 24) == sqe.metadata@,
        sqe.wire().subrange(24, 32) == sqe.dptr1@,
        sqe.wire().subrange(32, 40) == sqe.dptr2@,
        sqe.wire().subrange(40, 64) == sqe.cdw10_15@,
{
    let w = sqe.wire();
    assert(w.subrange(2, 4) =~= sqe.command_id@);
    assert(w.subrange(4, 8) =~= sqe.nsid@);
    assert(w.subrange(16, 24) =~= sqe.metadata@);
    assert(w.subrange(24, 32) =~= sqe.dptr1@);
    assert(w.subrange(32, 40) =~= sqe.dptr2@);
    assert(w.subrange(40, 64) =~= sqe.cdw10_15@);
}

/// What an entry was built from can be read out of it again.
pub proof fn law_rw_round_trip(
    sqe: NvmeRwSqe,
    opcode: u8,
    nsid: u32,
    command_id: u16,
    slba: u64,
    nlb: u16,
    data: NvmeDataPointer,
)
    requires
        sqe.asks(opcode, nsid, command_id, slba, nlb, data),
    ensures
        le2(sqe.command_id@, 0) == command_id,
        le4(sqe.nsid@, 0) == nsid,
        le8(sqe.cdw10_15@, 0) == slba,
        le2(sqe.cdw10_15@, 8) == nlb,
        le4(sqe.cdw10_15@, 12) == 0,
        sqe.dptr1@ + sqe.dptr2@ == data.wire(),
{
    law_words_round_trip(command_id, nsid, slba);
    law_transfer_round_trip(slba, nlb);
    assert(data.wire().len() == 16);
    assert(sqe.dptr1@ + sqe.dptr2@ =~= data.wire());
}

/// A directive leaves the transfer as it is and reads back from command word 13.
pub proof fn law_directive_keeps_transfer(before: Seq<u8>, after: Seq<u8>, word: u32)
    requires
        before.len() == 24,
        after == before.take(12) + u32_le(word) + before.skip(16),
    ensures
        after.len() == 24,
        le8(after, 0) == le8(before, 0),
        le2(after, 8) == le2(before, 8),
        le4(after, 12) == word,
{
    assert(crate::bytes::holds_at(after, 12, u32_le(word)));
    crate::bytes::lemma_u32_round_trip(after, 12, word);
}

/// Page pointers stand in the command as they are, with no flag; a scatter list
/// has the flag 0x40.
pub proof fn law_data_pointer_wire(prp1: u64, prp2: u64, sgl: [u8; 16])
    ensures
        ({
            let prp = NvmeDataPointer::Prp { prp1, prp2 };
            &&& prp.flags() == 0
            &&& prp.wire().len() == 16
            &&& le8(prp.wire(), 0) == prp1
            &&& le8(prp.wire(), 8) == prp2
            &&& NvmeDataPointer::Sgl(sgl).flags() == 0x40
            &&& NvmeDataPointer::Sgl(sgl).wire() == sgl@
        }),
{
    let w = u64_le(prp1) + u64_le(prp2);
    lemma_holds_between(Seq::empty(), u64_le(prp1), u64_le(prp2));
    assert(Seq::<u8>::empty() + u64_le(prp1) + u64_le(prp2) =~= w);
    lemma_holds_between(u64_le(prp1), u64_le(prp2), Seq::empty());
    assert(u64_le(prp1) + u64_le(prp2) + Seq::<u8>::empty() =~= w);
    lemma_u64_round_trip(w, 0, prp1);
    lemma_u64_round_trip(w, 8, prp2);
}

} // verus!
