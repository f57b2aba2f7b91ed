//! Work queue entry of an RDMA READ on mlx5 devices.
//!
//! The 48 bytes are a control, a data and a remote-address segment of 16 bytes
//! each. The control segment holds the queue pair in the upper 24 bits of its
//! second word and the number of segments in the low six.
use crate::bytes::push_bytes;
use crate::internal::device::words::{
    be4, be8, law_words_round_trip, read_u32_be, u32_be, u32_be_array, u64_be, u64_be_array, zeros,
};
use vstd::prelude::*;

verus! {

/// Opcode of RDMA READ.
pub const MLX5_OPCODE_RDMA_READ: u8 = 0x10;

/// Segments of an entry.
pub const WQE_SEGMENTS: u32 = 3;

/// Bytes of an entry.
pub const WQE_BYTES: usize = 48;

/// The largest number of a queue pair.
pub const MAX_QPN: u32 = 0x00ff_ffff;

/// An RDMA READ entry. Members of several bytes are big-endian.
#[derive(Debug, Clone, Copy, PartialEq, Eq)]
pub struct Mlx5RdmaReadWqe {
    /// Producer index and opcode.
    pub ctrl_opmod_idx_opcode: [u8; 4],
    /// Queue pair and number of segments.
    pub ctrl_qpn_ds: [u8; 4],
    /// Zero: no signature.
    pub ctrl_signature: u8,
    /// Zero.
    pub ctrl_reserved: [u8; 3],
    /// Zero: no immediate.
    pub ctrl_imm: [u8; 4],
    /// Bytes to read.
    pub byte_count: [u8; 4],
    /// Key of the local memory.
    pub lkey: [u8; 4],
    /// Where the bytes go.
    pub local_address: [u8; 8],
    /// Where the bytes come from.
    pub remote_address: [u8; 8],
    /// Key of the remote memory.
    pub rkey: [u8; 4],
    /// Zero.
    pub remote_reserved: [u8; 4],
}

/// What an RDMA READ asks for.
pub ghost struct ReadRequest {
    /// The queue pair.
    pub qpn: u32,
    /// The producer index.
    pub counter: u16,
    /// Where the bytes go.
    pub local_address: u64,
    /// Key of the local memory.
    pub lkey: u32,
    /// Bytes to read.
    pub byte_count: u32,
    /// Where the bytes come from.
    pub remote_address: u64,
    /// Key of the remote memory.
    pub rkey: u32,
}

impl ReadRequest {
    /// First word of the control segment.
    pub open spec fn op_word(self) -> u32 {
        (0x100 * self.counter + MLX5_OPCODE_RDMA_READ) as u32
    }

    /// Second word of the control segment.
    pub open spec fn qpn_word(self) -> u32 {
        (0x100 * self.qpn + WQE_SEGMENTS) as u32
    }

    /// The 48 bytes of the entry.
    pub open spec fn wire(self) -> Seq<u8> {
        u32_be(self.op_word()) + u32_be(self.qpn_word()) + zeros(8) + u32_be(self.byte_count)
            + u32_be(self.lkey) + u64_be(self.local_address) + u64_be(self.remote_address) + u32_be(
            self.rkey,
        ) + zeros(4)
    }
}

impl Mlx5RdmaReadWqe {
    /// The 48 bytes of the entry, in the order in which a device reads them.
    pub open spec fn wire(self) -> Seq<u8> {
        self.ctrl_opmod_idx_opcode@ + self.ctrl_qpn_ds@ + seq![self.ctrl_signature]
            + self.ctrl_reserved@ + self.ctrl_imm@ + self.byte_count@ + self.lkey@
            + self.local_address@ + self.remote_address@ + self.rkey@ + self.remote_reserved@
    }

    /// The entry asks for `req`.
    pub open spec fn asks(self, req: ReadRequest) -> bool {
        &&& self.ctrl_opmod_idx_opcode@ == u32_be(req.op_word())
        &&& self.ctrl_qpn_ds@ == u32_be(req.qpn_word())
        &&& self.ctrl_signature == 0
        &&& self.ctrl_reserved@ == zeros(3)
        &&& self.ctrl_imm@ == zeros(4)
        &&& self.byte_count@ == u32_be(req.byte_count)
        &&& self.lkey@ == u32_be(req.lkey)
        &&& self.local_address@ == u64_be(req.local_address)
        &&& self.remote_address@ == u64_be(req.remote_address)
        &&& self.rkey@ == u32_be(req.rkey)
        &&& self.remote_reserved@ == zeros(4)
    }

    /// Builds an RDMA READ. `wqe_counter` is the producer index of the queue.
    pub fn new(
        qpn: u32,
        wqe_counter: u16,
        local_address: u64,
        lkey: u32,
        byte_count: u32,
        remote_address: u64,
        rkey: u32,
    ) -> (wqe: Self)
        requires
            qpn <= MAX_QPN,
        ensures
            wqe.asks(
                (ReadRequest {
                    qpn,
                    counter: wqe_counter,
                    local_address,
                    lkey,
                    byte_count,
                    remote_address,
                    rkey,
                }),
            ),
    {
        let wqe = Mlx5RdmaReadWqe {
            ctrl_opmod_idx_opcode: u32_be_array(
                0x100 * (wqe_counter as u32) + MLX5_OPCODE_RDMA_READ as u32,
            ),
            ctrl_qpn_ds: u32_be_array(0x100 * qpn + WQE_SEGMENTS),
            ctrl_signature: 0,
            ctrl_reserved: [0; 3],
            ctrl_imm: [0; 4],
            byte_count: u32_be_array(byte_count),
            lkey: u32_be_array(lkey),
            local_address: u64_be_array(local_address),
            remote_address: u64_be_array(remote_address),
            rkey: u32_be_array(rkey),
            remote_reserved: [0; 4],
        };
        assert(wqe.ctrl_reserved@ =~= zeros(3));
        assert(wqe.ctrl_imm@ =~= zeros(4));
        assert(wqe.remote_reserved@ =~= zeros(4));
        wqe
    }

    /// The queue pair.
    pub fn qpn(self) -> (qpn: u32)
        ensures
            qpn == be4(self.ctrl_qpn_ds@) / 0x100,
    {
        read_u32_be(self.ctrl_qpn_ds) / 0x100
    }

    /// The number of segments.
    pub fn segment_count(self) -> (n: u8)
        ensures
            n == be4(self.ctrl_qpn_ds@) % 64,
    {
        (read_u32_be(self.ctrl_qpn_ds) % 64) as u8
    }

    /// The bytes of the entry.
    pub fn to_bytes(self) -> (out: Vec<u8>)
        ensures
            out@ == self.wire(),
    {
        let mut out: Vec<u8> = Vec::new();
        push_bytes(&mut out, self.ctrl_opmod_idx_opcode.as_slice());
        push_bytes(&mut out, self.ctrl_qpn_ds.as_slice());
        out.push(self.ctrl_signature);
        push_bytes(&mut out, self.ctrl_reserved.as_slice());
        push_bytes(&mut out, self.ctrl_imm.as_slice());
        push_bytes(&mut out, self.byte_count.as_slice());
        push_bytes(&mut out, self.lkey.as_slice());
        push_bytes(&mut out, self.local_address.as_slice());
        push_bytes(&mut out, self.remote_address.as_slice());
        push_bytes(&mut out, self.rkey.as_slice());
        push_bytes(&mut out, self.remote_reserved.as_slice());
        assert(out@ =~= self.wire());
        out
    }
}

/// The segments of an entry stand at 0, 16 and 32, and its members in the order
/// of the request.
pub proof fn law_wqe_layout(wqe: Mlx5RdmaReadWqe)
    ensures
        wqe.wire().len() == WQE_BYTES,
        wqe.wire().subrange(0, 4) == wqe.ctrl_opmod_idx_opcode@,
        wqe.wire().subrange(4, 8) == wqe.ctrl_qpn_ds@,
        wqe.wire().subrange(16, 20) == wqe.byte_count@,
        wqe.wire().subrange(20, 24) == wqe.lkey@,
        wqe.wire().subrange(24, 32) == wqe.local_address@,
        wqe.wire().subrange(32, 40) == wqe.remote_address@,
        wqe.wire().subrange(40, 44) == wqe.rkey@,
{
    let w = wqe.wire();
    assert(w.subrange(0, 4) =~= wqe.ctrl_opmod_idx_opcode@);
    assert(w.subrange(4, 8) =~= wqe.ctrl_qpn_ds@);
    assert(w.subrange(16, 20) =~= wqe.byte_count@);
    assert(w.subrange(20, 24) =~= wqe.lkey@);
    assert(w.subrange(24, 32) =~= wqe.local_address@);
    assert(w.subrange(32, 40) =~= wqe.remote_address@);
    assert(w.subrange(40, 44) =~= wqe.rkey@);
}

/// An entry goes out as the bytes of what it asks for.
pub proof fn law_wqe_wire(wqe: Mlx5RdmaReadWqe, req: ReadRequest)
    requires
        wqe.asks(req),
    ensures
        wqe.wire() == req.wire(),
        req.wire().len() == WQE_BYTES,
{
    assert(seq![wqe.ctrl_signature] + wqe.ctrl_reserved@ + wqe.ctrl_imm@ =~= zeros(8));
    assert(wqe.wire() =~= req.wire());
}

/// What an entry asks for can be read out of it again.
pub proof fn law_wqe_round_trip(wqe: Mlx5RdmaReadWqe, req: ReadRequest)
    requires
        wqe.asks(req),
        req.qpn <= MAX_QPN,
    ensures
        be4(wqe.ctrl_qpn_ds@) / 0x100 == req.qpn,
        be4(wqe.ctrl_qpn_ds@) % 64 == WQE_SEGMENTS,
        be4(wqe.ctrl_opmod_idx_opcode@) / 0x100 == req.counter,
        be4(wqe.ctrl_opmod_idx_opcode@) % 0x100 == MLX5_OPCODE_RDMA_READ,
        be4(wqe.byte_count@) == req.byte_count,
        be4(wqe.lkey@) == req.lkey,
        be8(wqe.local_address@) == req.local_address,
        be8(wqe.remote_address@) == req.remote_address,
        be4(wqe.rkey@) == req.rkey,
{
    law_words_round_trip(0, req.qpn_word(), req.local_address);
    law_words_round_trip(0, req.op_word(), req.remote_address);
    law_words_round_trip(0, req.byte_count, 0);
    law_words_round_trip(0, req.lkey, 0);
    law_words_round_trip(0, req.rkey, 0);
}

/// A read request on the wire: opcode 0x10 with the counter above it, three
/// segments with the queue number above them, zeros, the length, the local key and
/// address, the remote address and key, and zeros.
pub proof fn law_request_wire(req: ReadRequest)
    requires
        req.qpn <= 0xff_ffff,
    ensures
        ({
            let w = req.wire();
            &&& w.len() == 48
            &&& be4(w.subrange(0, 4)) == 0x100 * req.counter + 0x10
            &&& be4(w.subrange(4, 8)) == 0x100 * req.qpn + 3
            &&& w.subrange(8, 16) == zeros(8)
            &&& be4(w.subrange(16, 20)) == req.byte_count
            &&& be4(w.subrange(20, 24)) == req.lkey
            &&& be8(w.subrange(24, 32)) == req.local_address
            &&& be8(w.subrange(32, 40)) == req.remote_address
            &&& be4(w.subrange(40, 44)) == req.rkey
            &&& w.subrange(44, 48) == zeros(4)
        }),
{
    let w = req.wire();
    assert(w.subrange(0, 4) =~= u32_be(req.op_word()));
    assert(w.subrange(4, 8) =~= u32_be(req.qpn_word()));
    assert(w.subrange(8, 16) =~= zeros(8));
    assert(w.subrange(16, 20) =~= u32_be(req.byte_count));
    assert(w.subrange(20, 24) =~= u32_be(req.lkey));
    assert(w.subrange(24, 32) =~= u64_be(req.local_address));
    assert(w.subrange(32, 40) =~= u64_be(req.remote_address));
    assert(w.subrange(40, 44) =~= u32_be(req.rkey));
    assert(w.subrange(44, 48) =~= zeros(4));
    law_words_round_trip(0, req.op_word(), req.local_address);
    law_words_round_trip(0, req.qpn_word(), req.remote_address);
    law_words_round_trip(0, req.byte_count, 0);
    law_words_round_trip(0, req.lkey, 0);
    law_words_round_trip(0, req.rkey, 0);
}

} // verus!
