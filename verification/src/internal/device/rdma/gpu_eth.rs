//! Rings in GPU memory, and flow steering into them.
use vstd::prelude::*;

verus! {

/// A range of GPU memory that holds the ring of a queue.
#[derive(Debug, Clone, Copy, PartialEq, Eq, Structural)]
pub struct GpuRingPlacement {
    /// Address of the first byte.
    pub gpu_va: u64,
    /// Bytes of the ring.
    pub bytes: u32,
    /// Bytes of an entry.
    pub entry_bytes: u16,
}

impl GpuRingPlacement {
    /// The ring has an address and a whole number of entries, at least one.
    pub open spec fn wf(self) -> bool {
        &&& self.gpu_va != 0
        &&& self.entry_bytes != 0
        &&& self.bytes != 0
        &&& self.bytes as int % self.entry_bytes as int == 0
    }

    /// The placement, where it is sound.
    pub fn new(gpu_va: u64, bytes: u32, entry_bytes: u16) -> (r: Option<Self>)
        ensures
            r == (if (GpuRingPlacement { gpu_va, bytes, entry_bytes }).wf() {
                Some(GpuRingPlacement { gpu_va, bytes, entry_bytes })
            } else {
                None
            }),
    {
        if gpu_va != 0 && entry_bytes != 0 && bytes != 0 && bytes % (entry_bytes as u32) == 0 {
            Some(GpuRingPlacement { gpu_va, bytes, entry_bytes })
        } else {
            None
        }
    }

    /// The number of entries.
    pub fn entries(self) -> (n: u32)
        requires
            self.entry_bytes != 0,
        ensures
            n == self.bytes as int / self.entry_bytes as int,
    {
        self.bytes / (self.entry_bytes as u32)
    }
}

/// The entries of a ring fill it.
pub proof fn law_entries_fill_the_ring(ring: GpuRingPlacement)
    requires
        ring.wf(),
    ensures
        (ring.bytes as int / ring.entry_bytes as int) * ring.entry_bytes == ring.bytes,
        ring.bytes as int / ring.entry_bytes as int > 0,
{
    let b = ring.bytes as int;
    let e = ring.entry_bytes as int;
    vstd::arithmetic::div_mod::lemma_fundamental_div_mod(b, e);
    vstd::arithmetic::mul::lemma_mul_is_commutative(b / e, e);
    assert(b / e > 0) by (nonlinear_arith)
        requires
            b == e * (b / e),
            b > 0,
            e > 0,
    ;
}

/// What a packet must hold to match.
#[derive(Debug, Clone, Copy, PartialEq, Eq, Structural)]
pub struct FlowMatch {
    /// Ethernet type, where it matters.
    pub ethernet_type: Option<u16>,
    /// IP protocol, where it matters.
    pub ip_protocol: Option<u8>,
    /// UDP port, where it matters.
    pub udp_dst_port: Option<u16>,
}

impl Default for FlowMatch {
    fn default() -> (m: Self)
        ensures
            m == (FlowMatch { ethernet_type: None, ip_protocol: None, udp_dst_port: None }),
    {
        FlowMatch { ethernet_type: None, ip_protocol: None, udp_dst_port: None }
    }
}

/// A rule that sends matching packets to a queue pair.
#[derive(Debug, Clone, Copy, PartialEq, Eq, Structural)]
pub struct FlowSteeringRule {
    /// Priority.
    pub priority: u16,
    /// What matches.
    pub matcher: FlowMatch,
    /// The queue pair.
    pub destination_qp: u32,
}

impl FlowSteeringRule {
    /// The rule, where the queue pair is not zero.
    pub fn new(priority: u16, matcher: FlowMatch, destination_qp: u32) -> (r: Option<Self>)
        ensures
            r == (if destination_qp == 0 {
                None
            } else {
                Some(FlowSteeringRule { priority, matcher, destination_qp })
            }),
    {
        if destination_qp == 0 {
            None
        } else {
            Some(FlowSteeringRule { priority, matcher, destination_qp })
        }
    }
}

} // verus!
