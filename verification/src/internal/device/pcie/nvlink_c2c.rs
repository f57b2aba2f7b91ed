//! Placement of allocations that processor and GPU share.
use vstd::prelude::*;

verus! {

/// Where an allocation should live.
#[derive(Debug, Clone, Copy, PartialEq, Eq, Structural)]
pub enum CoherentPlacementHint {
    /// In the processor's memory.
    PreferCpu,
    /// In the GPU's memory.
    PreferGpu,
    /// Accessible from both.
    AccessedByBoth,
    /// Moved to the GPU before a gather.
    PrefetchToGpu,
}

impl CoherentPlacementHint {
    /// Whether the hint asks for a transfer and not for an advice.
    pub fn needs_prefetch(self) -> (b: bool)
        ensures
            b == (self is PrefetchToGpu),
    {
        match self {
            CoherentPlacementHint::PrefetchToGpu => true,
            _ => false,
        }
    }
}

/// A shared allocation.
#[derive(Debug, Clone, Copy, PartialEq, Eq, Structural)]
pub struct CoherentAllocation {
    /// Address on the device.
    pub device_ptr: u64,
    /// Bytes.
    pub bytes: u64,
    /// Where it should live.
    pub hint: CoherentPlacementHint,
}

impl CoherentAllocation {
    /// The allocation, where it has an address and is not empty.
    pub fn new(device_ptr: u64, bytes: u64, hint: CoherentPlacementHint) -> (r: Option<Self>)
        ensures
            r == (if device_ptr != 0 && bytes != 0 {
                Some(CoherentAllocation { device_ptr, bytes, hint })
            } else {
                None
            }),
    {
        if device_ptr != 0 && bytes != 0 {
            Some(CoherentAllocation { device_ptr, bytes, hint })
        } else {
            None
        }
    }
}

} // verus!
