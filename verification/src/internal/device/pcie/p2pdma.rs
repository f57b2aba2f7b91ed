//! Which paths between two devices may be used.
use vstd::prelude::*;

verus! {

/// What is known of a path.
#[derive(Debug, Clone, Copy, PartialEq, Eq, Structural)]
pub enum P2pdmaPath {
    /// The path may be used.
    Usable {
        /// Its length in the topology.
        distance: u32,
    },
    /// The path is longer than allowed.
    TooFar {
        /// Its length in the topology.
        distance: u32,
        /// What is allowed.
        maximum: u32,
    },
    /// No memory unit translates the transfer.
    NoIommu,
    /// Access control redirects the transfer.
    AcsRedirected,
    /// One of the devices cannot do it.
    Unsupported,
}

/// What a path must be like.
#[derive(Debug, Clone, Copy, PartialEq, Eq, Structural)]
pub struct P2pdmaPolicy {
    /// The longest path.
    pub maximum_distance: u32,
    /// Whether a memory unit must translate.
    pub require_iommu: bool,
}

impl P2pdmaPolicy {
    /// What a path is to this policy. A missing memory unit counts before access
    /// control, and both before the distance.
    pub fn classify(self, distance: Option<u32>, iommu_present: bool, acs_redirected: bool) -> (
    path: P2pdmaPath)
        ensures
            path == (if self.require_iommu && !iommu_present {
                P2pdmaPath::NoIommu
            } else if acs_redirected {
                P2pdmaPath::AcsRedirected
            } else {
                match distance {
                    None => P2pdmaPath::Unsupported,
                    Some(d) => if d <= self.maximum_distance {
                        P2pdmaPath::Usable { distance: d }
                    } else {
                        P2pdmaPath::TooFar { distance: d, maximum: self.maximum_distance }
                    },
                }
            }),
            path is Usable ==> distance is Some && distance->0 <= self.maximum_distance
                && !acs_redirected && (self.require_iommu ==> iommu_present),
    {
        if self.require_iommu && !iommu_present {
            return P2pdmaPath::NoIommu;
        }
        if acs_redirected {
            return P2pdmaPath::AcsRedirected;
        }
        match distance {
            None => P2pdmaPath::Unsupported,
            Some(d) => if d <= self.maximum_distance {
                P2pdmaPath::Usable { distance: d }
            } else {
                P2pdmaPath::TooFar { distance: d, maximum: self.maximum_distance }
            },
        }
    }
}

} // verus!
