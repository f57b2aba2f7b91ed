//! Demotion of memory by how often it is accessed.
use vstd::prelude::*;

verus! {

/// When memory is demoted, and where to.
#[derive(Debug, Clone, Copy, PartialEq, Eq, Structural)]
pub struct AccessFrequencyScheme {
    /// Demote at this many sampled accesses or fewer.
    pub max_accesses: u32,
    /// Demote at this age or later.
    pub min_age_ms: u64,
    /// The node that takes the pages.
    pub target_node: u32,
}

/// Sampling, and one scheme.
#[derive(Debug, Clone, Copy, PartialEq, Eq, Structural)]
pub struct DamonConfig {
    /// Time between two samples.
    pub sample_interval_ms: u64,
    /// Time over which samples are counted.
    pub aggregation_interval_ms: u64,
    /// The scheme.
    pub scheme: AccessFrequencyScheme,
}

impl DamonConfig {
    /// Samples are taken, and at least one is counted.
    pub open spec fn wf(self) -> bool {
        0 < self.sample_interval_ms <= self.aggregation_interval_ms
    }

    /// The configuration, where at least one sample is counted.
    pub fn new(
        sample_interval_ms: u64,
        aggregation_interval_ms: u64,
        scheme: AccessFrequencyScheme,
    ) -> (r: Option<Self>)
        ensures
            ({
                let cfg = DamonConfig { sample_interval_ms, aggregation_interval_ms, scheme };
                r == (if cfg.wf() {
                    Some(cfg)
                } else {
                    None
                })
            }),
    {
        if sample_interval_ms == 0 || aggregation_interval_ms < sample_interval_ms {
            None
        } else {
            Some(DamonConfig { sample_interval_ms, aggregation_interval_ms, scheme })
        }
    }
}

/// A configuration is sound if it samples at all, and at least once per
/// aggregation.
pub proof fn law_sampling_fits_aggregation(cfg: DamonConfig)
    ensures
        cfg.wf() <==> cfg.sample_interval_ms >= 1 && cfg.aggregation_interval_ms
            >= cfg.sample_interval_ms,
{
}

} // verus!
