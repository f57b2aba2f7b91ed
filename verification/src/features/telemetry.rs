//! Counters of feature loads.
use vstd::prelude::*;

verus! {

/// `std::time::Instant`, a reading of the clock.
#[verifier::external_type_specification]
#[verifier::external_body]
pub struct ExInstant(std::time::Instant);

/// `Instant::now`: a reading of the clock. Nothing is said of it.
#[verifier::external_body]
pub(crate) fn clock_now() -> (t: std::time::Instant) {
    std::time::Instant::now()
}

/// `Instant::elapsed` in nanoseconds. Nothing is said of how many there are.
#[verifier::external_body]
pub(crate) fn clock_elapsed(start: &std::time::Instant) -> (ns: u64) {
    start.elapsed().as_nanos() as u64
}

/// Telemetry for feature loading operations. Counters wrap around.
#[derive(Debug, Clone, Copy, PartialEq, Eq, Structural)]
pub struct FeatureLoadTelemetry {
    /// Number of single-node reads.
    pub single_gets: u64,
    /// Number of batch reads.
    pub batch_gets: u64,
    /// Total nodes loaded.
    pub total_nodes_loaded: u64,
    /// Total features loaded (nodes times dimensions).
    pub total_features_loaded: u64,
    /// Total bytes loaded.
    pub total_bytes_loaded: u64,
    /// Total time spent in single-node reads (nanoseconds).
    pub get_time_ns: u64,
    /// Total time spent in batch reads (nanoseconds).
    pub batch_time_ns: u64,
}

impl Default for FeatureLoadTelemetry {
    fn default() -> (t: FeatureLoadTelemetry)
        ensures
            t == (FeatureLoadTelemetry {
                single_gets: 0,
                batch_gets: 0,
                total_nodes_loaded: 0,
                total_features_loaded: 0,
                total_bytes_loaded: 0,
                get_time_ns: 0,
                batch_time_ns: 0,
            }),
    {
        FeatureLoadTelemetry {
            single_gets: 0,
            batch_gets: 0,
            total_nodes_loaded: 0,
            total_features_loaded: 0,
            total_bytes_loaded: 0,
            get_time_ns: 0,
            batch_time_ns: 0,
        }
    }
}

/// What counters become with a single-node read of `dim` features that took `ns`,
/// where they are kept.
pub open spec fn counted_get(
    before: Option<FeatureLoadTelemetry>,
    dim: u64,
    ns: u64,
) -> Option<FeatureLoadTelemetry> {
    match before {
        Some(t) => Some(t.after_get(dim, ns)),
        None => None,
    }
}

/// What counters become with a batch read of `nodes` nodes and `features` features
/// that took `ns`, where they are kept.
pub open spec fn counted_batch(
    before: Option<FeatureLoadTelemetry>,
    nodes: u64,
    features: u64,
    ns: u64,
) -> Option<FeatureLoadTelemetry> {
    match before {
        Some(t) => Some(t.after_batch(nodes, features, ns)),
        None => None,
    }
}

impl FeatureLoadTelemetry {
    /// The counters after a single-node read of `dim` features that took `ns`.
    pub open spec fn after_get(self, dim: u64, ns: u64) -> FeatureLoadTelemetry {
        FeatureLoadTelemetry {
            single_gets: self.single_gets.wrapping_add(1),
            total_nodes_loaded: self.total_nodes_loaded.wrapping_add(1),
            total_features_loaded: self.total_features_loaded.wrapping_add(dim),
            total_bytes_loaded: self.total_bytes_loaded.wrapping_add(dim.wrapping_mul(4)),
            get_time_ns: self.get_time_ns.wrapping_add(ns),
            ..self
        }
    }

    /// The counters after a batch read of `nodes` nodes and `features` features
    /// that took `ns`.
    pub open spec fn after_batch(self, nodes: u64, features: u64, ns: u64) -> FeatureLoadTelemetry {
        FeatureLoadTelemetry {
            batch_gets: self.batch_gets.wrapping_add(1),
            total_nodes_loaded: self.total_nodes_loaded.wrapping_add(nodes),
            total_features_loaded: self.total_features_loaded.wrapping_add(features),
            total_bytes_loaded: self.total_bytes_loaded.wrapping_add(features.wrapping_mul(4)),
            batch_time_ns: self.batch_time_ns.wrapping_add(ns),
            ..self
        }
    }

    /// Counts a single-node read of `dim` features that took `ns`.
    pub fn record_get(&mut self, dim: u64, ns: u64)
        ensures
            *final(self) == old(self).after_get(dim, ns),
    {
        self.single_gets = self.single_gets.wrapping_add(1);
        self.total_nodes_loaded = self.total_nodes_loaded.wrapping_add(1);
        self.total_features_loaded = self.total_features_loaded.wrapping_add(dim);
        self.total_bytes_loaded = self.total_bytes_loaded.wrapping_add(dim.wrapping_mul(4));
        self.get_time_ns = self.get_time_ns.wrapping_add(ns);
    }

    /// Counts a batch read of `nodes` nodes and `features` features that took
    /// `ns`.
    pub fn record_batch(&mut self, nodes: u64, features: u64, ns: u64)
        ensures
            *final(self) == old(self).after_batch(nodes, features, ns),
    {
        self.batch_gets = self.batch_gets.wrapping_add(1);
        self.total_nodes_loaded = self.total_nodes_loaded.wrapping_add(nodes);
        self.total_features_loaded = self.total_features_loaded.wrapping_add(features);
        self.total_bytes_loaded = self.total_bytes_loaded.wrapping_add(features.wrapping_mul(4));
        self.batch_time_ns = self.batch_time_ns.wrapping_add(ns);
    }

    /// The counters after a single-node read of `dim` features from `bytes` bytes
    /// of a file that took `ns`.
    pub open spec fn after_file_get(self, dim: u64, bytes: u64, ns: u64) -> FeatureLoadTelemetry {
        FeatureLoadTelemetry {
            single_gets: self.single_gets.wrapping_add(1),
            total_nodes_loaded: self.total_nodes_loaded.wrapping_add(1),
            total_features_loaded: self.total_features_loaded.wrapping_add(dim),
            total_bytes_loaded: self.total_bytes_loaded.wrapping_add(bytes),
            get_time_ns: self.get_time_ns.wrapping_add(ns),
            ..self
        }
    }

    /// Counts a single-node read of `dim` features from `bytes` bytes of a file
    /// that took `ns`.
    pub fn record_file_get(&mut self, dim: u64, bytes: u64, ns: u64)
        ensures
            *final(self) == old(self).after_file_get(dim, bytes, ns),
    {
        self.single_gets = self.single_gets.wrapping_add(1);
        self.total_nodes_loaded = self.total_nodes_loaded.wrapping_add(1);
        self.total_features_loaded = self.total_features_loaded.wrapping_add(dim);
        self.total_bytes_loaded = self.total_bytes_loaded.wrapping_add(bytes);
        self.get_time_ns = self.get_time_ns.wrapping_add(ns);
    }

    /// Nodes that batches loaded: all nodes but those read singly.
    pub fn batch_nodes(&self) -> (n: u64)
        ensures
            n == (if self.total_nodes_loaded >= self.single_gets {
                self.total_nodes_loaded - self.single_gets
            } else {
                0
            }),
    {
        self.total_nodes_loaded.saturating_sub(self.single_gets)
    }
}

/// What a read of one row adds to the counters: one read, one node, its values,
/// four bytes for each (or the bytes of its file row), and the time, to those of
/// single reads. The counters of batches stay.
pub proof fn law_single_reads_count(t: FeatureLoadTelemetry, dim: u64, bytes: u64, ns: u64)
    requires
        t.single_gets < u64::MAX,
        t.total_nodes_loaded < u64::MAX,
        t.total_features_loaded + dim <= u64::MAX,
        t.total_bytes_loaded + 4 * dim <= u64::MAX,
        t.total_bytes_loaded + bytes <= u64::MAX,
        t.get_time_ns + ns <= u64::MAX,
    ensures
        ({
            let after = t.after_get(dim, ns);
            &&& after.single_gets == t.single_gets + 1
            &&& after.total_nodes_loaded == t.total_nodes_loaded + 1
            &&& after.total_features_loaded == t.total_features_loaded + dim
            &&& after.total_bytes_loaded == t.total_bytes_loaded + 4 * dim
            &&& after.get_time_ns == t.get_time_ns + ns
            &&& after.batch_gets == t.batch_gets
            &&& after.batch_time_ns == t.batch_time_ns
        }),
        ({
            let after = t.after_file_get(dim, bytes, ns);
            &&& after.single_gets == t.single_gets + 1
            &&& after.total_nodes_loaded == t.total_nodes_loaded + 1
            &&& after.total_features_loaded == t.total_features_loaded + dim
            &&& after.total_bytes_loaded == t.total_bytes_loaded + bytes
            &&& after.get_time_ns == t.get_time_ns + ns
            &&& after.batch_gets == t.batch_gets
            &&& after.batch_time_ns == t.batch_time_ns
        }),
        counted_get(None, dim, ns) is None,
        counted_get(Some(t), dim, ns) == Some(t.after_get(dim, ns)),
{
}

/// What a batch adds to the counters: one batch, its nodes, its values, four
/// bytes for each, and the time, to those of batches. The counters of single reads
/// stay.
pub proof fn law_batch_reads_count(t: FeatureLoadTelemetry, nodes: u64, features: u64, ns: u64)
    requires
        t.batch_gets < u64::MAX,
        t.total_nodes_loaded + nodes <= u64::MAX,
        t.total_features_loaded + features <= u64::MAX,
        t.total_bytes_loaded + 4 * features <= u64::MAX,
        t.batch_time_ns + ns <= u64::MAX,
    ensures
        ({
            let after = t.after_batch(nodes, features, ns);
            &&& after.batch_gets == t.batch_gets + 1
            &&& after.total_nodes_loaded == t.total_nodes_loaded + nodes
            &&& after.total_features_loaded == t.total_features_loaded + features
            &&& after.total_bytes_loaded == t.total_bytes_loaded + 4 * features
            &&& after.batch_time_ns == t.batch_time_ns + ns
            &&& after.single_gets == t.single_gets
            &&& after.get_time_ns == t.get_time_ns
        }),
        counted_batch(None, nodes, features, ns) is None,
        counted_batch(Some(t), nodes, features, ns) == Some(t.after_batch(nodes, features, ns)),
{
}

} // verus!
