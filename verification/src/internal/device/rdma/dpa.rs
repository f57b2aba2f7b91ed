//! What a network card's accelerator parses out of graph deltas.
use vstd::prelude::*;

verus! {

/// A field of a graph delta.
#[derive(Debug, Clone, Copy, PartialEq, Eq, Structural)]
pub enum EdgeField {
    /// Source node.
    SourceNode,
    /// Destination node.
    DestinationNode,
    /// Type of the edge.
    EdgeType,
    /// Time of the event.
    EventTimestamp,
}

/// A pipeline that parses deltas and stages them.
#[derive(Debug, Clone, PartialEq, Eq)]
pub struct DpaParsePipeline {
    /// The fields to take out.
    pub fields: Vec<EdgeField>,
    /// Whether duplicates are dropped.
    pub deduplicate: bool,
    /// Bytes of staging that the pipeline fills.
    pub csr_delta_bytes: u32,
}

impl DpaParsePipeline {
    /// A pipeline with a field or more, and staging.
    pub fn new(fields: Vec<EdgeField>, deduplicate: bool, csr_delta_bytes: u32) -> (r: Option<Self>)
        ensures
            r == (if fields@.len() > 0 && csr_delta_bytes > 0 {
                Some(DpaParsePipeline { fields, deduplicate, csr_delta_bytes })
            } else {
                None
            }),
    {
        if fields.len() > 0 && csr_delta_bytes > 0 {
            Some(DpaParsePipeline { fields, deduplicate, csr_delta_bytes })
        } else {
            None
        }
    }
}

} // verus!
