//! Graphs in compressed sparse row form and what is computed on them.

pub mod async_graph;
pub mod batches;
pub mod builder;
pub mod communities;
pub mod csr;
pub mod error;
pub mod hetero;
pub mod permutation;
pub mod permute;
pub mod rabbit;
pub mod union_find;

pub use csr::{EdgeOffset, Graph, GraphStats, GraphValidationMode, NodeId};
pub use error::{GraphError, TimestampLengthMismatch};
pub use hetero::{EdgeTypeId, EdgeTypeMeta, HeteroBuildError, HeteroGraph, NodeTypeId, NodeTypeMeta};
