//! Storage, indexing and caching core of a graph-learning data loader.
//!
//! The crate holds the graph in compressed sparse row form, the files that
//! graphs and node features are stored in, the caches in front of slow feature
//! storage, and the plans for direct reads. Nothing here touches a file, a
//! socket or a device: functions take bytes and hand back bytes, and where an
//! effect is due they say which one.
//!
//! Floating-point values (weights, timestamps, features) are carried as their
//! IEEE-754 bit patterns.

pub mod bytes;
pub mod collections;
pub mod features;
pub mod graph;
pub mod internal;
pub mod sorting;
pub mod storage;
pub mod text;
