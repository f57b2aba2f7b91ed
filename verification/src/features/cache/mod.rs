//! Caches in front of slow feature storage.

pub mod batch;
pub mod error;
pub mod freq;
pub mod heap;
pub mod nvme;
pub mod serving;
pub mod sieve;
pub mod slab;
pub mod tiers;
