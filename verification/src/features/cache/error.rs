//! What can go wrong in the feature cache.
use vstd::prelude::*;
use vstd::string::StringExecFns;
use crate::text::{decimal, label, label_pair, lemma_tells_one, lemma_tells_two, tells};
use super::super::cold_tier::ColdError;

verus! {

/// Why a cache could not be set up or a row not be served.
#[derive(Debug, Clone, Copy, PartialEq, Eq, Structural)]
pub enum CacheError {
    /// There is no place for the spill file.
    NvmePathMissing,
    /// Rows are too wide for a record.
    RecordOverflow { dim: usize },
    /// The backing store has rows of another width.
    ColdDimMismatch { store: usize, cache: usize },
    /// No tier holds the row.
    NotCached { node: u32 },
    /// The backing store failed.
    Cold { cause: ColdError },
}

impl CacheError {
    /// The text of the message.
    pub open spec fn text(self) -> Seq<char> {
        match self {
            CacheError::NvmePathMissing => "nvme_path must be configured"@,
            CacheError::RecordOverflow { dim } => "feature dim "@ + decimal(dim as nat)
                + " overflows record size"@,
            CacheError::ColdDimMismatch { store, cache } => "cold store feature_dim "@ + decimal(
                store as nat,
            ) + " does not match cache feature_dim "@ + decimal(cache as nat),
            CacheError::NotCached { node } => "features for node "@ + decimal(node as nat)
                + " are in no cache tier"@,
            CacheError::Cold { cause } => cause.text(),
        }
    }

    /// Describes the error.
    pub fn message(&self) -> (s: String)
        ensures
            s@ == self.text(),
    {
        match *self {
            CacheError::NvmePathMissing => String::from_str("nvme_path must be configured"),
            CacheError::RecordOverflow { dim } => {
                let mut s = label("feature dim ", dim as u64);
                s.append(" overflows record size");
                s
            },
            CacheError::ColdDimMismatch { store, cache } => label_pair(
                "cold store feature_dim ",
                store as u64,
                " does not match cache feature_dim ",
                cache as u64,
            ),
            CacheError::NotCached { node } => {
                let mut s = label("features for node ", node as u64);
                s.append(" are in no cache tier");
                s
            },
            CacheError::Cold { cause } => cause.message(),
        }
    }
}

/// A message tells the numbers of its error, in this order.
pub proof fn law_cache_messages_tell_their_numbers(e: CacheError)
    ensures
        match e {
            CacheError::RecordOverflow { dim } => tells(
                e.text(),
                seq![decimal(dim as nat)],
            ),
            CacheError::ColdDimMismatch { store, cache } => tells(
                e.text(),
                seq![decimal(store as nat), decimal(cache as nat)],
            ),
            CacheError::NotCached { node } => tells(
                e.text(),
                seq![decimal(node as nat)],
            ),
            _ => true,
        },
{
    match e {
        CacheError::RecordOverflow { dim } => {
            lemma_tells_one(
                e.text(),
                "feature dim "@,
                decimal(dim as nat),
                " overflows record size"@,
            );
        },
        CacheError::ColdDimMismatch { store, cache } => {
            lemma_tells_two(
                e.text(),
                "cold store feature_dim "@,
                decimal(store as nat),
                " does not match cache feature_dim "@,
                decimal(cache as nat),
                Seq::<char>::empty(),
            );
        },
        CacheError::NotCached { node } => {
            lemma_tells_one(
                e.text(),
                "features for node "@,
                decimal(node as nat),
                " are in no cache tier"@,
            );
        },
        _ => {},
    }
}

} // verus!
