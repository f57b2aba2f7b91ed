//! The tiers of the feature cache, and how rows move between them.
//!
//! The hot tier is small, the warm tier is larger, and below them lies the spill
//! file. A row that a tier has no room for goes one tier down. The cache decides
//! what happens; whoever drives it reads and writes the spill file: it writes every
//! row that an operation returns as spilled, and reports it with
//! [`FeatureCache::saved`].
use vstd::prelude::*;
use ahash::AHashMap;
use crate::collections::{
    ahash_clone, ahash_entries, ahash_get, ahash_insert, ahash_new, ahash_pairs,
};
use crate::graph::csr::NodeId;
use crate::sorting::{lemma_same_values, sort_u64s, sorted};
use super::super::cold_tier::ColdStore;
use super::super::store::StoreView;
use super::error::CacheError;
use super::freq::{law_insert_is_determined, FreqCache, FreqView, InsertOutcome};
use super::nvme::{rounded_up, NvmeTier, NvmeView};
use super::slab::SLAB_BLOCK_ROWS;

verus! {

/// Feature dimension.
pub type FeatureDim = usize;

/// A node's features, as bit patterns.
pub type FeatureVector = Vec<u32>;

/// A row that has left the tiers in memory, with its node.
pub type Spill = (NodeId, FeatureVector);

/// A share, as a fraction. A share of a whole of zero is nothing.
#[derive(Debug, Clone, Copy, PartialEq, Eq, Structural)]
pub struct Share {
    pub part: u32,
    pub whole: u32,
}

impl Share {
    /// The share of `n`, rounded down.
    pub open spec fn share_of(self, n: nat) -> nat {
        if self.whole == 0 {
            0
        } else {
            (n * self.part / self.whole as int) as nat
        }
    }
}

/// Configuration of the feature cache.
#[derive(Debug, Clone)]
pub struct FeatureCacheConfig {
    /// Greatest number of rows in the hot tier.
    pub gpu_capacity: usize,
    /// Greatest number of rows in the warm tier.
    pub cpu_capacity: usize,
    /// Feature dimension.
    pub feature_dim: FeatureDim,
    /// Where the spill file goes; required.
    pub nvme_path: Option<String>,
    /// Access frequencies known beforehand. With them eviction starts out
    /// weighted, and the hottest nodes are pinned in the hot tier.
    pub warmup_frequencies: Option<AHashMap<u32, u32>>,
    /// Share of the hot tier to pin, where frequencies are known.
    pub pin_ratio: Share,
    /// Feature file to keep compressed below the spill file.
    pub cold_store_path: Option<String>,
    /// zstd level of that file's rows in memory.
    pub cold_level: i32,
}

impl Default for FeatureCacheConfig {
    fn default() -> (c: FeatureCacheConfig)
        ensures
            c.gpu_capacity == 10_000,
            c.cpu_capacity == 1_000_000,
            c.feature_dim == 128,
            c.nvme_path is None,
            c.warmup_frequencies is None,
            c.pin_ratio == (Share { part: 4, whole: 5 }),
            c.cold_store_path is None,
            c.cold_level == 12,
    {
        FeatureCacheConfig {
            gpu_capacity: 10_000,
            cpu_capacity: 1_000_000,
            feature_dim: 128,
            nvme_path: None,
            warmup_frequencies: None,
            pin_ratio: Share { part: 4, whole: 5 },
            cold_store_path: None,
            cold_level: 12,
        }
    }
}

/// Cache statistics. The counters wrap.
#[derive(Debug, Clone, Copy, PartialEq, Eq, Structural)]
pub struct CacheStats {
    pub gpu_hits: u64,
    pub cpu_hits: u64,
    pub nvme_hits: u64,
    /// Hits served by the compressed backing tier.
    pub cold_hits: u64,
    pub misses: u64,
    pub evictions: u64,
    /// Hits on pinned nodes.
    pub pinned_hits: u64,
}

impl CacheStats {
    /// Nothing counted yet.
    pub open spec fn zero() -> CacheStats {
        CacheStats {
            gpu_hits: 0,
            cpu_hits: 0,
            nvme_hits: 0,
            cold_hits: 0,
            misses: 0,
            evictions: 0,
            pinned_hits: 0,
        }
    }
}

impl Default for CacheStats {
    fn default() -> (s: CacheStats)
        ensures
            s == CacheStats::zero(),
    {
        CacheStats {
            gpu_hits: 0,
            cpu_hits: 0,
            nvme_hits: 0,
            cold_hits: 0,
            misses: 0,
            evictions: 0,
            pinned_hits: 0,
        }
    }
}

/// What the tiers hold and have counted.
#[verifier::ext_equal]
pub struct TiersView {
    pub gpu: FreqView,
    pub cpu: FreqView,
    pub nvme: NvmeView,
    /// The rows of the backing tier.
    pub cold: Option<StoreView>,
    pub stats: CacheStats,
}

impl TiersView {
    /// The backing tier has a row of the node.
    pub open spec fn cold_has(self, node: u32) -> bool {
        self.cold matches Some(c) && node < c.num_nodes
    }

    /// The tiers after a row went to the warm tier.
    pub open spec fn cpu_promoted(self, node: u32, row: Seq<u32>) -> TiersView {
        let evicts = self.cpu.displaced(node, row) is Some && !self.cpu.refuses(node);
        TiersView {
            cpu: self.cpu.inserted(node, row),
            stats: if evicts {
                CacheStats { evictions: self.stats.evictions.wrapping_add(1), ..self.stats }
            } else {
                self.stats
            },
            ..self
        }
    }

    /// What that pushes out to the spill file.
    pub open spec fn cpu_spill(self, node: u32, row: Seq<u32>) -> Option<(u32, Seq<u32>)> {
        self.cpu.displaced(node, row)
    }

    /// The hot tier after a row went to it, with what that pushes out counted but
    /// not yet placed.
    pub open spec fn gpu_inserted(self, node: u32, row: Seq<u32>) -> TiersView {
        TiersView {
            gpu: self.gpu.inserted(node, row),
            stats: if self.gpu.displaced(node, row) is Some {
                CacheStats { evictions: self.stats.evictions.wrapping_add(1), ..self.stats }
            } else {
                self.stats
            },
            ..self
        }
    }

    /// The tiers after a row went to the hot tier.
    pub open spec fn gpu_promoted(self, node: u32, row: Seq<u32>) -> TiersView {
        let t = self.gpu_inserted(node, row);
        match self.gpu.displaced(node, row) {
            None => t,
            Some((n, r)) => t.cpu_promoted(n, r),
        }
    }

    /// What that pushes out to the spill file.
    pub open spec fn gpu_spill(self, node: u32, row: Seq<u32>) -> Option<(u32, Seq<u32>)> {
        match self.gpu.displaced(node, row) {
            None => None,
            Some((n, r)) => self.cpu.displaced(n, r),
        }
    }

    /// The tiers after a hit in the hot tier.
    pub open spec fn gpu_hit(self, node: u32) -> TiersView {
        TiersView {
            gpu: self.gpu.hit(node),
            stats: CacheStats {
                gpu_hits: self.stats.gpu_hits.wrapping_add(1),
                pinned_hits: if self.gpu.pinned.contains(node) {
                    self.stats.pinned_hits.wrapping_add(1)
                } else {
                    self.stats.pinned_hits
                },
                ..self.stats
            },
            ..self
        }
    }

    /// The tiers after a hit in the warm tier, before the row goes up.
    pub open spec fn cpu_hit(self, node: u32) -> TiersView {
        TiersView {
            cpu: self.cpu.hit(node),
            stats: CacheStats { cpu_hits: self.stats.cpu_hits.wrapping_add(1), ..self.stats },
            ..self
        }
    }

    /// A record of the spill file counted.
    pub open spec fn nvme_hit(self) -> TiersView {
        TiersView {
            stats: CacheStats { nvme_hits: self.stats.nvme_hits.wrapping_add(1), ..self.stats },
            ..self
        }
    }

    /// `n` rows of the backing tier counted.
    pub open spec fn cold_hit(self, n: u64) -> TiersView {
        TiersView {
            stats: CacheStats { cold_hits: self.stats.cold_hits.wrapping_add(n), ..self.stats },
            ..self
        }
    }

    /// A miss counted.
    pub open spec fn missed(self) -> TiersView {
        TiersView {
            stats: CacheStats { misses: self.stats.misses.wrapping_add(1), ..self.stats },
            ..self
        }
    }

    /// The record of a node noted.
    pub open spec fn saved(self, node: u32) -> TiersView {
        TiersView {
            nvme: NvmeView { present: self.nvme.present.insert(node), ..self.nvme },
            ..self
        }
    }

    /// The rows in memory and, where there is none, on disk.
    pub open spec fn content(self, disk: Map<u32, Seq<u32>>) -> Map<u32, Seq<u32>> {
        disk.union_prefer_right(self.cpu.rows).union_prefer_right(self.gpu.rows)
    }

    /// All rows that the cache can serve.
    pub open spec fn served(self, disk: Map<u32, Seq<u32>>) -> Map<u32, Seq<u32>> {
        Map::new(|n: u32| self.cold_has(n), |n: u32| self.cold->0.row(n as int)).union_prefer_right(
            self.content(disk),
        )
    }

    /// All tiers hold rows of one width, and no more of them than they have room
    /// for.
    pub open spec fn valid(self) -> bool {
        &&& self.gpu.valid()
        &&& self.cpu.valid()
        &&& self.cpu.dim == self.gpu.dim
        &&& self.nvme.dim == self.gpu.dim
        &&& self.cold matches Some(c) ==> c.feature_dim == self.gpu.dim && c.wf()
    }
}

/// The spill file after a row was written to it.
pub open spec fn written(disk: Map<u32, Seq<u32>>, spill: Option<(u32, Seq<u32>)>) -> Map<
    u32,
    Seq<u32>,
> {
    match spill {
        Some((n, r)) => disk.insert(n, r),
        None => disk,
    }
}

/// A row that has left memory, as contracts speak of it.
pub open spec fn spilled(s: Option<Spill>) -> Option<(u32, Seq<u32>)> {
    match s {
        Some((n, r)) => Some((n, r@)),
        None => None,
    }
}

/// Answer to a request for one row.
#[derive(Debug, Clone, PartialEq, Eq)]
pub enum Lookup {
    /// The row, and what serving it pushed out to the spill file.
    Found(FeatureVector, Option<Spill>),
    /// The row is in the spill file: read its record and hand it to
    /// [`FeatureCache::loaded`].
    OnDisk,
    /// No row.
    Failed(CacheError),
}

/// What a request for one row does, and what it answers.
pub open spec fn get_does(
    before: TiersView,
    node: u32,
    answer: Lookup,
    after: TiersView,
) -> bool {
    if before.gpu.rows.contains_key(node) {
        &&& answer matches Lookup::Found(row, spill)
        &&& row@ == before.gpu.rows[node]
        &&& spill is None
        &&& after == before.gpu_hit(node)
    } else if before.cpu.rows.contains_key(node) {
        let hit = before.cpu_hit(node);
        &&& answer matches Lookup::Found(row, spill)
        &&& row@ == before.cpu.rows[node]
        &&& spilled(spill) == hit.gpu_spill(node, row@)
        &&& after == hit.gpu_promoted(node, row@)
    } else if before.nvme.present.contains(node) {
        answer is OnDisk && after == before
    } else if before.cold_has(node) {
        let hit = before.cold_hit(1);
        &&& answer matches Lookup::Found(row, spill)
        &&& row@ == before.cold->0.row(node as int)
        &&& spilled(spill) == hit.cpu_spill(node, row@)
        &&& after == hit.cpu_promoted(node, row@)
    } else {
        answer == Lookup::Failed(CacheError::NotCached { node }) && after == before.missed()
    }
}

/// `pinned` are `count` hottest nodes, or all that there are.
pub open spec fn hottest(pinned: Set<u32>, warm: Map<u32, u32>, count: nat) -> bool {
    &&& pinned.finite()
    &&& pinned.subset_of(warm.dom())
    &&& pinned.len() == (if count <= warm.len() {
        count
    } else {
        warm.len()
    })
    &&& forall|a: u32, b: u32|
        #![trigger pinned.contains(a), pinned.contains(b)]
        pinned.contains(a) && warm.contains_key(b) && !pinned.contains(b) ==> warm[a] >= warm[b]
}

/// Slots of a tier that a share pins: one always stays free.
pub open spec fn pin_limit(ratio: Share, capacity: nat) -> nat {
    if ratio.share_of(capacity) < capacity {
        ratio.share_of(capacity)
    } else if capacity > 0 {
        (capacity - 1) as nat
    } else {
        0
    }
}

/// Slots of a tier that a share pins.
pub fn pin_count(ratio: Share, capacity: usize) -> (n: usize)
    ensures
        n == pin_limit(ratio, capacity as nat),
{
    if ratio.whole == 0 || capacity == 0 {
        return 0;
    }
    proof {
        assert(0 <= capacity * ratio.part <= 0xffff_ffff_ffff_ffff * 0xffff_ffff)
            by (nonlinear_arith)
            requires
                0 <= capacity <= 0xffff_ffff_ffff_ffff,
                0 <= ratio.part <= 0xffff_ffff,
        ;
    }
    let requested: u128 = capacity as u128 * ratio.part as u128 / ratio.whole as u128;
    if requested < capacity as u128 {
        requested as usize
    } else {
        capacity - 1
    }
}

/// The sort key of a frequency: greater frequencies come first.
spec fn heat_key(node: u32, freq: u32) -> u64 {
    ((u32::MAX - freq) * 0x1_0000_0000 + node) as u64
}

/// Pins the `count` hottest nodes. Among nodes of one frequency those of lesser
/// id come first.
fn pin_hottest(gpu: &mut FreqCache, warm: &AHashMap<u32, u32>, count: usize)
    requires
        old(gpu).wf(),
        old(gpu)@.pinned == Set::<u32>::empty(),
    ensures
        final(gpu).wf(),
        final(gpu)@ == (FreqView { pinned: final(gpu)@.pinned, ..old(gpu)@ }),
        hottest(final(gpu)@.pinned, ahash_entries(*warm), count as nat),
{
    let ghost m = ahash_entries(*warm);
    let pairs = ahash_pairs(warm);
    let mut keys: Vec<u64> = Vec::new();
    let mut i: usize = 0;
    while i < pairs.len()
        invariant
            i <= pairs@.len(),
            keys@.len() == i,
            forall|k: int| 0 <= k < i ==> #[trigger] keys@[k] == heat_key(pairs@[k].0, pairs@[k].1),
        decreases pairs@.len() - i,
    {
        let (node, freq) = pairs[i];
        keys.push((u32::MAX - freq) as u64 * 0x1_0000_0000 + node as u64);
        i += 1;
    }
    let ghost unsorted = keys@;
    sort_u64s(&mut keys);
    proof {
        assert(unsorted.no_duplicates()) by {
            assert forall|a: int, b: int|
                0 <= a < unsorted.len() && 0 <= b < unsorted.len() && a != b implies unsorted[a]
                != unsorted[b] by {
                assert(pairs@[a].0 != pairs@[b].0);
            }
        }
        lemma_same_values(unsorted, keys@);
        assert forall|k: int| 0 <= k < keys@.len() implies is_key_of(
            #[trigger] keys@[k],
            m,
        ) by {
            assert(keys@.contains(keys@[k]));
            let j = choose|j: int| 0 <= j < unsorted.len() && unsorted[j] == keys@[k];
            assert(unsorted[j] == heat_key(pairs@[j].0, pairs@[j].1));
            lemma_key(pairs@[j].0, pairs@[j].1);
        }
    }
    let mut n: usize = 0;
    while n < keys.len() && n < count
        invariant
            n <= keys@.len(),
            n <= count,
            keys@.len() == m.len(),
            keys@.no_duplicates(),
            sorted(keys@),
            gpu.wf(),
            gpu@ == (FreqView { pinned: gpu@.pinned, ..old(gpu)@ }),
            gpu@.pinned.finite(),
            gpu@.pinned.len() == n,
            forall|k: int| 0 <= k < keys@.len() ==> is_key_of(#[trigger] keys@[k], m),
            forall|a: u32| #[trigger]
                gpu@.pinned.contains(a) ==> exists|k: int|
                    0 <= k < n && node_of(#[trigger] keys@[k]) == a,
            forall|k: int| 0 <= k < n ==> gpu@.pinned.contains(node_of(#[trigger] keys@[k])),
        decreases keys@.len() - n,
    {
        let key: u64 = keys[n];
        let node: u32 = (key % 0x1_0000_0000) as u32;
        let ghost before = gpu@.pinned;
        proof {
            assert(node == node_of(keys@[n as int]));
            assert(is_key_of(keys@[n as int], m));
            if before.contains(node) {
                let k = choose|k: int| 0 <= k < n && node_of(#[trigger] keys@[k]) == node;
                assert(is_key_of(keys@[k], m));
                assert(keys@[k] == keys@[n as int]);
            }
        }
        gpu.pin(node);
        proof {
            assert forall|a: u32| #[trigger] gpu@.pinned.contains(a) implies exists|k: int|
                0 <= k < n + 1 && node_of(#[trigger] keys@[k]) == a by {
                if before.contains(a) {
                    let k = choose|k: int| 0 <= k < n && node_of(#[trigger] keys@[k]) == a;
                    assert(node_of(keys@[k]) == a);
                } else {
                    assert(node_of(keys@[n as int]) == a);
                }
            }
        }
        n += 1;
    }
    proof {
        let pinned = gpu@.pinned;
        assert forall|a: u32| pinned.contains(a) implies m.dom().contains(a) by {
            let k = choose|k: int| 0 <= k < n && node_of(#[trigger] keys@[k]) == a;
            assert(is_key_of(keys@[k], m));
        }
        assert forall|a: u32, b: u32|
            #![trigger pinned.contains(a), pinned.contains(b)]
            pinned.contains(a) && m.contains_key(b) && !pinned.contains(b) implies m[a]
            >= m[b] by {
            let k = choose|k: int| 0 <= k < n && node_of(#[trigger] keys@[k]) == a;
            let p = choose|p: int| 0 <= p < pairs@.len() && (#[trigger] pairs@[p]).0 == b;
            assert(unsorted[p] == heat_key(pairs@[p].0, pairs@[p].1));
            assert(unsorted.contains(unsorted[p]));
            let j = choose|j: int| 0 <= j < keys@.len() && keys@[j] == unsorted[p];
            lemma_key(b, m[b]);
            assert(node_of(keys@[j]) == b);
            assert(j >= n);
            assert(is_key_of(keys@[k], m));
            lemma_key(a, m[a]);
            assert(keys@[k] <= keys@[j]);
        }
    }
}

/// The node of a sort key.
spec fn node_of(key: u64) -> u32 {
    (key % 0x1_0000_0000) as u32
}

/// A sort key of some entry.
spec fn is_key_of(key: u64, m: Map<u32, u32>) -> bool {
    m.contains_key(node_of(key)) && key == heat_key(node_of(key), m[node_of(key)])
}

proof fn lemma_key(node: u32, freq: u32)
    ensures
        heat_key(node, freq) == (u32::MAX - freq) * 0x1_0000_0000 + node,
        node_of(heat_key(node, freq)) == node,
{
}

/// Cache of node features in tiers.
pub struct FeatureCache {
    dim: usize,
    gpu: FreqCache,
    cpu: FreqCache,
    nvme: NvmeTier,
    cold: Option<ColdStore>,
    stats: CacheStats,
}

impl View for FeatureCache {
    type V = TiersView;

    closed spec fn view(&self) -> TiersView {
        TiersView {
            gpu: self.gpu@,
            cpu: self.cpu@,
            nvme: self.nvme@,
            cold: match self.cold {
                Some(c) => Some(c@),
                None => None,
            },
            stats: self.stats,
        }
    }
}

impl FeatureCache {
    /// Every tier is consistent, and all have rows of one width.
    pub closed spec fn wf(&self) -> bool {
        &&& self.gpu.wf()
        &&& self.cpu.wf()
        &&& self.nvme.wf()
        &&& self.cold matches Some(c) ==> c.wf() && c@.feature_dim == self.dim
        &&& self.gpu@.dim == self.dim
        &&& self.cpu@.dim == self.dim
        &&& self.nvme@.dim == self.dim
    }

    /// A consistent cache shows valid tiers.
    pub proof fn lemma_valid(&self)
        requires
            self.wf(),
        ensures
            self@.valid(),
    {
        self.gpu.lemma_valid();
        self.cpu.lemma_valid();
        if let Some(c) = self.cold {
            c.lemma_shape();
        }
    }

    /// An empty cache. `align` and `direct_io` say how the spill file is
    /// transferred, and `cold` is the backing tier, if there is to be one.
    pub fn new(
        config: &FeatureCacheConfig,
        align: usize,
        direct_io: bool,
        cold: Option<ColdStore>,
    ) -> (r: Result<FeatureCache, CacheError>)
        requires
            config.gpu_capacity <= u32::MAX,
            config.cpu_capacity <= u32::MAX,
            align > 0,
            config.feature_dim * 4 <= usize::MAX ==> rounded_up(
                config.feature_dim * 4,
                align as int,
            ) <= usize::MAX && SLAB_BLOCK_ROWS * config.feature_dim <= usize::MAX,
            cold matches Some(c) ==> c.wf(),
        ensures
            match r {
                Ok(c) => {
                    let warm = match config.warmup_frequencies {
                        Some(m) => ahash_entries(m),
                        None => Map::empty(),
                    };
                    &&& config.nvme_path is Some
                    &&& config.feature_dim * 4 <= usize::MAX
                    &&& cold matches Some(s) ==> s@.feature_dim == config.feature_dim
                    &&& c.wf()
                    &&& c@ == (TiersView {
                        gpu: FreqView {
                            capacity: config.gpu_capacity as nat,
                            dim: config.feature_dim as nat,
                            rows: Map::empty(),
                            hits: Map::empty(),
                            warm,
                            pinned: c@.gpu.pinned,
                        },
                        cpu: FreqView {
                            capacity: config.cpu_capacity as nat,
                            dim: config.feature_dim as nat,
                            rows: Map::empty(),
                            hits: Map::empty(),
                            warm,
                            pinned: Set::empty(),
                        },
                        nvme: NvmeView {
                            dim: config.feature_dim as nat,
                            record_bytes: rounded_up(
                                config.feature_dim * 4,
                                align as int,
                            ) as nat,
                            direct_io,
                            present: Set::empty(),
                        },
                        cold: match cold {
                            Some(s) => Some(s@),
                            None => None,
                        },
                        stats: CacheStats::zero(),
                    })
                    &&& hottest(
                        c@.gpu.pinned,
                        warm,
                        pin_limit(config.pin_ratio, config.gpu_capacity as nat),
                    )
                },
                Err(e) => if config.nvme_path is None {
                    e == CacheError::NvmePathMissing
                } else if config.feature_dim * 4 > usize::MAX {
                    e == (CacheError::RecordOverflow { dim: config.feature_dim })
                } else {
                    &&& cold matches Some(s)
                    &&& s@.feature_dim != config.feature_dim
                    &&& e == (CacheError::ColdDimMismatch {
                        store: s@.feature_dim as usize,
                        cache: config.feature_dim,
                    })
                },
            },
    {
        if config.nvme_path.is_none() {
            return Err(CacheError::NvmePathMissing);
        }
        let dim: usize = config.feature_dim;
        let nvme = match NvmeTier::open(dim, align, direct_io) {
            Ok(t) => t,
            Err(e) => {
                return Err(e);
            },
        };
        if let Some(s) = &cold {
            let store: usize = s.feature_dim();
            if store != dim {
                return Err(CacheError::ColdDimMismatch { store, cache: dim });
            }
        }
        let mut gpu;
        let cpu;
        match &config.warmup_frequencies {
            Some(m) => {
                gpu = FreqCache::new(config.gpu_capacity, dim, ahash_clone(m));
                cpu = FreqCache::new(config.cpu_capacity, dim, ahash_clone(m));
                pin_hottest(&mut gpu, m, pin_count(config.pin_ratio, config.gpu_capacity));
            },
            None => {
                gpu = FreqCache::new(config.gpu_capacity, dim, ahash_new());
                cpu = FreqCache::new(config.cpu_capacity, dim, ahash_new());
            },
        }
        let cache = FeatureCache { dim, gpu, cpu, nvme, cold, stats: CacheStats::default() };
        Ok(cache)
    }

    /// Values per row.
    pub fn feature_dim(&self) -> (n: usize)
        requires
            self.wf(),
        ensures
            n == self@.gpu.dim,
    {
        self.dim
    }

    /// Current statistics.
    pub fn stats(&self) -> (s: CacheStats)
        ensures
            s == self@.stats,
    {
        self.stats
    }

    /// Number of rows in the hot and in the warm tier.
    pub fn resident(&self) -> (n: (usize, usize))
        requires
            self.wf(),
        ensures
            n.0 == self@.gpu.rows.len(),
            n.1 == self@.cpu.rows.len(),
    {
        (self.gpu.len(), self.cpu.len())
    }

    /// The spill tier, which says where records go and how they look.
    pub fn nvme(&self) -> (t: &NvmeTier)
        requires
            self.wf(),
        ensures
            t.wf(),
            t@ == self@.nvme,
    {
        &self.nvme
    }

    /// Reads a row out of the hot tier and counts the hit.
    pub(super) fn hit_hot(&mut self, node: NodeId) -> (row: Option<FeatureVector>)
        requires
            old(self).wf(),
        ensures
            final(self).wf(),
            match row {
                Some(r) => {
                    &&& old(self)@.gpu.rows.contains_key(node)
                    &&& r@ == old(self)@.gpu.rows[node]
                    &&& final(self)@ == old(self)@.gpu_hit(node)
                },
                None => !old(self)@.gpu.rows.contains_key(node) && final(self)@ == old(self)@,
            },
    {
        let row = self.gpu.get(node);
        if row.is_some() {
            self.stats.gpu_hits = self.stats.gpu_hits.wrapping_add(1);
            if self.gpu.is_pinned(node) {
                self.stats.pinned_hits = self.stats.pinned_hits.wrapping_add(1);
            }
        }
        row
    }

    /// Reads a row out of the warm tier and counts the hit.
    pub(super) fn hit_warm(&mut self, node: NodeId) -> (row: Option<FeatureVector>)
        requires
            old(self).wf(),
        ensures
            final(self).wf(),
            match row {
                Some(r) => {
                    &&& old(self)@.cpu.rows.contains_key(node)
                    &&& r@ == old(self)@.cpu.rows[node]
                    &&& final(self)@ == old(self)@.cpu_hit(node)
                },
                None => !old(self)@.cpu.rows.contains_key(node) && final(self)@ == old(self)@,
            },
    {
        let row = self.cpu.get(node);
        if row.is_some() {
            self.stats.cpu_hits = self.stats.cpu_hits.wrapping_add(1);
        }
        row
    }

    /// Counts rows of the backing tier.
    pub(super) fn count_cold(&mut self, n: u64)
        requires
            old(self).wf(),
        ensures
            final(self).wf(),
            final(self)@ == old(self)@.cold_hit(n),
    {
        self.stats.cold_hits = self.stats.cold_hits.wrapping_add(n);
    }

    /// Counts a miss.
    pub(super) fn count_miss(&mut self)
        requires
            old(self).wf(),
        ensures
            final(self).wf(),
            final(self)@ == old(self)@.missed(),
    {
        self.stats.misses = self.stats.misses.wrapping_add(1);
    }

    /// The backing tier, if there is one.
    pub(super) fn cold(&self) -> (c: Option<&ColdStore>)
        requires
            self.wf(),
        ensures
            match c {
                Some(c) => c.wf() && self@.cold == Some(c@),
                None => self@.cold is None,
            },
    {
        match &self.cold {
            Some(c) => Some(c),
            None => None,
        }
    }

    /// Asks for the row of a node. A hit in the warm tier takes the row up to the
    /// hot one; a row of the backing tier is taken up to the warm one.
    pub fn get(&mut self, node: NodeId) -> (answer: Lookup)
        requires
            old(self).wf(),
        ensures
            final(self).wf(),
            get_does(old(self)@, node, answer, final(self)@),
            answer matches Lookup::Found(row, _) ==> row@.len() == old(self)@.gpu.dim,
    {
        proof {
            self.lemma_valid();
        }
        if let Some(row) = self.hit_hot(node) {
            return Lookup::Found(row, None);
        }
        if let Some(row) = self.hit_warm(node) {
            let spill = self.promote_to_gpu(node, row.as_slice());
            return Lookup::Found(row, spill);
        }
        if self.nvme.contains(node) {
            return Lookup::OnDisk;
        }
        if let Some(cold) = &self.cold {
            if (node as u64) < cold.num_rows() as u64 {
                let asked: [u32; 1] = [node];
                proof {
                    cold.lemma_shape();
                }
                match cold.gather(&asked) {
                    Ok(row) => {
                        proof {
                            let view = cold@;
                            assert(asked@.drop_last() =~= Seq::empty());
                            assert(asked@.last() == node);
                            reveal_with_fuel(StoreView::rows, 2);
                            assert(row@ =~= view.row(node as int));
                        }
                        self.count_cold(1);
                        let spill = self.promote_to_cpu(node, row.as_slice());
                        return Lookup::Found(row, spill);
                    },
                    Err(cause) => {
                        assert(asked@[0] == node);
                        return Lookup::Failed(CacheError::Cold { cause });
                    },
                }
            }
        }
        self.count_miss();
        Lookup::Failed(CacheError::NotCached { node })
    }

    /// Asks for the row of a node into the caller's buffer. Says as much as
    /// [`FeatureCache::get`], with the row in the buffer instead.
    pub fn get_into(&mut self, node: NodeId, out: &mut [u32]) -> (answer: Lookup)
        requires
            old(self).wf(),
            old(out)@.len() == old(self)@.gpu.dim,
        ensures
            final(self).wf(),
            get_does(old(self)@, node, answer, final(self)@),
            final(out)@.len() == old(out)@.len(),
            match answer {
                Lookup::Found(row, _) => final(out)@ == row@,
                _ => final(out)@ == old(out)@,
            },
    {
        match self.get(node) {
            Lookup::Found(row, spill) => {
                let len: usize = out.len();
                let mut j: usize = 0;
                while j < len
                    invariant
                        j <= len,
                        len == out@.len(),
                        row@.len() == len,
                        forall|k: int| 0 <= k < j ==> #[trigger] out@[k] == row@[k],
                    decreases len - j,
                {
                    out[j] = row[j];
                    j += 1;
                }
                assert(out@ =~= row@);
                Lookup::Found(row, spill)
            },
            Lookup::OnDisk => Lookup::OnDisk,
            Lookup::Failed(e) => Lookup::Failed(e),
        }
    }

    /// Takes the record of a node that was read from the spill file.
    pub fn loaded(&mut self, node: NodeId, record: &[u8]) -> (r: (FeatureVector, Option<Spill>))
        requires
            old(self).wf(),
            record@.len() >= old(self)@.nvme.payload_bytes(),
        ensures
            final(self).wf(),
            r.0@ == old(self)@.nvme.row_of(record@),
            spilled(r.1) == old(self)@.nvme_hit().cpu_spill(node, r.0@),
            final(self)@ == old(self)@.nvme_hit().cpu_promoted(node, r.0@),
    {
        let row = self.nvme.decode_record(record);
        self.stats.nvme_hits = self.stats.nvme_hits.wrapping_add(1);
        assert(self@ =~= old(self)@.nvme_hit());
        let spill = self.promote_to_cpu(node, row.as_slice());
        (row, spill)
    }

    /// Inserts the row of a node whose record has been written to the spill file.
    /// The record is what makes the row recoverable once it has left memory.
    pub fn insert(&mut self, node: NodeId, features: &[u32]) -> (spill: Option<Spill>)
        requires
            old(self).wf(),
            features@.len() == old(self)@.gpu.dim,
        ensures
            final(self).wf(),
            spilled(spill) == old(self)@.saved(node).gpu_spill(node, features@),
            final(self)@ == old(self)@.saved(node).gpu_promoted(node, features@),
    {
        self.saved(node);
        self.promote_to_gpu(node, features)
    }

    /// Notes that the record of a node has been written to the spill file.
    pub fn saved(&mut self, node: NodeId)
        requires
            old(self).wf(),
        ensures
            final(self).wf(),
            final(self)@ == old(self)@.saved(node),
    {
        self.nvme.mark_present(node);
    }

    /// Takes a row up to the hot tier; what that pushes out goes to the warm one.
    pub(super) fn promote_to_gpu(&mut self, node: NodeId, features: &[u32]) -> (spill: Option<
        Spill,
    >)
        requires
            old(self).wf(),
            features@.len() == old(self)@.gpu.dim,
        ensures
            final(self).wf(),
            spilled(spill) == old(self)@.gpu_spill(node, features@),
            final(self)@ == old(self)@.gpu_promoted(node, features@),
    {
        let ghost before = self@;
        proof {
            self.gpu.lemma_valid();
        }
        let outcome = self.gpu.insert(node, features);
        proof {
            law_insert_is_determined(before.gpu, node, features@, outcome, self.gpu@);
        }
        match outcome {
            InsertOutcome::Stored => {
                assert(self@ =~= before.gpu_promoted(node, features@));
                None
            },
            InsertOutcome::StoredEvicting(victim, evicted) => {
                self.stats.evictions = self.stats.evictions.wrapping_add(1);
                assert(self@ =~= before.gpu_inserted(node, features@));
                self.promote_to_cpu(victim, evicted.as_slice())
            },
            InsertOutcome::Refused => {
                self.stats.evictions = self.stats.evictions.wrapping_add(1);
                assert(self@ =~= before.gpu_inserted(node, features@));
                self.promote_to_cpu(node, features)
            },
        }
    }

    /// Takes a row to the warm tier; what that pushes out goes to the spill file.
    pub(super) fn promote_to_cpu(&mut self, node: NodeId, features: &[u32]) -> (spill: Option<
        Spill,
    >)
        requires
            old(self).wf(),
            features@.len() == old(self)@.gpu.dim,
        ensures
            final(self).wf(),
            spilled(spill) == old(self)@.cpu_spill(node, features@),
            final(self)@ == old(self)@.cpu_promoted(node, features@),
    {
        let ghost before = self@;
        let outcome = self.cpu.insert(node, features);
        proof {
            law_insert_is_determined(before.cpu, node, features@, outcome, self.cpu@);
        }
        match outcome {
            InsertOutcome::Stored => {
                assert(self@ =~= before.cpu_promoted(node, features@));
                None
            },
            InsertOutcome::StoredEvicting(victim, evicted) => {
                self.stats.evictions = self.stats.evictions.wrapping_add(1);
                assert(self@ =~= before.cpu_promoted(node, features@));
                Some((victim, evicted))
            },
            InsertOutcome::Refused => {
                assert(self@ =~= before.cpu_promoted(node, features@));
                Some((node, vstd::slice::slice_to_vec(features)))
            },
        }
    }
}

/// A row that goes to the warm tier is served from then on, and no other row
/// changes, once what was pushed out is written to the spill file.
pub proof fn law_warm_promotion_keeps_content(
    t: TiersView,
    disk: Map<u32, Seq<u32>>,
    node: u32,
    row: Seq<u32>,
)
    requires
        t.valid(),
        !t.gpu.rows.contains_key(node),
    ensures
        t.cpu_promoted(node, row).content(written(disk, t.cpu_spill(node, row))) == t.content(
            disk,
        ).insert(node, row),
{
    lemma_warm_promotion(t, disk, node, row);
    assert(t.cpu_promoted(node, row).content(written(disk, t.cpu_spill(node, row)))
        =~= t.content(disk).insert(node, row));
}

/// What warm promotion does below the hot tier.
proof fn lemma_warm_promotion(
    t: TiersView,
    disk: Map<u32, Seq<u32>>,
    node: u32,
    row: Seq<u32>,
)
    requires
        t.valid(),
    ensures
        written(disk, t.cpu_spill(node, row)).union_prefer_right(t.cpu.inserted(node, row).rows)
            == disk.union_prefer_right(t.cpu.rows).insert(node, row),
{
    if !t.cpu.rows.contains_key(node) && t.cpu.rows.len() >= t.cpu.capacity && !t.cpu.refuses(
        node,
    ) {
        t.cpu.lemma_victim();
    }
    assert(written(disk, t.cpu_spill(node, row)).union_prefer_right(
        t.cpu.inserted(node, row).rows,
    ) =~= disk.union_prefer_right(t.cpu.rows).insert(node, row));
}

/// A row that goes to the hot tier is served from then on, and no other row
/// changes, once what was pushed out of memory is written to the spill file: the
/// tiers together behave as one map.
pub proof fn law_hot_promotion_keeps_content(
    t: TiersView,
    disk: Map<u32, Seq<u32>>,
    node: u32,
    row: Seq<u32>,
)
    requires
        t.valid(),
    ensures
        t.gpu_promoted(node, row).content(written(disk, t.gpu_spill(node, row))) == t.content(
            disk,
        ).insert(node, row),
{
    let after = t.gpu_promoted(node, row);
    let disk_after = written(disk, t.gpu_spill(node, row));
    if !t.gpu.rows.contains_key(node) && t.gpu.rows.len() >= t.gpu.capacity && !t.gpu.refuses(
        node,
    ) {
        t.gpu.lemma_victim();
    }
    match t.gpu.displaced(node, row) {
        None => {},
        Some((n, r)) => {
            lemma_warm_promotion(t, disk, n, r);
        },
    }
    assert(after.content(disk_after) =~= t.content(disk).insert(node, row));
}

/// An insert is read back: the row inserted last for a node is the one served,
/// whatever was pushed out meanwhile.
pub proof fn law_insert_is_served(
    t: TiersView,
    disk: Map<u32, Seq<u32>>,
    node: u32,
    row: Seq<u32>,
)
    requires
        t.valid(),
    ensures
        t.saved(node).gpu_promoted(node, row).served(
            written(disk.insert(node, row), t.saved(node).gpu_spill(node, row)),
        ) == t.served(disk).insert(node, row),
{
    let s = t.saved(node);
    law_hot_promotion_keeps_content(s, disk.insert(node, row), node, row);
    let after = s.gpu_promoted(node, row);
    let disk_after = written(disk.insert(node, row), s.gpu_spill(node, row));
    assert(s.content(disk.insert(node, row)).insert(node, row) =~= t.content(disk).insert(
        node,
        row,
    ));
    assert(after.served(disk_after) =~= t.served(disk).insert(node, row));
}

/// A request serves the row of the node and leaves every row that can be served
/// as it was, once what was pushed out is written. `disk` is the spill file.
pub proof fn law_get_serves_content(
    t: TiersView,
    disk: Map<u32, Seq<u32>>,
    node: u32,
    answer: Lookup,
    after: TiersView,
)
    requires
        t.valid(),
        t.nvme.present == disk.dom(),
        get_does(t, node, answer, after),
    ensures
        match answer {
            Lookup::Found(row, spill) => {
                &&& t.served(disk).contains_key(node)
                &&& row@ == t.served(disk)[node]
                &&& after.served(written(disk, spilled(spill))) == t.served(disk)
            },
            Lookup::OnDisk => {
                &&& disk.contains_key(node)
                &&& t.served(disk)[node] == disk[node]
                &&& after == t
            },
            Lookup::Failed(e) => {
                &&& after.served(disk) == t.served(disk)
                &&& e == (CacheError::NotCached { node })
                &&& !t.served(disk).contains_key(node)
            },
        },
{
    match answer {
        Lookup::Found(row, spill) => {
            let disk_after = written(disk, spilled(spill));
            if t.gpu.rows.contains_key(node) {
                assert(after.served(disk_after) =~= t.served(disk));
            } else if t.cpu.rows.contains_key(node) {
                let hit = t.cpu_hit(node);
                assert(hit.cpu.hits.dom() =~= t.cpu.hits.dom());
                law_hot_promotion_keeps_content(hit, disk, node, row@);
                assert(hit.content(disk) =~= t.content(disk));
                assert(t.content(disk).insert(node, row@) =~= t.content(disk));
                assert(after.served(disk_after) =~= t.served(disk));
            } else {
                let hit = t.cold_hit(1);
                law_warm_promotion_keeps_content(hit, disk, node, row@);
                assert(hit.content(disk) =~= t.content(disk));
                assert(after.served(disk_after) =~= t.served(disk));
            }
        },
        Lookup::OnDisk => {},
        Lookup::Failed(_) => {
            assert(after.served(disk) =~= t.served(disk));
        },
    }
}

/// A record read from the spill file serves the row of the node and leaves every
/// row that can be served as it was, once what was pushed out is written.
pub proof fn law_load_serves_content(t: TiersView, disk: Map<u32, Seq<u32>>, node: u32)
    requires
        t.valid(),
        disk.contains_key(node),
        !t.gpu.rows.contains_key(node),
        !t.cpu.rows.contains_key(node),
    ensures
        t.nvme_hit().cpu_promoted(node, disk[node]).served(
            written(disk, t.nvme_hit().cpu_spill(node, disk[node])),
        ) == t.served(disk),
{
    let hit = t.nvme_hit();
    law_warm_promotion_keeps_content(hit, disk, node, disk[node]);
    let after = hit.cpu_promoted(node, disk[node]);
    let disk_after = written(disk, hit.cpu_spill(node, disk[node]));
    assert(hit.content(disk) =~= t.content(disk));
    assert(t.content(disk).insert(node, disk[node]) =~= t.content(disk));
    assert(after.served(disk_after) =~= t.served(disk));
}

/// How often a node occurs in lists of nodes.
pub open spec fn occurrences(lists: Seq<Vec<u32>>, node: u32) -> nat
    decreases lists.len(),
{
    if lists.len() == 0 {
        0
    } else {
        occurrences(lists.drop_last(), node) + lists.last()@.to_multiset().count(node)
    }
}

/// Counts how often each node occurs in the samples of an epoch, one list of nodes
/// per batch.
pub fn count_node_frequencies(samples: &[Vec<NodeId>]) -> (freq: AHashMap<u32, u32>)
    requires
        forall|n: u32| #[trigger] occurrences(samples@, n) <= u32::MAX,
    ensures
        forall|n: u32| #[trigger]
            ahash_entries(freq).contains_key(n) <==> occurrences(samples@, n) > 0,
        forall|n: u32| #[trigger]
            ahash_entries(freq).contains_key(n) ==> ahash_entries(freq)[n] == occurrences(
                samples@,
                n,
            ),
{
    let mut freq = ahash_new();
    let mut i: usize = 0;
    while i < samples.len()
        invariant
            i <= samples@.len(),
            forall|n: u32| #[trigger] occurrences(samples@, n) <= u32::MAX,
            forall|n: u32| #[trigger]
                ahash_entries(freq).contains_key(n) <==> occurrences(
                    samples@.take(i as int),
                    n,
                ) > 0,
            forall|n: u32| #[trigger]
                ahash_entries(freq).contains_key(n) ==> ahash_entries(freq)[n] == occurrences(
                    samples@.take(i as int),
                    n,
                ),
        decreases samples@.len() - i,
    {
        let ghost done = samples@.take(i as int);
        let ghost next = samples@.take(i + 1);
        let ghost list = samples@[i as int]@;
        proof {
            assert(next.drop_last() =~= done);
            assert(next.last() == samples@[i as int]);
            assert(list.take(0) =~= Seq::empty());
            list.take(0).to_multiset_ensures();
        }
        let nodes: &Vec<NodeId> = &samples[i];
        let mut j: usize = 0;
        while j < nodes.len()
            invariant
                i < samples@.len(),
                nodes@ == list,
                list == samples@[i as int]@,
                done == samples@.take(i as int),
                next == samples@.take(i + 1),
                next.drop_last() == done,
                next.last() == samples@[i as int],
                j <= list.len(),
                forall|n: u32| #[trigger] occurrences(samples@, n) <= u32::MAX,
                forall|n: u32| #[trigger]
                    ahash_entries(freq).contains_key(n) <==> counted(done, list, j as int, n) > 0,
                forall|n: u32| #[trigger]
                    ahash_entries(freq).contains_key(n) ==> ahash_entries(freq)[n] == counted(
                        done,
                        list,
                        j as int,
                        n,
                    ),
            decreases list.len() - j,
        {
            let node: u32 = nodes[j];
            let seen: u32 = match ahash_get(&freq, node) {
                Some(c) => c,
                None => 0,
            };
            proof {
                assert(seen == counted(done, list, j as int, node));
                lemma_counted(done, list, j as int, node);
                lemma_prefix_count(samples@, i + 1, node);
                lemma_counted_below(done, list, j + 1, node);
                assert(occurrences(next, node) <= occurrences(samples@, node));
            }
            let ghost before = ahash_entries(freq);
            ahash_insert(&mut freq, node, seen + 1);
            proof {
                assert forall|n: u32| #[trigger] ahash_entries(freq).contains_key(n) <==> counted(
                    done,
                    list,
                    j + 1,
                    n,
                ) > 0 by {
                    lemma_counted(done, list, j as int, n);
                    assert(before.contains_key(n) <==> counted(done, list, j as int, n) > 0);
                }
                assert forall|n: u32| #[trigger]
                    ahash_entries(freq).contains_key(n) implies ahash_entries(freq)[n] == counted(
                    done,
                    list,
                    j + 1,
                    n,
                ) by {
                    lemma_counted(done, list, j as int, n);
                    if n != node {
                        assert(before.contains_key(n));
                    }
                }
            }
            j += 1;
        }
        proof {
            assert(list.take(j as int) =~= list);
            assert forall|n: u32| #[trigger] ahash_entries(freq).contains_key(n) <==> occurrences(
                samples@.take(i + 1),
                n,
            ) > 0 by {
                assert(counted(done, list, j as int, n) == occurrences(next, n));
            }
            assert forall|n: u32| #[trigger]
                ahash_entries(freq).contains_key(n) implies ahash_entries(freq)[n] == occurrences(
                samples@.take(i + 1),
                n,
            ) by {
                assert(counted(done, list, j as int, n) == occurrences(next, n));
            }
        }
        i += 1;
    }
    assert(samples@.take(i as int) =~= samples@);
    freq
}

/// Occurrences in whole lists and in the first `j` nodes of one more.
spec fn counted(done: Seq<Vec<u32>>, list: Seq<u32>, j: int, node: u32) -> nat {
    occurrences(done, node) + list.take(j).to_multiset().count(node)
}

proof fn lemma_counted(done: Seq<Vec<u32>>, list: Seq<u32>, j: int, node: u32)
    requires
        0 <= j < list.len(),
    ensures
        counted(done, list, j + 1, node) == counted(done, list, j, node) + (if list[j] == node {
            1nat
        } else {
            0
        }),
{
    let a = list.take(j);
    a.to_multiset_ensures();
    assert(list.take(j + 1) =~= a.push(list[j]));
}

proof fn lemma_counted_below(done: Seq<Vec<u32>>, list: Seq<u32>, j: int, node: u32)
    requires
        0 <= j <= list.len(),
    ensures
        counted(done, list, j, node) <= occurrences(done, node) + list.to_multiset().count(node),
    decreases list.len() - j,
{
    if j < list.len() {
        lemma_counted(done, list, j, node);
        lemma_counted_below(done, list, j + 1, node);
    } else {
        assert(list.take(j) =~= list);
    }
}

proof fn lemma_prefix_count(lists: Seq<Vec<u32>>, n: int, node: u32)
    requires
        0 <= n <= lists.len(),
    ensures
        occurrences(lists.take(n), node) <= occurrences(lists, node),
    decreases lists.len() - n,
{
    if n < lists.len() {
        lemma_prefix_count(lists, n + 1, node);
        assert(lists.take(n + 1).drop_last() =~= lists.take(n));
    } else {
        assert(lists.take(n) =~= lists);
    }
}

/// What a promotion into the warm tier does: the row is resident there unless the
/// tier is full of pinned nodes, no other row comes in, and the hot tier, the
/// spill file and the other counters stay as they are. The evictions go up by one
/// exactly where another node had to leave.
pub proof fn law_warm_promotion(t: TiersView, node: u32, row: Seq<u32>)
    requires
        t.valid(),
    ensures
        ({
            let after = t.cpu_promoted(node, row);
            let spill = t.cpu_spill(node, row);
            let new = !t.cpu.rows.contains_key(node);
            let full = t.cpu.rows.len() >= t.cpu.capacity;
            let stuck = forall|n: u32| #[trigger]
                t.cpu.rows.contains_key(n) ==> t.cpu.pinned.contains(n);
            &&& !(new && full && stuck) ==> after.cpu.rows.contains_key(node)
                && after.cpu.rows[node] == row
            &&& new && full && stuck ==> after.cpu.rows == t.cpu.rows && spill == Some((node, row))
            &&& forall|n: u32|
                n != node && #[trigger] after.cpu.rows.contains_key(n) ==> t.cpu.rows.contains_key(n)
                    && after.cpu.rows[n] == t.cpu.rows[n]
            &&& !(new && full) ==> spill is None && forall|n: u32| #[trigger]
                t.cpu.rows.contains_key(n) ==> after.cpu.rows.contains_key(n)
            &&& new && full && !stuck ==> {
                &&& spill is Some
                &&& t.cpu.rows.contains_key((spill->0).0)
                &&& !t.cpu.pinned.contains((spill->0).0)
                &&& (spill->0).1 == t.cpu.rows[(spill->0).0]
                &&& !after.cpu.rows.contains_key((spill->0).0)
            }
            &&& after.stats.evictions == (if new && full && !stuck {
                if t.stats.evictions == u64::MAX {
                    0
                } else {
                    t.stats.evictions + 1
                }
            } else {
                t.stats.evictions as int
            })
            &&& after.stats == (CacheStats { evictions: after.stats.evictions, ..t.stats })
            &&& after.gpu == t.gpu
            &&& after.nvme == t.nvme
            &&& after.cold == t.cold
        }),
{
    lemma_stuck(t.cpu, node);
    if !t.cpu.rows.contains_key(node) && t.cpu.rows.len() >= t.cpu.capacity && !t.cpu.refuses(
        node,
    ) {
        t.cpu.lemma_victim();
        assert(t.cpu.evictable(t.cpu.victim()));
    }
}

/// A full tier refuses a new node exactly where all that it holds is pinned.
proof fn lemma_stuck(v: FreqView, node: u32)
    ensures
        v.refuses(node) <==> !v.rows.contains_key(node) && v.rows.len() >= v.capacity && forall|
            n: u32,
        | #[trigger]
            v.rows.contains_key(n) ==> v.pinned.contains(n),
{
    if v.refuses(node) {
        assert forall|n: u32| #[trigger] v.rows.contains_key(n) implies v.pinned.contains(n) by {
            assert(!v.evictable(n));
        }
    }
    if forall|n: u32| #[trigger] v.rows.contains_key(n) ==> v.pinned.contains(n) {
        assert forall|n: u32| !v.evictable(n) by {}
    }
}

/// What a promotion into the hot tier does: the row is resident there unless the
/// tier is full of pinned nodes. What has to leave the hot tier goes to the warm
/// tier, and counts as an eviction, as does what has to leave the warm tier for
/// it. The row that goes to the warm tier is returned.
pub proof fn law_hot_promotion(t: TiersView, node: u32, row: Seq<u32>) -> (moved: (u32, Seq<u32>))
    requires
        t.valid(),
    ensures
        ({
            let after = t.gpu_promoted(node, row);
            let new = !t.gpu.rows.contains_key(node);
            let full = t.gpu.rows.len() >= t.gpu.capacity;
            let stuck = forall|n: u32| #[trigger]
                t.gpu.rows.contains_key(n) ==> t.gpu.pinned.contains(n);
            &&& !(new && full && stuck) ==> after.gpu.rows.contains_key(node)
                && after.gpu.rows[node] == row
            &&& new && full && stuck ==> after.gpu.rows == t.gpu.rows
            &&& forall|n: u32|
                n != node && #[trigger] after.gpu.rows.contains_key(n) ==> t.gpu.rows.contains_key(n)
                    && after.gpu.rows[n] == t.gpu.rows[n]
            &&& !(new && full) ==> {
                &&& t.gpu_spill(node, row) is None
                &&& after.cpu == t.cpu
                &&& after.stats == t.stats
                &&& forall|n: u32| #[trigger]
                    t.gpu.rows.contains_key(n) ==> after.gpu.rows.contains_key(n)
            }
            &&& new && full ==> {
                let (out, left) = moved;
                let mid = TiersView {
                    gpu: after.gpu,
                    stats: CacheStats { evictions: t.stats.evictions.wrapping_add(1), ..t.stats },
                    ..t
                };
                &&& !after.gpu.rows.contains_key(out)
                &&& if stuck {
                    out == node && left == row
                } else {
                    t.gpu.rows.contains_key(out) && !t.gpu.pinned.contains(out) && left
                        == t.gpu.rows[out]
                }
                &&& after == mid.cpu_promoted(out, left)
                &&& t.gpu_spill(node, row) == mid.cpu_spill(out, left)
            }
            &&& after.nvme == t.nvme
            &&& after.cold == t.cold
        }),
{
    lemma_stuck(t.gpu, node);
    if !t.gpu.rows.contains_key(node) && t.gpu.rows.len() >= t.gpu.capacity {
        if !t.gpu.refuses(node) {
            t.gpu.lemma_victim();
            assert(t.gpu.evictable(t.gpu.victim()));
        }
        let (out, left) = t.gpu.displaced(node, row)->0;
        let after = t.gpu_promoted(node, row);
        let mid = TiersView {
            gpu: after.gpu,
            stats: CacheStats { evictions: t.stats.evictions.wrapping_add(1), ..t.stats },
            ..t
        };
        assert(mid == t.gpu_inserted(node, row));
        (out, left)
    } else {
        (node, row)
    }
}

/// What a read counts: exactly one of the tier counters goes up by one (or wraps
/// to zero), a hit on a pinned node counts as such too, and a row that waits in
/// the spill file counts nothing yet.
pub proof fn law_read_counts_once(t: TiersView, node: u32, answer: Lookup, after: TiersView)
    requires
        t.valid(),
        get_does(t, node, answer, after),
    ensures
        ({
            let up = |n: u64| if n == u64::MAX {
                0
            } else {
                n + 1
            };
            let hot = t.gpu.rows.contains_key(node);
            let warm = !hot && t.cpu.rows.contains_key(node);
            let disk = !hot && !warm && t.nvme.present.contains(node);
            let cold = !hot && !warm && !disk && t.cold is Some && node < t.cold->0.num_nodes;
            let none = !hot && !warm && !disk && !cold;
            &&& after.stats.gpu_hits == if hot {
                up(t.stats.gpu_hits)
            } else {
                t.stats.gpu_hits as int
            }
            &&& after.stats.cpu_hits == if warm {
                up(t.stats.cpu_hits)
            } else {
                t.stats.cpu_hits as int
            }
            &&& after.stats.nvme_hits == t.stats.nvme_hits
            &&& after.stats.cold_hits == if cold {
                up(t.stats.cold_hits)
            } else {
                t.stats.cold_hits as int
            }
            &&& after.stats.misses == if none {
                up(t.stats.misses)
            } else {
                t.stats.misses as int
            }
            &&& after.stats.pinned_hits == if hot && t.gpu.pinned.contains(node) {
                up(t.stats.pinned_hits)
            } else {
                t.stats.pinned_hits as int
            }
            &&& hot || disk || none ==> after.stats.evictions == t.stats.evictions
            &&& disk <==> answer is OnDisk
            &&& none <==> answer is Failed
            &&& hot && t.gpu.hits[node] < u64::MAX ==> after.gpu.hits[node] == t.gpu.hits[node] + 1
        }),
{
}

/// A row found in the warm tier is promoted to the hot one, and a row found in
/// the backing tier to the warm one, unless that tier is full of pinned nodes.
pub proof fn law_read_promotes(t: TiersView, node: u32, answer: Lookup, after: TiersView)
    requires
        t.valid(),
        get_does(t, node, answer, after),
        answer is Found,
        !t.gpu.rows.contains_key(node),
    ensures
        t.cpu.rows.contains_key(node) && (t.gpu.rows.len() < t.gpu.capacity || exists|n: u32|
            #[trigger] t.gpu.rows.contains_key(n) && !t.gpu.pinned.contains(n))
            ==> after.gpu.rows.contains_key(node) && after.gpu.rows[node] == t.cpu.rows[node],
        !t.cpu.rows.contains_key(node) && (t.cpu.rows.len() < t.cpu.capacity || exists|n: u32|
            #[trigger] t.cpu.rows.contains_key(n) && !t.cpu.pinned.contains(n))
            ==> after.cpu.rows.contains_key(node) && after.cpu.rows[node] == t.cold->0.row(
            node as int,
        ),
        !t.cpu.rows.contains_key(node) ==> after.gpu == t.gpu,
{
    lemma_stuck(t.gpu, node);
    lemma_stuck(t.cpu, node);
}

/// How many hot nodes are pinned: the share of the capacity, rounded down, but
/// never all of it.
pub proof fn law_pins_leave_room(ratio: Share, capacity: nat)
    ensures
        ({
            let n = pin_limit(ratio, capacity);
            let wanted = capacity * ratio.part;
            &&& capacity > 0 ==> n < capacity
            &&& capacity == 0 ==> n == 0
            &&& ratio.whole == 0 ==> n == 0
            &&& ratio.whole > 0 && ratio.part < ratio.whole && capacity > 0 ==> n * ratio.whole
                <= wanted < (n + 1) * ratio.whole
            &&& ratio.whole > 0 && ratio.part >= ratio.whole && capacity > 0 ==> n == capacity - 1
        }),
{
    let w = ratio.whole as int;
    let p = ratio.part as int;
    let c = capacity as int;
    if ratio.whole > 0 {
        vstd::arithmetic::div_mod::lemma_fundamental_div_mod(c * p, w);
        vstd::arithmetic::div_mod::lemma_mod_bound(c * p, w);
        let q = c * p / w;
        assert(c * p >= 0) by (nonlinear_arith)
            requires
                c >= 0,
                p >= 0,
        ;
        assert(q >= 0) by (nonlinear_arith)
            requires
                c * p >= 0,
                w > 0,
                q == c * p / w,
        ;
        if p < w && c > 0 {
            assert(q < c) by (nonlinear_arith)
                requires
                    w * q <= c * p,
                    p < w,
                    c > 0,
                    w > 0,
                    q >= 0,
            ;
            assert(q * w == w * q) by (nonlinear_arith);
            assert((q + 1) * w == w * q + w) by (nonlinear_arith);
        } else if c > 0 {
            assert(q >= c) by (nonlinear_arith)
                requires
                    c * p < w * q + w,
                    p >= w,
                    c > 0,
                    w > 0,
                    q >= 0,
            ;
        } else {
            assert(c * p == 0) by (nonlinear_arith)
                requires
                    c == 0,
            ;
        }
    }
}

/// Counts add up: no samples hold no node, and one more sample adds the places at
/// which it holds the node.
pub proof fn law_occurrences_add_up(samples: Seq<Vec<u32>>, sample: Vec<u32>, node: u32)
    ensures
        occurrences(Seq::empty(), node) == 0,
        occurrences(samples.push(sample), node) == occurrences(samples, node)
            + sample@.to_multiset().count(node),
{
    assert(samples.push(sample).drop_last() =~= samples);
}

/// A tier is searched in order: the hot rows shadow the warm ones, these the
/// rows of the spill file, and all of them those of the backing tier.
pub proof fn law_warmer_tiers_shadow_colder(t: TiersView, disk: Map<u32, Seq<u32>>, node: u32)
    ensures
        t.gpu.rows.contains_key(node) ==> t.served(disk)[node] == t.gpu.rows[node],
        !t.gpu.rows.contains_key(node) && t.cpu.rows.contains_key(node) ==> t.served(disk)[node]
            == t.cpu.rows[node],
        !t.gpu.rows.contains_key(node) && !t.cpu.rows.contains_key(node) && disk.contains_key(node)
            ==> t.served(disk)[node] == disk[node],
        !t.gpu.rows.contains_key(node) && !t.cpu.rows.contains_key(node) && !disk.contains_key(node)
            && t.cold is Some && node < t.cold->0.num_nodes ==> t.served(disk)[node]
            == t.cold->0.row(node as int),
        t.served(disk).contains_key(node) <==> {
            ||| t.gpu.rows.contains_key(node)
            ||| t.cpu.rows.contains_key(node)
            ||| disk.contains_key(node)
            ||| t.cold is Some && node < t.cold->0.num_nodes
        },
{
}

/// The pinned nodes are among those of known frequency, as many as were asked for
/// or as there are, and none of the others is more frequent than any of them.
pub proof fn law_pinned_nodes_are_the_most_frequent(
    pinned: Set<u32>,
    warm: Map<u32, u32>,
    count: nat,
    a: u32,
    b: u32,
)
    requires
        hottest(pinned, warm, count),
    ensures
        pinned.finite(),
        pinned.len() <= count,
        pinned.len() <= warm.len(),
        pinned.len() == count || pinned.len() == warm.len(),
        pinned.contains(a) ==> warm.contains_key(a),
        pinned.contains(a) && warm.contains_key(b) && warm[b] > warm[a] ==> pinned.contains(b),
{
    if pinned.contains(a) {
        assert(warm.dom().contains(a));
    }
}

/// A node whose record has been written is known to be in the spill file, beside
/// those known before, and nothing else changes; a record that is read counts as
/// one hit of the spill file.
pub proof fn law_written_records_are_known(t: TiersView, node: u32, other: u32)
    ensures
        t.saved(node).nvme.present.contains(node),
        other != node ==> t.saved(node).nvme.present.contains(other) == t.nvme.present.contains(
            other,
        ),
        t.saved(node).gpu == t.gpu,
        t.saved(node).cpu == t.cpu,
        t.saved(node).cold == t.cold,
        t.saved(node).stats == t.stats,
        t.stats.nvme_hits < u64::MAX ==> t.nvme_hit() == (TiersView {
            stats: CacheStats { nvme_hits: (t.stats.nvme_hits + 1) as u64, ..t.stats },
            ..t
        }),
{
}

} // verus!
