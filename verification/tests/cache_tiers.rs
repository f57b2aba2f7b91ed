//! The cache with its tiers, driven over a spill file in memory.
use aethergraph_core::features::cache::batch::{fetch_chunk, NVME_FANOUT};
use aethergraph_core::features::cache::error::CacheError;
use aethergraph_core::features::cache::nvme::NvmeTier;
use aethergraph_core::features::cache::tiers::{
    count_node_frequencies, pin_count, CacheStats, FeatureCache, FeatureCacheConfig, Lookup, Share,
    Spill,
};
use aethergraph_core::features::cold_tier::ColdStore;
use aethergraph_core::features::save::save_features;
use ahash::AHashMap;
use std::collections::BTreeMap;

fn bits(values: &[f32]) -> Vec<u32> {
    values.iter().map(|v| v.to_bits()).collect()
}

fn same(value: f32) -> Vec<u32> {
    bits(&[value; 4])
}

/// Does for the cache what it asks to be read and written.
struct Driver {
    cache: FeatureCache,
    disk: BTreeMap<u64, Vec<u8>>,
}

impl Driver {
    fn new(config: FeatureCacheConfig) -> Driver {
        Driver::with_cold(config, None).unwrap()
    }

    fn with_cold(
        config: FeatureCacheConfig,
        cold: Option<ColdStore>,
    ) -> Result<Driver, CacheError> {
        Ok(Driver {
            cache: FeatureCache::new(&config, 8, false, cold)?,
            disk: BTreeMap::new(),
        })
    }

    fn write(&mut self, node: u32, row: &[u32]) {
        let record = self.cache.nvme().encode_record(row);
        assert_eq!(record.len(), self.cache.nvme().transfer_bytes());
        self.disk.insert(self.cache.nvme().slot(node), record);
    }

    fn read(&self, node: u32) -> Vec<u8> {
        self.disk[&self.cache.nvme().slot(node)].clone()
    }

    fn spill(&mut self, spill: Option<Spill>) {
        if let Some((node, row)) = spill {
            self.write(node, &row);
            self.cache.saved(node);
        }
    }

    fn insert(&mut self, node: u32, row: Vec<u32>) {
        self.write(node, &row);
        let spill = self.cache.insert(node, &row);
        self.spill(spill);
    }

    fn get(&mut self, node: u32) -> Result<Vec<u32>, CacheError> {
        match self.cache.get(node) {
            Lookup::Found(row, spill) => {
                self.spill(spill);
                Ok(row)
            }
            Lookup::OnDisk => {
                let record = self.read(node);
                let (row, spill) = self.cache.loaded(node, &record);
                self.spill(spill);
                Ok(row)
            }
            Lookup::Failed(e) => Err(e),
        }
    }

    fn get_batch(&mut self, nodes: &[u32]) -> Result<Vec<Vec<u32>>, CacheError> {
        let mut batch = self.cache.get_batch(nodes);
        for s in batch.take_spills() {
            self.spill(Some(s));
        }
        let mut records = Vec::new();
        for &node in batch.missing() {
            records.push(if self.cache.nvme().contains(node) {
                Some(self.read(node))
            } else {
                None
            });
        }
        let end = self.cache.finish_batch(batch, &records);
        for s in end.spills {
            self.spill(Some(s));
        }
        end.rows
    }

    fn stats(&self) -> CacheStats {
        self.cache.stats()
    }
}

fn config(gpu_capacity: usize, cpu_capacity: usize) -> FeatureCacheConfig {
    FeatureCacheConfig {
        gpu_capacity,
        cpu_capacity,
        feature_dim: 4,
        nvme_path: Some("/spill".to_string()),
        ..Default::default()
    }
}

#[test]
fn mod_test_feature_cache_basic() {
    let mut cache = Driver::new(config(2, 5));

    let features = bits(&[1.0, 2.0, 3.0, 4.0]);
    cache.insert(0, features.clone());

    let retrieved = cache.get(0).unwrap();
    assert_eq!(retrieved, features);

    let stats = cache.stats();
    assert_eq!(stats.gpu_hits, 1);
}

#[test]
fn mod_test_cache_eviction() {
    let mut cache = Driver::new(config(2, 5));

    for i in 0..3 {
        cache.insert(i, same(i as f32));
    }

    let retrieved = cache.get(0).unwrap();
    assert_eq!(retrieved, same(0.0));

    let stats = cache.stats();
    assert!(stats.cpu_hits > 0 || stats.nvme_hits > 0);
}

#[test]
fn mod_test_batch_get() {
    let mut cache = Driver::new(config(10, 20));

    for i in 0..5 {
        cache.insert(i, same(i as f32));
    }

    let nodes = vec![0, 1, 2, 3, 4];
    let batch = cache.get_batch(&nodes).unwrap();

    assert_eq!(batch.len(), 5);
    for (i, features) in batch.iter().enumerate() {
        assert_eq!(features[0], (i as f32).to_bits());
    }
}

#[test]
fn mod_test_pinned_nodes_not_evicted() {
    let mut warmup = AHashMap::new();
    warmup.insert(0_u32, 100); // node 0 is very hot
    warmup.insert(1, 1); // node 1 is cold

    let mut cache = Driver::new(FeatureCacheConfig {
        warmup_frequencies: Some(warmup),
        pin_ratio: Share { part: 1, whole: 2 }, // pin 1 of 2 GPU slots
        ..config(2, 5)
    });

    // Insert node 0 (pinned) and node 1
    cache.insert(0, same(0.0));
    cache.insert(1, same(1.0));

    // Insert node 2 -- should evict node 1 (cold, unpinned), not node 0 (pinned)
    cache.insert(2, same(2.0));

    // Node 0 should still be in GPU
    let retrieved = cache.get(0).unwrap();
    assert_eq!(retrieved, same(0.0));

    let stats = cache.stats();
    assert_eq!(stats.gpu_hits, 1); // node 0 hit in GPU, not demoted
}

#[test]
fn mod_fully_pinned_tier_does_not_hang() {
    // The whole as a share asks for a hot tier that is pinned whole. The pin
    // count stays below the capacity, so inserts past it come to an end.
    let mut warmup = AHashMap::new();
    for n in 0..4u32 {
        warmup.insert(n, 100 - n); // 4 hot nodes for 2 GPU slots
    }

    let mut cache = Driver::new(FeatureCacheConfig {
        warmup_frequencies: Some(warmup),
        pin_ratio: Share { part: 1, whole: 1 },
        ..config(2, 5)
    });
    // Fill past GPU capacity with pinned-candidate nodes, then keep inserting.
    for n in 0..8u32 {
        cache.insert(n, same(n as f32));
    }
    for n in 0..8u32 {
        let f = cache.get(n).unwrap();
        assert_eq!(f, same(n as f32));
    }
}

#[test]
fn mod_batch_get_with_duplicates() {
    let mut cache = Driver::new(config(4, 8));
    for i in 0..3u32 {
        cache.insert(i, same(i as f32));
    }
    // Duplicates and cold nodes mixed; output must match input order.
    let nodes = vec![2, 0, 2, 1, 0];
    let batch = cache.get_batch(&nodes).unwrap();
    assert_eq!(batch.len(), nodes.len());
    for (node, features) in nodes.iter().zip(&batch) {
        assert_eq!(features[0], (*node as f32).to_bits());
    }
}

#[test]
fn get_into_fills_caller_buffer() {
    let mut cache = Driver::new(config(2, 2));
    cache.insert(7, same(7.0));

    let mut out = vec![0u32; 4];
    match cache.cache.get_into(7, &mut out) {
        Lookup::Found(..) => {}
        other => panic!("{:?}", other),
    }
    assert_eq!(out, same(7.0));
}

#[test]
fn spill_tier_is_one_slot_file() {
    let mut cache = Driver::new(config(1, 1));

    // Tiny tiers force most nodes all the way down to NVMe.
    for i in 0..16u32 {
        cache.insert(i, same(i as f32));
    }
    for i in 0..16u32 {
        let f = cache.get(i).unwrap();
        assert_eq!(f, same(i as f32), "node {} corrupted through spill", i);
    }

    // The whole tier is one file of slots: none overlaps the next.
    let record = cache.cache.nvme().transfer_bytes() as u64;
    let slots: Vec<u64> = cache.disk.keys().copied().collect();
    assert_eq!(slots.len(), 16);
    for (i, slot) in slots.iter().enumerate() {
        assert_eq!(*slot, i as u64 * record);
    }
}

#[test]
fn absent_node_is_a_miss_error() {
    let mut cache = Driver::new(config(2, 2));
    assert!(cache.get(999).is_err());
    assert_eq!(cache.stats().misses, 1);
}

#[test]
fn mod_test_pinned_hits_tracked() {
    let mut warmup = AHashMap::new();
    warmup.insert(0_u32, 100);

    let mut cache = Driver::new(FeatureCacheConfig {
        warmup_frequencies: Some(warmup),
        pin_ratio: Share { part: 1, whole: 1 },
        ..config(5, 5)
    });
    cache.insert(0, same(0.0));

    // Access pinned node
    let _ = cache.get(0).unwrap();
    let _ = cache.get(0).unwrap();

    let stats = cache.stats();
    assert_eq!(stats.pinned_hits, 2);
}

/// The compressed backing tier makes the cache a complete feature source:
/// nodes that were never inserted still resolve.
#[test]
fn cold_store_serves_nodes_no_other_tier_has() {
    let (num_nodes, dim) = (1000usize, 8usize);
    let features: Vec<u32> = (0..num_nodes * dim)
        .map(|i| (i as f32 * 0.5).to_bits())
        .collect();
    let file = save_features(&features, num_nodes, dim).unwrap();
    let cold = ColdStore::build_from_store(&file, 12).unwrap();

    let mut cache = Driver::with_cold(
        FeatureCacheConfig {
            feature_dim: dim,
            ..config(4, 8)
        },
        Some(cold),
    )
    .unwrap();

    // Nothing was ever inserted: without the backing tier these error.
    let node = 900u32;
    let got = cache.get(node).unwrap();
    assert_eq!(
        got,
        &features[node as usize * dim..(node as usize + 1) * dim]
    );
    assert_eq!(cache.stats().cold_hits, 1);

    // It promoted, so the re-read is a memory-tier hit, not another
    // decompression.
    let again = cache.get(node).unwrap();
    assert_eq!(again, got);
    assert_eq!(cache.stats().cold_hits, 1);

    // A batch spanning distinct blocks resolves in one gather.
    let nodes: Vec<u32> = vec![1, 300, 700, 999, 300];
    let batch = cache.get_batch(&nodes).unwrap();
    for (i, &n) in nodes.iter().enumerate() {
        assert_eq!(
            batch[i],
            &features[n as usize * dim..(n as usize + 1) * dim],
            "node {} at position {}",
            n,
            i
        );
    }

    // Out of range stays an error rather than a silent zero row.
    assert!(cache.get(num_nodes as u32).is_err());
}

/// A cold store whose dimension disagrees with the cache is caught at
/// construction, not at first read.
#[test]
fn cold_store_dim_mismatch_fails_construction() {
    let file = save_features(&vec![0; 100 * 8], 100, 8).unwrap();
    let cold = ColdStore::build_from_store(&file, 12).unwrap();
    let built = Driver::with_cold(
        FeatureCacheConfig {
            feature_dim: 16,
            ..config(10, 10)
        },
        Some(cold),
    );
    let err = match built {
        Ok(_) => panic!("a dimension mismatch must fail construction"),
        Err(e) => e.message(),
    };
    assert!(err.contains("feature_dim"), "unexpected error: {}", err);
}

#[test]
fn a_spill_path_is_needed() {
    let built = Driver::with_cold(
        FeatureCacheConfig {
            nvme_path: None,
            ..config(2, 2)
        },
        None,
    );
    assert_eq!(built.err().unwrap(), CacheError::NvmePathMissing);
    let built = Driver::with_cold(
        FeatureCacheConfig {
            feature_dim: usize::MAX,
            ..config(2, 2)
        },
        None,
    );
    assert_eq!(
        built.err().unwrap(),
        CacheError::RecordOverflow { dim: usize::MAX }
    );
}

#[test]
fn a_batch_names_the_node_that_is_nowhere() {
    let mut cache = Driver::new(config(2, 2));
    cache.insert(1, same(1.0));
    assert_eq!(
        cache.get_batch(&[1, 5, 6]).unwrap_err(),
        CacheError::NotCached { node: 5 }
    );
}

#[test]
fn rows_survive_any_order_of_calls() {
    let mut cache = Driver::new(config(2, 3));
    for i in 0..12u32 {
        cache.insert(i, same(i as f32));
    }
    let mut state = 1u32;
    for _ in 0..500 {
        state = state.wrapping_mul(1664525).wrapping_add(1013904223);
        let node = (state >> 16) % 12;
        if state & 1 == 0 {
            assert_eq!(cache.get(node).unwrap(), same(node as f32));
        } else {
            let nodes = [node, (node + 5) % 12, node];
            let rows = cache.get_batch(&nodes).unwrap();
            for (n, row) in nodes.iter().zip(&rows) {
                assert_eq!(*row, same(*n as f32));
            }
        }
        let (hot, warm) = cache.cache.resident();
        assert!(hot <= 2 && warm <= 3);
    }
}

#[test]
fn records_are_rounded_up_and_read_back() {
    let tier = NvmeTier::open(3, 512, true).unwrap();
    assert_eq!(tier.transfer_bytes(), 512);
    assert_eq!(tier.slot(2), 1024);
    let record = tier.encode_record(&[7, 8, 9]);
    assert_eq!(record.len(), 512);
    assert_eq!(tier.decode_record(&record), vec![7, 8, 9]);
    let mut tier = NvmeTier::open(3, 512, true).unwrap();
    tier.mark_present(4);
    assert!(tier.contains(4));
    let hits = tier.load_plan(&[1, 4, 2, 4]);
    assert_eq!(hits, vec![(1, 4), (3, 4)]);
    let rows = tier.place_loaded(4, &hits, &vec![record.clone(), record]);
    assert_eq!(
        rows,
        vec![None, Some(vec![7, 8, 9]), None, Some(vec![7, 8, 9])]
    );
}

#[test]
fn counts_of_pins_nodes_and_chunks() {
    let half = Share { part: 1, whole: 2 };
    let full = Share { part: 1, whole: 1 };
    assert_eq!(pin_count(half, 10), 5);
    assert_eq!(pin_count(half, 11), 5);
    assert_eq!(pin_count(full, 10), 9);
    assert_eq!(pin_count(full, 0), 0);
    assert_eq!(pin_count(Share { part: 1, whole: 0 }, 10), 0);
    let usual = FeatureCacheConfig::default().pin_ratio;
    assert_eq!(pin_count(usual, 100), 80);
    assert_eq!(pin_count(usual, 10_000), 8_000);
    let freq = count_node_frequencies(&[vec![1, 2, 1], vec![2], vec![]]);
    assert_eq!(freq.len(), 2);
    assert_eq!(freq[&1], 2);
    assert_eq!(freq[&2], 2);
    assert!(fetch_chunk(1) >= 1);
    assert!(fetch_chunk(NVME_FANOUT * 3) >= 3);
}
