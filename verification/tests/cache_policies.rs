//! The two eviction policies: by sweeping, and by frequency.
use aethergraph_core::features::cache::freq::{FreqCache, InsertOutcome};
use aethergraph_core::features::cache::heap::RankHeap;
use aethergraph_core::features::cache::sieve::SieveCache;
use aethergraph_core::features::cache::slab::RowSlab;
use ahash::AHashMap;

fn row(value: f32) -> Vec<u32> {
    vec![value.to_bits()]
}

fn cache(capacity: usize) -> SieveCache {
    SieveCache::new(capacity, 1, AHashMap::new())
}

fn insert(c: &mut SieveCache, node: u32) -> Option<u32> {
    match c.insert(node, &row(node as f32)) {
        InsertOutcome::Stored => None,
        InsertOutcome::StoredEvicting(victim, _) => Some(victim),
        InsertOutcome::Refused => panic!("unexpected refusal"),
    }
}

#[test]
fn evicts_in_insertion_order_when_nothing_was_hit() {
    let mut c = cache(3);
    for n in 0..3 {
        assert_eq!(insert(&mut c, n), None);
    }
    // Oldest first, since no entry was ever visited.
    assert_eq!(insert(&mut c, 3), Some(0));
    assert_eq!(insert(&mut c, 4), Some(1));
}

/// The whole point of the policy: a hit buys an entry one sweep, and
/// the cold neighbour is taken instead.
#[test]
fn a_hit_defers_eviction_to_the_next_unvisited_entry() {
    let mut c = cache(3);
    for n in 0..3 {
        insert(&mut c, n);
    }
    assert!(c.get(0).is_some());

    // 0 is visited, so the hand clears its bit and takes 1 instead.
    assert_eq!(insert(&mut c, 3), Some(1));
    assert!(c.get(0).is_some(), "0 should have survived");
}

/// Retained entries stay where they are — they are not promoted to the
/// head as LRU would. The hand therefore leaves a survivor *behind*
/// it, and keeps working through newer entries; the survivor is not
/// reconsidered until the hand wraps. This is the lazy-promotion
/// half of the policy, and it is why a hit is cheap: nothing is
/// relinked on the hit path.
#[test]
fn a_survivor_stays_put_behind_the_hand() {
    let mut c = cache(3);
    for n in 0..3 {
        insert(&mut c, n);
    }
    c.get(0);

    // The hand clears 0's bit, steps over it, and takes 1. From here
    // it is positioned past 0 and chases the newer entries.
    assert_eq!(insert(&mut c, 3), Some(1));
    assert_eq!(insert(&mut c, 4), Some(2));
    assert_eq!(insert(&mut c, 5), Some(3));
    assert!(c.get(0).is_some(), "survivor should sit behind the hand");
}

/// When every resident entry has been hit, the sweep clears all the
/// bits, runs off the head, wraps to the oldest, and evicts there — so
/// a uniformly-hot cache degrades to FIFO rather than refusing to
/// evict or spinning.
#[test]
fn a_full_sweep_clears_bits_then_wraps_to_the_oldest() {
    let mut c = cache(3);
    for n in 0..3 {
        insert(&mut c, n);
    }
    for n in 0..3 {
        assert!(c.get(n).is_some());
    }

    assert_eq!(insert(&mut c, 3), Some(0));
    assert!(c.get(1).is_some());
    assert!(c.get(2).is_some());
}

/// With no hits at all the hand advances one entry per eviction from
/// the oldest end, so the policy degenerates to FIFO.
#[test]
fn degenerates_to_fifo_without_hits() {
    let mut c = cache(3);
    for n in 0..3 {
        insert(&mut c, n);
    }
    for (step, expected) in [(3u32, 0u32), (4, 1), (5, 2), (6, 3)] {
        assert_eq!(insert(&mut c, step), Some(expected));
    }
}

#[test]
fn pinned_entries_are_stepped_over() {
    let mut c = cache(3);
    for n in 0..3 {
        insert(&mut c, n);
    }
    c.pin(0);

    assert_eq!(insert(&mut c, 3), Some(1));
    assert!(c.get(0).is_some(), "pinned node must stay resident");
}

#[test]
fn refuses_when_every_entry_is_pinned() {
    let mut c = cache(2);
    insert(&mut c, 0);
    insert(&mut c, 1);
    c.pin(0);
    c.pin(1);

    assert!(matches!(c.insert(9, &row(9.0)), InsertOutcome::Refused));
    assert_eq!(c.len(), 2);
}

#[test]
fn unpinning_restores_evictability_without_requeue() {
    let mut c = cache(2);
    insert(&mut c, 0);
    insert(&mut c, 1);
    c.pin(0);
    c.pin(1);
    assert!(matches!(c.insert(9, &row(9.0)), InsertOutcome::Refused));

    c.unpin(0);
    assert_eq!(insert(&mut c, 9), Some(0));
}

#[test]
fn warm_nodes_enter_with_a_sweep_of_grace() {
    let mut warmup = AHashMap::new();
    warmup.insert(0u32, 50);
    let mut c = SieveCache::new(3, 1, warmup);
    for n in 0..3 {
        insert(&mut c, n);
    }

    // 0 entered visited, so the first sweep clears it and takes 1.
    assert_eq!(insert(&mut c, 3), Some(1));
    assert!(c.get(0).is_some());
}

#[test]
fn reinsert_updates_row_without_growing_the_queue() {
    let mut c = cache(2);
    insert(&mut c, 0);
    assert!(matches!(c.insert(0, &row(42.0)), InsertOutcome::Stored));
    assert_eq!(c.len(), 1);
    assert_eq!(c.get(0), Some(row(42.0)));
}

/// Hit rate on a skewed key distribution, which is what neighbour
/// sampling produces: a few hub nodes are requested constantly while a
/// long tail is touched once and never again.
///
/// Run with `--nocapture` to see the rate; the assertion is a floor
/// that catches a policy regression rather than a tuned target.
#[test]
fn hit_rate_on_a_skewed_workload() {
    const CAPACITY: usize = 1_000;
    const KEYS: u64 = 20_000;
    const REQUESTS: usize = 200_000;

    let mut c = cache(CAPACITY);
    // Deterministic Zipf-like draw: cube a uniform sample so low
    // (hot) keys dominate, without pulling in an RNG dependency.
    let mut state = 0x2545_F491_4F6C_DD1Du64;
    let mut hits = 0usize;
    // A clairvoyant cache pinned to the CAPACITY hottest keys would
    // serve exactly the requests that land in that range, so this is
    // the ceiling any policy can reach on this trace. Comparing
    // against it keeps the assertion meaningful when the distribution
    // is tuned, instead of hard-coding a rate that silently stops
    // meaning anything.
    let mut oracle_hits = 0usize;

    for _ in 0..REQUESTS {
        state ^= state << 13;
        state ^= state >> 7;
        state ^= state << 17;
        let u = (state >> 11) as f64 / (1u64 << 53) as f64;
        let key = ((u * u * u) * KEYS as f64) as u32 % KEYS as u32;

        if (key as usize) < CAPACITY {
            oracle_hits += 1;
        }
        if c.get(key).is_some() {
            hits += 1;
        } else {
            insert(&mut c, key);
        }
    }

    let rate = hits as f64 / REQUESTS as f64;
    let oracle = oracle_hits as f64 / REQUESTS as f64;
    let efficiency = rate / oracle;
    println!(
        "sieve hit rate: {:.4} ({}/{}); oracle {:.4}; efficiency {:.3}",
        rate, hits, REQUESTS, oracle, efficiency
    );
    assert!(
        efficiency > 0.75,
        "hit rate {:.4} is only {:.3} of the {:.4} ceiling",
        rate,
        efficiency,
        oracle
    );
}

/// Slab rows are recycled, and the queue is indexed by row — so a long
/// churn must not corrupt the links or leak entries.
#[test]
fn sustained_churn_keeps_the_queue_consistent() {
    let mut c = cache(8);
    for n in 0..500u32 {
        insert(&mut c, n);
        if n % 3 == 0 {
            c.get(n);
        }
        assert!(c.len() <= 8, "capacity exceeded at {}", n);
    }

    // Every resident node must be reachable by walking the queue from
    // the tail, exactly once.
    let mut queued = c.queued_nodes();
    assert_eq!(queued.len(), c.len(), "queue and map disagree on residency");
    queued.sort_unstable();
    queued.dedup();
    assert_eq!(queued.len(), c.len(), "queue holds a node twice");
    for n in queued {
        assert!(c.get(n).is_some());
    }
}

#[test]
fn sieve_hands_out_the_evicted_row() {
    let mut c = cache(1);
    insert(&mut c, 5);
    assert!(c.is_pinned(5) == false);
    match c.insert(6, &row(6.0)) {
        InsertOutcome::StoredEvicting(victim, old) => {
            assert_eq!(victim, 5);
            assert_eq!(old, row(5.0));
        }
        other => panic!("{:?}", other),
    }
    assert_eq!(c.get(6), Some(row(6.0)));
    assert_eq!(c.get(5), None);
}

fn store(c: &mut FreqCache, node: u32) -> Option<u32> {
    match c.insert(node, &row(node as f32)) {
        InsertOutcome::Stored => None,
        InsertOutcome::StoredEvicting(victim, old) => {
            assert_eq!(old, row(victim as f32));
            Some(victim)
        }
        InsertOutcome::Refused => panic!("unexpected refusal"),
    }
}

#[test]
fn the_least_frequent_node_leaves() {
    let mut c = FreqCache::new(3, 1, AHashMap::new());
    for n in 0..3 {
        assert_eq!(store(&mut c, n), None);
    }
    c.get(0);
    c.get(0);
    c.get(2);
    assert_eq!(store(&mut c, 3), Some(1));
    assert_eq!(c.len(), 3);
    assert!(c.contains(0) && c.contains(2) && c.contains(3));
}

#[test]
fn warm_nodes_count_from_the_start() {
    let mut warmup = AHashMap::new();
    warmup.insert(0u32, 50);
    let mut c = FreqCache::new(2, 1, warmup);
    store(&mut c, 0);
    store(&mut c, 1);
    for _ in 0..5 {
        c.get(1);
    }
    assert_eq!(store(&mut c, 2), Some(1));
    assert_eq!(c.get(0), Some(row(0.0)));
}

#[test]
fn pinned_nodes_stay_and_a_full_tier_refuses() {
    let mut c = FreqCache::new(2, 1, AHashMap::new());
    store(&mut c, 0);
    store(&mut c, 1);
    c.pin(0);
    assert!(c.is_pinned(0));
    assert_eq!(store(&mut c, 2), Some(1));
    c.pin(2);
    assert_eq!(c.insert(3, &row(3.0)), InsertOutcome::Refused);
    assert_eq!(c.get(0), Some(row(0.0)));
    c.unpin(2);
    assert_eq!(store(&mut c, 3), Some(2));
}

#[test]
fn inserting_again_replaces_the_row() {
    let mut c = FreqCache::new(2, 1, AHashMap::new());
    store(&mut c, 0);
    assert_eq!(c.insert(0, &row(42.0)), InsertOutcome::Stored);
    assert_eq!(c.len(), 1);
    assert_eq!(c.get(0), Some(row(42.0)));
}

#[test]
fn ranks_come_out_lowest_first() {
    let mut heap = RankHeap::new();
    for x in [(5, 1), (2, 9), (2, 3), (7, 0)] {
        heap.push(x);
    }
    assert_eq!(heap.len(), 4);
    let mut out = Vec::new();
    while let Some(x) = heap.pop() {
        out.push(x);
    }
    assert_eq!(out, vec![(2, 3), (2, 9), (5, 1), (7, 0)]);
    assert_eq!(heap.pop(), None);
}

#[test]
fn released_rows_are_used_again() {
    let mut slab = RowSlab::new(2);
    let a = slab.allocate();
    let b = slab.allocate();
    assert_ne!(a, b);
    slab.write_row(a, &[1, 2]);
    slab.write_row(b, &[3, 4]);
    assert_eq!(slab.row(a), &[1, 2]);
    slab.release(a);
    let c = slab.allocate();
    assert_eq!(c, a);
    assert_eq!(slab.row(b), &[3, 4]);
}
