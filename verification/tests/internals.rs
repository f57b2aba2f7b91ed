//! Deduplication, generators, page hints, placement and aligned memory.
use aethergraph_core::internal::aligned::{
    AlignedBuffer, AlignedBufferPool, AlignedError, DIRECT_IO_ALIGNMENT,
};
use aethergraph_core::internal::genstamp::{FloydStamps, GenDedup, GenSlots, WyRand};
use aethergraph_core::internal::hint::{
    interleave_span, page_size, page_span, populate_read, populate_span,
};
use aethergraph_core::internal::numa::pin_worker;
use rustc_hash::FxHashMap;

#[test]
fn gen_slots_dedup_within_and_across_passes() {
    let mut slots = GenSlots::new(8);
    slots.begin();
    assert_eq!(slots.probe_or_insert(3, 0), (0, true));
    assert_eq!(slots.probe_or_insert(5, 1), (1, true));
    assert_eq!(slots.probe_or_insert(3, 2), (0, false));

    // A new pass forgets everything.
    slots.begin();
    assert_eq!(slots.probe_or_insert(3, 0), (0, true));
}

#[test]
fn gen_dedup_map_mode_matches_dense_mode() {
    let mut dense = GenDedup::Dense(GenSlots::new(16));
    let mut map = GenDedup::Sparse(FxHashMap::default());
    for d in [&mut dense, &mut map] {
        d.begin();
        assert_eq!(d.probe_or_insert(7, 0), (0, true));
        assert_eq!(d.probe_or_insert(2, 1), (1, true));
        assert_eq!(d.probe_or_insert(7, 2), (0, false));
        d.begin();
        assert_eq!(d.probe_or_insert(2, 0), (0, true));
    }
}

#[test]
fn floyd_stamps_reset_on_begin() {
    let mut stamps = FloydStamps::new();
    stamps.begin();
    assert!(stamps.test_and_set(10));
    assert!(!stamps.test_and_set(10));
    stamps.begin();
    assert!(stamps.test_and_set(10));
}

#[test]
fn floyd_stamps_survive_generation_wrap() {
    let mut stamps = FloydStamps::new();
    stamps.generation = u32::MAX;
    stamps.stamp[4] = u32::MAX;
    stamps.begin(); // wraps: fill(0), generation = 1
    assert_eq!(stamps.generation, 1);
    assert!(stamps.test_and_set(4));
}

#[test]
fn gen_slots_survive_generation_wrap() {
    let mut slots = GenSlots::new(4);
    slots.generation = u32::MAX;
    slots.slots[2] = GenSlots::pack_slot(u32::MAX, 9);
    slots.begin(); // wraps: fill(0), generation = 1
    assert_eq!(slots.generation, 1);
    assert_eq!(slots.probe_or_insert(2, 0), (0, true));
}

#[test]
fn wyrand_is_deterministic_per_seed() {
    let mut a = WyRand::new(42);
    let mut b = WyRand::new(42);
    for _ in 0..16 {
        assert_eq!(a.next_u64(), b.next_u64());
    }
    assert_eq!(WyRand::new(7).next_u32(), WyRand::new(7).next_u64() as u32);
}

#[test]
fn wyrand_multiplies_and_folds() {
    let state = 42u64.wrapping_add(0xa076_1d64_78bd_642f);
    let product = u128::from(state) * u128::from(state ^ 0xe703_7ed1_a0b4_28db);
    let expected = (product >> 64) as u64 ^ product as u64;
    assert_eq!(WyRand::new(42).next_u64(), expected);
}

/// Populating a span must either work or report that it did not: never a
/// false success that the caller would take as "resident".
#[test]
fn populate_read_reports_whether_it_populated() {
    let len = 256 * 1024;
    let mut region = vec![0u8; len];
    let addr = region.as_ptr() as usize;
    let page = page_size(4096);

    // The system said yes, said no, or has no such call.
    assert!(populate_read(addr, len, page, Some(0)));
    assert!(!populate_read(addr, len, page, Some(-1)));
    assert!(!populate_read(addr, len, page, None));

    // The span that is handed over holds the region.
    let (from, span) = populate_span(addr, len, page).unwrap();
    assert!(from <= addr && from % page == 0);
    assert!(from + span >= addr + len);

    region[0] = 7;
    region[len - 1] = 9;
    assert_eq!(region[0], 7);
    assert_eq!(region[len - 1], 9);
}

/// A zero-length span has no pages to fault, so it must report false.
#[test]
fn populate_read_rejects_an_empty_span() {
    let region = [0u8; 4096];
    let addr = region.as_ptr() as usize;
    assert!(!populate_read(addr, 0, 4096, Some(0)));
    assert_eq!(populate_span(addr, 0, 4096), None);
}

#[test]
fn spans_start_on_pages() {
    assert_eq!(page_size(-1), 4096);
    assert_eq!(page_size(0), 4096);
    assert_eq!(page_size(16384), 16384);
    assert_eq!(page_span(0x1234, 0x10, 0x1000), (0x1000, 0x1000));
    assert_eq!(page_span(0x1fff, 2, 0x1000), (0x1000, 0x2000));
    assert_eq!(interleave_span(0x1234, 0x10, 0x1000, 1), None);
    assert!(interleave_span(0x1234, 0x10_0000, 0x1000, 2).is_some());
}

/// Placement is advisory: where there is one node or none it reports none.
#[test]
fn pin_worker_is_infallible_for_any_index() {
    for index in [0usize, 1, 7, 64, usize::MAX] {
        // Where placement can happen, it must name a node that exists.
        let nodes = [3u32, 5, 8];
        let node = pin_worker(index, &nodes).unwrap();
        assert!(nodes.contains(&node));
        assert_eq!(node, nodes[index % 3]);

        // Where it cannot, the call reports so.
        assert_eq!(pin_worker(index, &[]), None);
        assert_eq!(pin_worker(index, &[0]), None);
    }
}

#[test]
fn test_aligned_buffer() {
    let buf = AlignedBuffer::try_new_default(1000).unwrap();

    // Should be rounded up to 4096
    assert!(buf.len() >= 1000);
    assert_eq!(buf.len() % DIRECT_IO_ALIGNMENT, 0);
    assert_eq!(buf.len(), 4096);

    // Should be aligned
    assert_eq!(buf.alignment() % DIRECT_IO_ALIGNMENT, 0);
}

#[test]
fn test_buffer_pool() {
    let pool = AlignedBufferPool::try_new(4, 100).unwrap();

    assert_eq!(pool.num_slots(), 4);
    assert!(pool.slot_size() >= 100);

    // Each slot should be aligned
    for i in 0..4 {
        assert_eq!(pool.slot_offset(i) % DIRECT_IO_ALIGNMENT, 0);
    }
}

/// Slot sizes that are not themselves multiples of four are the case that
/// would break the view of a slot as floats.
#[test]
fn slot_slice_f32_views_every_slot_without_realignment() {
    for slot_size in [4usize, 12, 100, 4096, 5000] {
        let pool = AlignedBufferPool::try_new(4, slot_size).unwrap();
        let lanes = slot_size / 4;
        for i in 0..4 {
            let (from, to) = pool.slot_range(i, lanes * 4);
            assert_eq!(from % 4, 0, "slot {} of size {}", i, slot_size);
            assert_eq!((to - from) / 4, lanes);
            assert!(to <= pool.region_len());
        }
    }
}

/// The range of a slot must be the bytes that the slot holds.
#[test]
fn slot_slice_f32_round_trips_written_lanes() {
    let pool = AlignedBufferPool::try_new(2, 16).unwrap();
    let mut region = vec![0u8; pool.region_len()];
    let sentinel: [f32; 4] = [-1.0, -1.0, -1.0, -1.0];
    let written: [f32; 4] = [1.5, -2.25, 0.0, 7.75];
    for (slot, values) in [(0usize, &sentinel), (1usize, &written)] {
        let bytes: Vec<u8> = values.iter().flat_map(|v| v.to_le_bytes()).collect();
        let at = pool.slot_offset(slot);
        region[at..at + 16].copy_from_slice(&bytes);
    }
    let lanes = |slot: usize| -> Vec<f32> {
        pool.slot_slice(&region, slot, 16)
            .chunks_exact(4)
            .map(|c| f32::from_le_bytes(c.try_into().unwrap()))
            .collect()
    };
    assert_eq!(lanes(1), &written);
    assert_eq!(lanes(0), &sentinel);
}

#[test]
fn aligned_memory_names_what_is_wrong() {
    assert_eq!(
        AlignedBuffer::try_new_default(0).err().unwrap(),
        AlignedError::ZeroLength
    );
    assert!(AlignedBuffer::try_new_default(usize::MAX).is_err());
    assert_eq!(
        AlignedBuffer::try_new(10, 3).err().unwrap(),
        AlignedError::InvalidLayout
    );
    assert_eq!(
        AlignedBufferPool::try_new(0, 16).err().unwrap(),
        AlignedError::ZeroSlots
    );
    assert!(AlignedBufferPool::try_new(usize::MAX, 4096).is_err());
}

#[test]
fn buffers_and_pools_of_sound_sizes() {
    let buffer = AlignedBuffer::new_default(5000);
    assert_eq!((buffer.len(), buffer.alignment()), (8192, 4096));
    let pool = AlignedBufferPool::new(3, 100);
    assert_eq!((pool.num_slots(), pool.slot_size()), (3, 4096));
    assert_eq!(pool.region_len(), 3 * 4096);
}
