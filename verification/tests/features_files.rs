//! Shared memory, reads row by row, and reads to the device.
use aethergraph_core::features::async_store::{
    extremes, fallback_chunk, next_ring, ring_count, ring_runs, AsyncFeatureStore, AsyncStoreError,
};
use aethergraph_core::features::gather::{
    decode_rows, plan_device_rows, plan_rows, GatherError, RowRead,
};
use aethergraph_core::features::gds::{
    check_batch, check_single, uses_batch_api, GdsError, GdsFeatureStore, GdsRead, GdsStatus,
};
use aethergraph_core::features::header::FeatureDtype;
use aethergraph_core::features::save::{save_features, save_features_f16};
use aethergraph_core::features::shared_store::{Geometry, SharedFeatureStore, SharedStoreError};
use aethergraph_core::features::source::NodeFeatureSource;

fn fixture(num_nodes: usize, dim: usize) -> (Vec<u8>, Vec<u32>) {
    let features: Vec<u32> = (0..num_nodes * dim)
        .map(|i| (i as f32 * 0.5).to_bits())
        .collect();
    let file = save_features(&features, num_nodes, dim).unwrap();
    (file, features)
}

#[test]
fn publish_and_read_locally() {
    let (file, features) = fixture(500, 16);

    let store = SharedFeatureStore::publish(&file).unwrap();
    assert_eq!(store.num_nodes(), 500);
    assert_eq!(store.feature_dim(), 16);
    assert_eq!(store.shared_bytes(), 500 * 16 * 4);

    let batch = store.get_batch(&[0, 17, 499, 17]).unwrap();
    for (i, &n) in [0usize, 17, 499, 17].iter().enumerate() {
        assert_eq!(
            &batch[i * 16..(i + 1) * 16],
            &features[n * 16..(n + 1) * 16]
        );
    }
    assert!(store.get_batch(&[500]).is_err(), "out of range must error");
}

#[test]
fn attached_peer_shares_the_same_pages() {
    let (file, features) = fixture(1000, 8);
    let owner = SharedFeatureStore::publish(&file).unwrap();

    // What the owner sends, and the region that it shares.
    let handshake = owner.geometry().to_bytes();
    let peer = SharedFeatureStore::attach(&handshake, owner.payload()).unwrap();
    assert_eq!(peer.num_nodes(), owner.num_nodes());
    assert_eq!(peer.feature_dim(), owner.feature_dim());
    assert_eq!(peer.dtype(), owner.dtype());

    let nodes: Vec<u32> = (0..1000u32).step_by(37).collect();
    assert_eq!(
        peer.get_batch(&nodes).unwrap(),
        owner.get_batch(&nodes).unwrap()
    );
    for (i, &n) in nodes.iter().enumerate() {
        let row = &peer.get_batch(&nodes).unwrap()[i * 8..(i + 1) * 8];
        assert_eq!(row, &features[n as usize * 8..(n as usize + 1) * 8]);
    }

    assert_eq!(peer.shared_bytes(), owner.shared_bytes());

    let second = SharedFeatureStore::attach(&handshake, owner.payload()).unwrap();
    assert_eq!(
        second.get_batch(&[42]).unwrap(),
        owner.get_batch(&[42]).unwrap()
    );
}

#[test]
fn geometry_round_trips_and_rejects_inconsistency() {
    let g = Geometry {
        payload_len: 100 * 8 * 4,
        num_nodes: 100,
        feature_dim: 8,
        dtype: FeatureDtype::F32,
    };
    let back = Geometry::from_bytes(&g.to_bytes()).unwrap();
    assert_eq!(back.num_nodes, 100);
    assert_eq!(back.feature_dim, 8);
    assert_eq!(back.payload_len, g.payload_len);

    // A payload length that disagrees with the geometry is refused at
    // the edge rather than mapping a wrong-sized region.
    let mut bad = g.to_bytes();
    bad[0..8].copy_from_slice(&999u64.to_le_bytes());
    assert!(Geometry::from_bytes(&bad).is_err());
}

#[test]
fn shared_store_names_what_is_wrong() {
    let (file, _) = fixture(4, 2);
    let owner = SharedFeatureStore::publish(&file).unwrap();
    let handshake = owner.geometry().to_bytes();
    let attached = SharedFeatureStore::attach(&handshake, &owner.payload()[..31]);
    assert_eq!(
        attached.err().unwrap(),
        SharedStoreError::RegionLength {
            len: 31,
            payload_len: 32
        }
    );
    let mut out = [0u32; 3];
    assert_eq!(
        owner.get_into(0, &mut out).unwrap_err(),
        SharedStoreError::BufferLength {
            len: 3,
            expected: 2
        }
    );
    let mut row = [0u32; 2];
    assert_eq!(
        owner.get_into(4, &mut row).unwrap_err(),
        SharedStoreError::NodeOutOfBounds {
            node: 4,
            num_nodes: 4
        }
    );
    assert!(owner.read_node(3, &mut row));
    assert_eq!(row, [3.0f32.to_bits(), 3.5f32.to_bits()]);
    assert!(SharedFeatureStore::publish(&file[..40]).is_err());
}

#[test]
fn gds_feature_store_buffer_arithmetic() {
    let feature_dim: usize = 128;
    let max_batch: usize = 1024;
    let elem_size: usize = 4;
    let required = max_batch * feature_dim * elem_size;
    assert_eq!(required, 524_288);
    // half precision halves it
    let required_half = max_batch * feature_dim * 2;
    assert_eq!(required_half, 262_144);

    let file = save_features(&vec![0; 128], 1, feature_dim).unwrap();
    let open = |size| GdsFeatureStore::open(&file, file.len() as u64, 0x1000, size, max_batch);
    assert!(open(required).is_ok());
    assert_eq!(
        open(required - 1).err().unwrap(),
        GdsError::BufferTooSmall {
            required,
            nodes: max_batch,
            row_bytes: 512,
            have: required - 1
        }
    );
    let half = save_features_f16(&vec![0; 128], 1, feature_dim).unwrap();
    let store =
        GdsFeatureStore::open(&half, half.len() as u64, 0x1000, required_half, max_batch).unwrap();
    assert_eq!(store.feature_size(), 256);
    assert_eq!(store.dtype(), FeatureDtype::F16);
}

#[test]
fn gds_reads_go_forward_through_the_file() {
    let (file, _) = fixture(10, 4);
    let store = GdsFeatureStore::open(&file, file.len() as u64, 0x1000, 64, 4).unwrap();
    let (reads, result) = store.get_batch(&[7, 2, 9]).unwrap();
    let read = |node: u32, place: usize| GdsRead {
        node,
        place,
        file_offset: 512 + 16 * u64::from(node),
        dev_offset: 16 * place,
        size: 16,
    };
    assert_eq!(reads, vec![read(2, 1), read(7, 0), read(9, 2)]);
    assert_eq!(result.device_ptr, 0x1000);
    assert_eq!(result.num_nodes, 3);
    assert_eq!(
        store.get_batch(&[0, 1, 2, 3, 4]).err().unwrap(),
        GdsError::BatchTooLarge { len: 5, max: 4 }
    );
    assert_eq!(
        store.get_batch(&[0, 10, 11]).err().unwrap(),
        GdsError::NodeOutOfBounds {
            node: 10,
            num_nodes: 10
        }
    );
    assert_eq!(store.get_batch_into(&[1], 48).unwrap()[0].dev_offset, 48);
    assert_eq!(
        store.get_batch_into(&[1], 49).err().unwrap(),
        GdsError::BatchBeyondBuffer {
            len: 1,
            offset: 49,
            have: 64
        }
    );
}

#[test]
fn gds_answers_are_checked() {
    let done = GdsStatus {
        status: 2,
        bytes_done: 16,
    };
    assert_eq!(check_batch(&[done, done], 16), Ok(32));
    let waiting = GdsStatus {
        status: 1,
        bytes_done: 16,
    };
    let short = GdsStatus {
        status: 2,
        bytes_done: 8,
    };
    assert_eq!(
        check_batch(&[done, waiting, short], 16),
        Err(GdsError::NotComplete {
            entry: 1,
            status: 1
        })
    );
    assert_eq!(
        check_batch(&[short], 16),
        Err(GdsError::ShortEntry {
            entry: 0,
            expected: 16,
            got: 8
        })
    );
    assert_eq!(check_single(3, 16, 16), Ok(16));
    let err = check_single(3, -5, 16).unwrap_err();
    assert_eq!(err, GdsError::ReadFailed { node: 3, code: -5 });
    assert!(err.message().contains("-5"));
    assert_eq!(
        check_single(3, 4, 16),
        Err(GdsError::ShortRead {
            node: 3,
            expected: 16,
            got: 4
        })
    );
    assert!(!uses_batch_api(7));
    assert!(uses_batch_api(8));
}

#[test]
fn rows_are_planned_and_decoded() {
    let (file, features) = fixture(10, 4);
    let nodes = [7u32, 2, 7];
    let reads = plan_rows(&nodes, 512, 16, 20).unwrap();
    let mut buffer = vec![0u8; 60];
    for read in &reads {
        let from = read.offset as usize;
        buffer[read.at..read.at + read.len].copy_from_slice(&file[from..from + read.len]);
    }
    let got = decode_rows(&buffer, 20, FeatureDtype::F32, 4, 3);
    for (i, &n) in nodes.iter().enumerate() {
        let n = n as usize;
        assert_eq!(&got[i * 4..(i + 1) * 4], &features[n * 4..(n + 1) * 4]);
    }
    assert_eq!(
        plan_rows(&[1], u64::MAX, 16, 16).unwrap_err(),
        GatherError::OffsetOverflow
    );
    assert_eq!(
        plan_rows(&[1, 1], 0, 16, usize::MAX).unwrap_err(),
        GatherError::BufferOverflow {
            nodes: 2,
            bytes: usize::MAX
        }
    );
}

#[test]
fn device_rows_need_whole_blocks() {
    let plan = plan_device_rows(4096, 512, 512, 4096, &[Some(1024), Some(0)], 512).unwrap();
    assert_eq!(
        plan,
        vec![
            RowRead {
                offset: 1024,
                at: 0,
                len: 512
            },
            RowRead {
                offset: 0,
                at: 512,
                len: 512
            },
        ]
    );
    assert!(plan_device_rows(4097, 512, 512, 4096, &[Some(0)], 512).is_none());
    assert!(plan_device_rows(4096, 500, 512, 4096, &[Some(0)], 512).is_none());
    assert!(plan_device_rows(4096, 512, 512, 4096, &[None], 512).is_none());
}

#[test]
fn async_store_plans_what_it_decodes() {
    let (file, features) = fixture(10, 4);
    let mut store = AsyncFeatureStore::load(&file[..40], file.len() as u64)
        .unwrap()
        .with_telemetry();
    assert_eq!(store.num_nodes(), 10);
    assert_eq!(store.feature_dim(), 4);
    let read = store.plan_get(3).unwrap();
    assert_eq!(read.offset, 512 + 3 * 16);
    let from = read.offset as usize;
    let row = store.finish_get(&file[from..from + read.len], 9);
    assert_eq!(row, features[12..16]);
    assert_eq!(
        store.plan_get(10).unwrap_err(),
        AsyncStoreError::NodeOutOfBounds { node: 10 }
    );

    let nodes = [9u32, 0];
    let reads = store.plan_batch(&nodes, 16).unwrap();
    let mut buffer = vec![0u8; 32];
    for read in &reads {
        let from = read.offset as usize;
        buffer[read.at..read.at + read.len].copy_from_slice(&file[from..from + read.len]);
    }
    let rows = store.finish_batch(&buffer, 16, 2, 11);
    assert_eq!(rows[..4], features[36..40]);
    assert_eq!(rows[4..], features[..4]);
    assert_eq!(
        store.plan_batch(&[3, 12, 11], 16).unwrap_err(),
        AsyncStoreError::BatchOutOfBounds {
            node: 12,
            num_nodes: 10
        }
    );
    assert!(store.plan_batch(&[], 16).unwrap().is_empty());
    let t = store.telemetry().unwrap();
    assert_eq!(t.single_gets, 1);
    assert_eq!(t.batch_gets, 1);
    assert_eq!(t.total_nodes_loaded, 3);
}

#[test]
fn dense_batches_are_read_ahead() {
    let (file, _) = fixture(1000, 4);
    let store = AsyncFeatureStore::load(&file[..40], file.len() as u64).unwrap();
    assert_eq!(extremes(&[5, 3, 9]), (3, 9));
    assert_eq!(
        store.prefetch_batch_range(&[5, 3, 6]),
        Some((512 + 3 * 16, 4 * 16))
    );
    assert_eq!(store.prefetch_batch_range(&[0, 900]), None);
    assert_eq!(store.prefetch_batch_range(&[]), None);
}

#[test]
fn rings_and_chunks() {
    assert_eq!(ring_count(None), 1);
    assert_eq!(ring_count(Some(0)), 1);
    assert_eq!(ring_count(Some(3)), 3);
    assert_eq!(ring_count(Some(64)), 4);
    assert_eq!(next_ring(5, 4), 1);
    assert_eq!(fallback_chunk(10, 3), 4);
    assert_eq!(fallback_chunk(2, 8), 1);
}

#[test]
fn reads_are_submitted_in_runs() {
    assert_eq!(ring_runs(0), vec![]);
    assert_eq!(ring_runs(1), vec![(0, 1)]);
    assert_eq!(ring_runs(64), vec![(0, 64)]);
    assert_eq!(ring_runs(130), vec![(0, 64), (64, 128), (128, 130)]);
}
