//! Feature files and the store that reads them. Values are the bits of floats.
use aethergraph_core::features::error::FeatureError;
use aethergraph_core::features::half_float::widen;
use aethergraph_core::features::header::{
    parse_feature_header, FeatureDtype, FEATURE_HEADER_SIZE, MAX_FEATURE_DIM,
};
use aethergraph_core::features::save::{
    create_features, save_feature_data, save_features, save_features_f16,
};
use aethergraph_core::features::source::NodeFeatureSource;
use aethergraph_core::features::store::{FeatureData, FeatureStore, ALIGNED_DATA_OFFSET};

fn bits(values: &[f32]) -> Vec<u32> {
    values.iter().map(|v| v.to_bits()).collect()
}

fn floats(values: &[u32]) -> Vec<f32> {
    values.iter().map(|&b| f32::from_bits(b)).collect()
}

fn halves(values: &[f32]) -> Vec<u16> {
    values
        .iter()
        .map(|&v| half::f16::from_f32(v).to_bits())
        .collect()
}

#[test]
fn test_save_and_load_features() {
    let num_nodes = 1000;
    let feature_dim = 128;

    // Create synthetic features
    let mut features = Vec::with_capacity(num_nodes * feature_dim);
    for i in 0..num_nodes {
        for j in 0..feature_dim {
            features.push((i * feature_dim + j) as f32);
        }
    }

    let bytes = save_features(&bits(&features), num_nodes, feature_dim).unwrap();

    let mut store = FeatureStore::load(bytes).unwrap();
    assert_eq!(store.num_nodes(), num_nodes);
    assert_eq!(store.feature_dim(), feature_dim);

    for i in 0..num_nodes {
        let node_features = floats(&store.get(i as u32).unwrap());
        assert_eq!(node_features.len(), feature_dim);
        for (j, &value) in node_features.iter().enumerate().take(feature_dim) {
            assert_eq!(value, (i * feature_dim + j) as f32);
        }
    }
}

#[test]
fn test_batch_load() {
    let num_nodes = 1000;
    let feature_dim = 64;

    let mut features = vec![0.0; num_nodes * feature_dim];
    for i in 0..num_nodes {
        for j in 0..feature_dim {
            features[i * feature_dim + j] = (i + j) as f32;
        }
    }

    let bytes = save_features(&bits(&features), num_nodes, feature_dim).unwrap();
    let mut store = FeatureStore::load(bytes).unwrap();

    // Batch load nodes [0, 10, 100]
    let nodes = vec![0, 10, 100];
    let batch = floats(&store.get_batch(&nodes).unwrap());

    assert_eq!(batch.len(), nodes.len() * feature_dim);

    // Verify node 0
    for (j, &value) in batch.iter().enumerate().take(feature_dim) {
        assert_eq!(value, j as f32);
    }

    // Verify node 10
    for j in 0..feature_dim {
        assert_eq!(batch[feature_dim + j], (10 + j) as f32);
    }
}

#[test]
fn test_mutable_feature_data() {
    let mut data = create_features(10, 4);

    // Set features for node 5
    let slot = data.get_mut(5).unwrap();
    slot.copy_from_slice(&bits(&[1.0, 2.0, 3.0, 4.0]));

    // Verify
    let features = data.get(5).unwrap();
    assert_eq!(features, &bits(&[1.0, 2.0, 3.0, 4.0])[..]);

    // Save and reload
    let bytes = save_feature_data(&data).unwrap();
    let mut store = FeatureStore::load(bytes).unwrap();
    let loaded = store.get(5).unwrap();
    assert_eq!(loaded, bits(&[1.0, 2.0, 3.0, 4.0]));
}

#[test]
fn store_test_large_batch() {
    let num_nodes = 10_000;
    let feature_dim = 256;

    let features = vec![1.0; num_nodes * feature_dim];
    let bytes = save_features(&bits(&features), num_nodes, feature_dim).unwrap();
    let mut store = FeatureStore::load(bytes).unwrap();

    // Load batch of 1000 nodes
    let nodes: Vec<u32> = (0..1000).collect();
    let batch = floats(&store.get_batch(&nodes).unwrap());

    assert_eq!(batch.len(), 1000 * feature_dim);
    assert!(batch.iter().all(|&x| x == 1.0));
}

#[test]
fn test_zero_copy_access() {
    let num_nodes = 100;
    let feature_dim = 16;

    let features = vec![42.0; num_nodes * feature_dim];
    let bytes = save_features(&bits(&features), num_nodes, feature_dim).unwrap();
    let mut store = FeatureStore::load(bytes).unwrap();

    let node_features = floats(&store.get(50).unwrap());
    assert_eq!(node_features.len(), feature_dim);
    assert!(node_features.iter().all(|&x| x == 42.0));

    let all_features = store.features().unwrap();
    assert_eq!(all_features.len(), num_nodes * feature_dim);
}

#[test]
fn test_file_format() {
    let num_nodes = 10;
    let feature_dim = 4;
    let features = vec![1.0f32; num_nodes * feature_dim];

    let bytes = save_features(&bits(&features), num_nodes, feature_dim).unwrap();

    // Check magic
    assert_eq!(&bytes[0..8], b"AETHFEAT");

    // Check num_nodes
    let stored_num_nodes = u64::from_le_bytes(bytes[8..16].try_into().unwrap());
    assert_eq!(stored_num_nodes, num_nodes as u64);

    // Check feature_dim
    let stored_feature_dim = u64::from_le_bytes(bytes[16..24].try_into().unwrap());
    assert_eq!(stored_feature_dim, feature_dim as u64);

    // Check data offset (aligned for new files)
    let stored_offset = u64::from_le_bytes(bytes[24..32].try_into().unwrap());
    assert_eq!(stored_offset, ALIGNED_DATA_OFFSET as u64);

    // Check total size
    let expected_size = stored_offset as usize + num_nodes * feature_dim * 4;
    assert_eq!(bytes.len(), expected_size);
}

#[test]
fn test_reject_zero_data_offset() {
    // The payload offset must clear the dtype tag at byte 32; a zero
    // offset is not a valid file.
    let features = [1.0f32, 2.0, 3.0, 4.0, 5.0, 6.0];
    let mut file: Vec<u8> = Vec::new();
    file.extend_from_slice(b"AETHFEAT");
    file.extend_from_slice(&(2u64).to_le_bytes());
    file.extend_from_slice(&(3u64).to_le_bytes());
    file.extend_from_slice(&0u64.to_le_bytes());
    for f in features {
        file.extend_from_slice(&f.to_le_bytes());
    }

    let err = match FeatureStore::load(file) {
        Err(e) => e,
        Ok(_) => panic!("zero data_offset must be rejected"),
    };
    assert!(
        err.message().contains("invalid data_offset"),
        "unexpected error: {}",
        err.message()
    );
}

#[test]
fn test_reject_unaligned_data_offset() {
    let mut bytes = vec![0u8; FEATURE_HEADER_SIZE + 32];
    bytes[0..8].copy_from_slice(b"AETHFEAT");
    bytes[8..16].copy_from_slice(&1u64.to_le_bytes()); // 1 node
    bytes[16..24].copy_from_slice(&1u64.to_le_bytes()); // 1 dim
    bytes[24..32].copy_from_slice(&33u64.to_le_bytes()); // unaligned offset

    let result = FeatureStore::load(bytes);
    assert!(result.is_err());
    let err = result.err().unwrap();
    assert!(err.message().contains("aligned"));
}

#[test]
fn test_truncated_file() {
    // Create a valid header but truncated data
    let mut bytes = vec![0u8; 64 + 10]; // payload region holds only 10 bytes
    bytes[0..8].copy_from_slice(b"AETHFEAT");
    bytes[8..16].copy_from_slice(&100u64.to_le_bytes()); // 100 nodes
    bytes[16..24].copy_from_slice(&64u64.to_le_bytes()); // 64 dims (needs 25600 bytes)
    bytes[24..32].copy_from_slice(&64u64.to_le_bytes()); // payload starts at 64

    // byte 32 stays 0: the tag of single precision
    let result = FeatureStore::load(bytes);
    assert!(result.is_err());
    let err = result.err().unwrap();
    assert!(err.message().contains("truncated"));
}

#[test]
fn store_test_excessive_num_nodes() {
    let mut bytes = vec![0u8; FEATURE_HEADER_SIZE];
    bytes[0..8].copy_from_slice(b"AETHFEAT");
    bytes[8..16].copy_from_slice(&u64::MAX.to_le_bytes()); // Absurd num_nodes

    let result = FeatureStore::load(bytes);
    assert!(result.is_err());
    let err = result.err().unwrap();
    assert!(err.message().contains("exceeds maximum"));
}

#[test]
fn test_wrong_magic() {
    let mut bytes = vec![0u8; FEATURE_HEADER_SIZE + 100];
    bytes[0..8].copy_from_slice(b"BADMAGIC"); // Wrong magic
    bytes[8..16].copy_from_slice(&10u64.to_le_bytes());
    bytes[16..24].copy_from_slice(&4u64.to_le_bytes());

    let result = FeatureStore::load(bytes);
    assert!(result.is_err());
}

#[test]
fn test_zero_feature_dim() {
    let mut bytes = vec![0u8; FEATURE_HEADER_SIZE];
    bytes[0..8].copy_from_slice(b"AETHFEAT");
    bytes[8..16].copy_from_slice(&10u64.to_le_bytes()); // 10 nodes
    bytes[16..24].copy_from_slice(&0u64.to_le_bytes()); // 0 dims (invalid)

    // A width of zero may be taken or refused: it must not panic.
    let _ = FeatureStore::load(bytes);
}

#[test]
fn test_empty_file() {
    let result = FeatureStore::load(vec![]);
    assert!(result.is_err());
}

#[test]
fn test_overflow_in_data_size() {
    // num_nodes * feature_dim would overflow
    let mut bytes = vec![0u8; FEATURE_HEADER_SIZE];
    bytes[0..8].copy_from_slice(b"AETHFEAT");
    bytes[8..16].copy_from_slice(&(u64::MAX / 2).to_le_bytes()); // huge nodes
    bytes[16..24].copy_from_slice(&1000u64.to_le_bytes()); // dims that cause overflow

    let result = FeatureStore::load(bytes);
    assert!(result.is_err());
}

#[test]
fn test_save_and_load_f16() {
    let num_nodes = 100;
    let feature_dim = 64;

    let mut features = Vec::with_capacity(num_nodes * feature_dim);
    for i in 0..num_nodes {
        for j in 0..feature_dim {
            features.push(((i * feature_dim + j) as f32) * 0.01);
        }
    }

    let bytes = save_features_f16(&halves(&features), num_nodes, feature_dim).unwrap();

    let mut store = FeatureStore::load(bytes).unwrap();
    assert_eq!(store.num_nodes(), num_nodes);
    assert_eq!(store.feature_dim(), feature_dim);
    assert_eq!(store.dtype(), FeatureDtype::F16);

    // get() should error for F16
    assert!(store.get(0).is_err());

    // get_into() should work
    let mut buf = vec![0u32; feature_dim];
    store.get_into(0, &mut buf).unwrap();
    for (j, &v) in floats(&buf).iter().enumerate() {
        let expected = (j as f32) * 0.01;
        assert!(
            (v - expected).abs() < 0.01,
            "node 0 dim {}: got {}, expected {}",
            j,
            v,
            expected
        );
    }
}

#[test]
fn test_f16_batch_load() {
    let num_nodes = 200;
    let feature_dim = 32;

    let mut features = Vec::with_capacity(num_nodes * feature_dim);
    for i in 0..num_nodes {
        for j in 0..feature_dim {
            features.push((i + j) as f32 * 0.1);
        }
    }

    let bytes = save_features_f16(&halves(&features), num_nodes, feature_dim).unwrap();

    let mut store = FeatureStore::load(bytes).unwrap();
    let nodes = vec![0u32, 10, 100];
    let batch = floats(&store.get_batch(&nodes).unwrap());
    assert_eq!(batch.len(), 3 * feature_dim);

    // Verify node 10
    for j in 0..feature_dim {
        let expected = (10 + j) as f32 * 0.1;
        let got = batch[feature_dim + j];
        assert!(
            (got - expected).abs() < 0.1,
            "node 10 dim {}: got {}, expected {}",
            j,
            got,
            expected
        );
    }
}

#[test]
fn test_f32_dtype_tag_loads() {
    // save_features writes dtype tag 0 (F32); load must honor it.
    let num_nodes = 50;
    let feature_dim = 16;
    let features = vec![42.0f32; num_nodes * feature_dim];

    let bytes = save_features(&bits(&features), num_nodes, feature_dim).unwrap();

    let mut store = FeatureStore::load(bytes).unwrap();
    assert_eq!(store.dtype(), FeatureDtype::F32);

    let node_features = floats(&store.get(0).unwrap());
    assert_eq!(node_features.len(), feature_dim);
    assert!(node_features.iter().all(|&x| x == 42.0));
}

#[test]
fn widening_agrees_for_every_half() {
    for h in 0..=u16::MAX {
        let expected = half::f16::from_bits(h).to_f32();
        let got = f32::from_bits(widen(h));
        if expected.is_nan() {
            assert!(got.is_nan(), "half {:#x}", h);
        } else {
            assert_eq!(got.to_bits(), expected.to_bits(), "half {:#x}", h);
        }
    }
}

#[test]
fn reading_names_what_is_wrong() {
    let mut store = FeatureStore::load(save_features(&[1, 2, 3, 4], 2, 2).unwrap()).unwrap();
    assert_eq!(
        store.get(2).unwrap_err(),
        FeatureError::NodeOutOfBounds {
            node: 2,
            num_nodes: 2
        }
    );
    assert!(store.get_batch(&[0, 2]).is_err());
    let mut small = [0u32; 1];
    assert!(store.get_into(0, &mut small).is_err());
    let mut out = [0u32; 4];
    store.get_batch_into(&[1, 0], &mut out).unwrap();
    assert_eq!(out, [3, 4, 1, 2]);
    assert!(store.get_batch_into(&[1], &mut out[..1]).is_err());
    let mut half = FeatureStore::load(save_features_f16(&[0x3c00; 2], 1, 2).unwrap()).unwrap();
    assert_eq!(half.get(0).unwrap_err(), FeatureError::HalfPrecisionRow);
    assert_eq!(
        half.features().unwrap_err(),
        FeatureError::HalfPrecisionPayload
    );
    assert_eq!(half.get_batch(&[0]).unwrap(), bits(&[1.0, 1.0]));
}

#[test]
fn saving_checks_the_shape() {
    assert_eq!(
        save_features(&[1, 2, 3], 2, 2).unwrap_err(),
        FeatureError::ArrayLength {
            expected: 4,
            len: 3
        }
    );
    assert!(save_features(&[], usize::MAX, 2).is_err());
    assert!(FeatureData::from_features(vec![1, 2, 3], 2, 2).is_err());
    assert!(FeatureData::from_features(vec![1, 2, 3, 4], 2, 2).is_ok());
}

#[test]
fn header_names_what_is_wrong() {
    let good = |dim: u64, offset: u64, tag: u8| {
        let mut b = vec![0u8; 40];
        b[0..8].copy_from_slice(b"AETHFEAT");
        b[8..16].copy_from_slice(&1u64.to_le_bytes());
        b[16..24].copy_from_slice(&dim.to_le_bytes());
        b[24..32].copy_from_slice(&offset.to_le_bytes());
        b[32] = tag;
        b
    };
    let header = parse_feature_header(&good(4, 512, 1), 520).unwrap();
    assert_eq!(header.dtype, FeatureDtype::F16);
    assert_eq!(header.feature_size, 8);
    assert_eq!(header.features_start_offset, 512);
    assert!(parse_feature_header(&good(4, 512, 1), 519).is_err());
    assert_eq!(
        parse_feature_header(&good(4, 512, 9), 1000).unwrap_err(),
        FeatureError::UnknownDtype { tag: 9 }
    );
    assert_eq!(
        parse_feature_header(&good(MAX_FEATURE_DIM + 1, 512, 0), 1000).unwrap_err(),
        FeatureError::TooManyDims {
            dim: MAX_FEATURE_DIM + 1
        }
    );
}

#[test]
fn batches_take_every_integer_type() {
    let mut store = FeatureStore::load(save_features(&[1, 2, 3, 4], 2, 2).unwrap()).unwrap();
    assert_eq!(store.get_batch(&[1usize]).unwrap(), vec![3, 4]);
    assert_eq!(store.get_batch(&[1i64, 0]).unwrap(), vec![3, 4, 1, 2]);
    assert_eq!(store.get_batch(&[0u8]).unwrap(), vec![1, 2]);
    let invalid = store.get_batch(&[0i32, -1]).unwrap_err();
    assert_eq!(invalid, FeatureError::InvalidNodeId);
    assert!(invalid.message().starts_with("invalid node id"));
    assert_eq!(
        store.get_batch(&[1u64 << 40]).unwrap_err(),
        FeatureError::InvalidNodeId
    );
    let missing = store.get_batch(&[7u32]).unwrap_err();
    assert_eq!(missing, FeatureError::BatchNodeOutOfBounds { node: 7 });
    assert_eq!(missing.message(), "node 7 out of bounds");
}

#[test]
fn telemetry_counts_reads() {
    let mut store = FeatureStore::load(save_features(&[1, 2, 3, 4], 2, 2).unwrap()).unwrap();
    assert!(store.telemetry().is_none());
    let mut store = store.with_telemetry();
    assert_eq!(store.get(1).unwrap(), vec![3, 4]);
    assert_eq!(store.get_batch(&[1u64, 0]).unwrap(), vec![3, 4, 1, 2]);
    assert!(store.get(2).is_err());
    assert!(store.get_batch(&[0, 2]).is_err());
    let t = store.telemetry().unwrap();
    assert_eq!((t.single_gets, t.batch_gets), (1, 1));
    assert_eq!((t.total_nodes_loaded, t.total_features_loaded), (3, 6));
    assert_eq!(t.total_bytes_loaded, 24);
    let mut out = [0u32; 2];
    store.get_batch_into(&[0], &mut out).unwrap();
    assert_eq!(store.telemetry().unwrap().batch_gets, 2);
    store.get_into(0, &mut out).unwrap();
    assert_eq!(store.telemetry().unwrap().total_nodes_loaded, 4);

    let mut store = store.with_telemetry();
    store.record_get(5);
    store.record_batch(2, 7);
    let t = store.telemetry().unwrap();
    assert_eq!(t.single_gets, 1);
    assert_eq!(t.batch_gets, 1);
    assert_eq!(t.total_nodes_loaded, 3);
    assert_eq!(t.total_features_loaded, 6);
    assert_eq!(t.get_time_ns, 5);
    assert_eq!(t.batch_time_ns, 7);
}

/// Reads a node through the interface that all sources share.
fn read_through<S: NodeFeatureSource>(source: &S, node: u32) -> Option<Vec<u32>> {
    let mut out = vec![0u32; source.feature_dim()];
    if source.read_node(node, &mut out) {
        Some(out)
    } else {
        None
    }
}

#[test]
fn store_is_a_feature_source() {
    let mut store = FeatureStore::load(save_features(&[1, 2, 3, 4], 2, 2).unwrap()).unwrap();
    assert_eq!(read_through(&store, 1), Some(vec![3, 4]));
    assert_eq!(read_through(&store, 2), None);
}

#[test]
fn a_copy_of_a_store_counts_for_itself() {
    let store = FeatureStore::load(save_features(&[1, 2, 3, 4], 2, 2).unwrap()).unwrap();
    let mut store = store.with_telemetry();
    store.get(0).unwrap();
    let mut copy = store.clone();
    assert_eq!(copy.get(1).unwrap(), vec![3, 4]);
    assert_eq!(copy.telemetry().unwrap().single_gets, 2);
    assert_eq!(store.telemetry().unwrap().single_gets, 1);
}
