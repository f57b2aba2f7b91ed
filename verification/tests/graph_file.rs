//! Graph files.
use aethergraph_core::graph::{Graph, GraphValidationMode};
use aethergraph_core::storage::compressed_graph::{load_graph, load_graph_owned};
use aethergraph_core::storage::graph_file::{
    default_validation_mode, load_graph_from_mmap, load_graph_from_mmap_with_validation,
    parse_layout, save_graph, GraphFileError, GraphHeader, FULL_VALIDATION_THRESHOLD_BYTES,
    HEADER_SIZE, MAGIC, VERSION,
};

fn bits(values: &[f32]) -> Vec<u32> {
    values.iter().map(|v| v.to_bits()).collect()
}

#[test]
fn test_save_and_load() {
    let edges = vec![(0, 1), (0, 2), (1, 2), (2, 0)];
    let graph = Graph::from_edges(3, &edges, None).unwrap();

    let bytes = save_graph(&graph);

    let loaded = load_graph(&bytes, None).unwrap();

    assert_eq!(loaded.num_nodes(), graph.num_nodes());
    assert_eq!(loaded.num_edges(), graph.num_edges());
    assert_eq!(loaded.neighbors(0), graph.neighbors(0));
    assert_eq!(loaded.neighbors(1), graph.neighbors(1));
    assert_eq!(loaded.neighbors(2), graph.neighbors(2));
}

#[test]
fn test_save_and_load_weighted() {
    let edges = vec![(0, 1), (0, 2), (1, 2)];
    let weights = bits(&[0.5, 1.0, 0.3]);
    let graph = Graph::from_edges(3, &edges, Some(&weights)).unwrap();

    let bytes = save_graph(&graph);

    let loaded = load_graph(&bytes, None).unwrap();

    assert_eq!(loaded.num_nodes(), graph.num_nodes());
    assert_eq!(loaded.num_edges(), graph.num_edges());
    assert_eq!(loaded.neighbor_weights(0), Some(&bits(&[0.5, 1.0])[..]));
    assert_eq!(loaded.neighbor_weights(1), Some(&bits(&[0.3])[..]));
}

#[test]
fn test_save_and_load_owned() {
    let edges = vec![(0, 1), (1, 2), (2, 0)];
    let graph = Graph::from_edges(3, &edges, None).unwrap();

    let bytes = save_graph(&graph);

    let loaded = load_graph_owned(&bytes, None, GraphValidationMode::Full).unwrap();
    assert_eq!(loaded.num_nodes(), 3);
    assert_eq!(loaded.num_edges(), 3);
    assert_eq!(loaded.neighbors(0), &[1]);
}

#[test]
fn test_large_graph() {
    let mut edges = Vec::new();
    for i in 0..1000 {
        for j in 0..10 {
            edges.push((i, (i + j + 1) % 1000));
        }
    }

    let graph = Graph::from_edges(1000, &edges, None).unwrap();

    let bytes = save_graph(&graph);

    let loaded = load_graph(&bytes, None).unwrap();

    assert_eq!(loaded.num_nodes(), graph.num_nodes());
    assert_eq!(loaded.num_edges(), graph.num_edges());
}

#[test]
fn test_invalid_magic() {
    let mut bytes = vec![0u8; 64];
    bytes[0..4].copy_from_slice(b"BAAD");
    let result = load_graph_from_mmap(&bytes);
    assert!(result.is_err());
    assert!(result.unwrap_err().message().contains("magic"));
}

#[test]
fn mmap_test_excessive_num_nodes() {
    let mut bytes = vec![0u8; 64];
    bytes[0..4].copy_from_slice(&MAGIC.to_le_bytes());
    bytes[4..8].copy_from_slice(&VERSION.to_le_bytes());
    bytes[8..16].copy_from_slice(&u64::MAX.to_le_bytes());
    let result = load_graph_from_mmap(&bytes);
    assert!(result.is_err());
    assert!(result.unwrap_err().message().contains("exceeds maximum"));
}

#[test]
fn test_truncated_header() {
    let bytes = vec![0u8; 16];
    let result = load_graph_from_mmap(&bytes);
    assert!(result.is_err());
}

#[test]
fn test_wrong_version() {
    let mut bytes = vec![0u8; 64];
    bytes[0..4].copy_from_slice(&MAGIC.to_le_bytes());
    bytes[4..8].copy_from_slice(&999u32.to_le_bytes());
    let result = load_graph_from_mmap(&bytes);
    assert!(result.is_err());
    assert!(result.unwrap_err().message().contains("version"));
}

#[test]
fn test_truncated_offsets() {
    let mut bytes = vec![0u8; 64];
    bytes[0..4].copy_from_slice(&MAGIC.to_le_bytes());
    bytes[4..8].copy_from_slice(&VERSION.to_le_bytes());
    bytes[8..16].copy_from_slice(&100u64.to_le_bytes());
    bytes[16..24].copy_from_slice(&50u64.to_le_bytes());
    bytes[24..28].copy_from_slice(&0u32.to_le_bytes());
    let result = load_graph_from_mmap(&bytes);
    assert!(result.is_err());
}

#[test]
fn test_mismatched_edges_count() {
    let edges = vec![(0, 1), (1, 2)];
    let graph = Graph::from_edges(3, &edges, None).unwrap();

    let bytes = save_graph(&graph);

    let mut bytes = bytes;
    bytes[16..24].copy_from_slice(&999u64.to_le_bytes());

    let result = load_graph_from_mmap(&bytes);
    assert!(result.is_err());
}

#[test]
fn test_zero_bytes_file() {
    let bytes: Vec<u8> = vec![];
    let result = load_graph_from_mmap(&bytes);
    assert!(result.is_err());
}

#[test]
fn test_random_garbage() {
    let garbage: Vec<u8> = (0..1000).map(|i| (i * 17 % 256) as u8).collect();
    let result = load_graph_from_mmap(&garbage);
    assert!(result.is_err());
}

#[test]
fn test_overflow_edge_count() {
    let mut bytes = vec![0u8; 64];
    bytes[0..4].copy_from_slice(&MAGIC.to_le_bytes());
    bytes[4..8].copy_from_slice(&VERSION.to_le_bytes());
    bytes[8..16].copy_from_slice(&10u64.to_le_bytes());
    bytes[16..24].copy_from_slice(&(u64::MAX / 2).to_le_bytes());
    let result = load_graph_from_mmap(&bytes);
    assert!(result.is_err());
}

#[test]
fn test_checksum_mismatch_detected_under_full_validation() {
    let edges = vec![(0, 1), (1, 2), (2, 0)];
    let graph = Graph::from_edges(3, &edges, None).unwrap();

    let bytes = save_graph(&graph);

    let mut bytes = bytes;
    let data_start = HEADER_SIZE + (graph.num_nodes() + 1) * 8;
    bytes[data_start] ^= 0xFF;

    let result = load_graph_from_mmap_with_validation(&bytes, GraphValidationMode::Full);
    assert!(result.is_err());
    assert!(
        result
            .unwrap_err()
            .message()
            .contains("checksum mismatch")
    );
}

#[test]
fn test_offsets_only_skips_body_checksum() {
    // OffsetsOnly is the default for large files precisely because it
    // must not fault the whole body in; hashing every byte would do
    // exactly that. A corrupt edge byte therefore goes undetected in
    // this mode (structural offsets checks still run) — that's the
    // documented trade-off, not an accident.
    let edges = vec![(0, 1), (1, 2), (2, 0)];
    let graph = Graph::from_edges(3, &edges, None).unwrap();

    let bytes = save_graph(&graph);

    let mut bytes = bytes;
    let data_start = HEADER_SIZE + (graph.num_nodes() + 1) * 8;
    bytes[data_start] ^= 0x01;

    let result = load_graph_from_mmap_with_validation(&bytes, GraphValidationMode::OffsetsOnly);
    assert!(result.is_ok());
}

#[test]
fn header_round_trips() {
    let header = GraphHeader::new(3, 4, true, Some(0xdead_beef));
    let bytes = header.to_bytes();
    assert_eq!(bytes.len(), HEADER_SIZE);
    assert_eq!(GraphHeader::from_bytes(&bytes), Ok(header));
    assert_eq!(header.checksum32(), Some(0xdead_beef));
    assert_eq!(
        GraphHeader::from_bytes(&bytes[..31]),
        Err(GraphFileError::HeaderTruncated { len: 31 })
    );
}

#[test]
fn file_of_a_small_graph() {
    let graph = Graph::from_edges(2, &[(0, 1)], Some(&bits(&[1.0]))).unwrap();
    let bytes = save_graph(&graph);
    let mut body = Vec::new();
    for offset in [0u64, 1, 1] {
        body.extend_from_slice(&offset.to_le_bytes());
    }
    body.extend_from_slice(&1u32.to_le_bytes());
    let mut expected = Vec::new();
    expected.extend_from_slice(&MAGIC.to_le_bytes());
    expected.extend_from_slice(&VERSION.to_le_bytes());
    expected.extend_from_slice(&2u64.to_le_bytes());
    expected.extend_from_slice(&1u64.to_le_bytes());
    expected.extend_from_slice(&1u32.to_le_bytes());
    expected.extend_from_slice(&crc32fast::hash(&body).to_le_bytes());
    expected.extend_from_slice(&body);
    expected.extend_from_slice(&1.0f32.to_le_bytes());
    assert_eq!(bytes, expected);
    let layout = parse_layout(&bytes).unwrap();
    assert_eq!(layout.offsets_end, 56);
    assert_eq!(layout.edges_end, 60);
    assert!(layout.has_weights);
}

#[test]
fn large_files_are_not_read_whole() {
    assert_eq!(
        default_validation_mode(FULL_VALIDATION_THRESHOLD_BYTES),
        GraphValidationMode::Full
    );
    assert_eq!(
        default_validation_mode(FULL_VALIDATION_THRESHOLD_BYTES + 1),
        GraphValidationMode::OffsetsOnly
    );
}

/// CRC-32 (IEEE), bit by bit.
fn crc32(data: &[u8]) -> u32 {
    let mut c = u32::MAX;
    for &byte in data {
        c ^= byte as u32;
        for _ in 0..8 {
            c = if c & 1 == 1 {
                (c >> 1) ^ 0xedb8_8320
            } else {
                c >> 1
            };
        }
    }
    !c
}

#[test]
fn checksums_are_those_of_the_arrays() {
    assert_eq!(crc32(b"123456789"), 0xcbf4_3926);
    let graph = Graph::from_edges(3, &[(0, 1), (0, 2), (1, 2)], None).unwrap();
    let bytes = save_graph(&graph);
    let header = GraphHeader::from_bytes(&bytes).unwrap();
    assert_eq!(header.integrity_checksum32, 0xac4a_0003);
    for n in 1..40u32 {
        let edges: Vec<(u32, u32)> = (0..n).map(|u| (u, (u * 7 + 3) % n)).collect();
        let bytes = save_graph(&Graph::from_edges(n as usize, &edges, None).unwrap());
        let header = GraphHeader::from_bytes(&bytes).unwrap();
        assert_eq!(header.integrity_checksum32, crc32(&bytes[HEADER_SIZE..]));
    }
}
