//! Compressed graph files. The sections are words as they are, which is one of
//! the encodings that a caller may choose.
use aethergraph_core::graph::{Graph, GraphValidationMode, NodeId};
use aethergraph_core::storage::compressed_graph::{
    load_graph, load_graph_compressed, load_graph_mmap, load_graph_owned,
    load_graph_with_validation, open_payload, save_graph_compressed, stored_compressed,
    DecodedSections,
};
use aethergraph_core::storage::graph_file::{save_graph, GraphFileError, HEADER_SIZE};

/// A small scale-free-ish graph with sorted neighbor lists.
fn test_graph(weighted: bool) -> Graph {
    let num_nodes = 500usize;
    let mut offsets = vec![0u64];
    let mut edges: Vec<NodeId> = Vec::new();
    for v in 0..num_nodes {
        let degree = 1 + (v * 7) % 23;
        let mut list: Vec<NodeId> = (0..degree)
            .map(|k| ((v * 31 + k * 97) % num_nodes) as NodeId)
            .collect();
        list.sort_unstable();
        list.dedup();
        edges.extend_from_slice(&list);
        offsets.push(edges.len() as u64);
    }
    let weights = if weighted {
        Some(
            (0..edges.len())
                .map(|i| (i as f32 * 0.5).to_bits())
                .collect::<Vec<_>>(),
        )
    } else {
        None
    };
    Graph::from_csr_arrays(num_nodes, offsets, edges, weights)
}

fn assert_same_graph(a: &Graph, b: &Graph) {
    assert_eq!(a.num_nodes(), b.num_nodes());
    assert_eq!(a.num_edges(), b.num_edges());
    assert_eq!(a.offsets(), b.offsets());
    assert_eq!(a.edges(), b.edges());
    assert_eq!(a.weights(), b.weights());
}

fn save(graph: &Graph) -> Vec<u8> {
    let offsets: Vec<u8> = graph.offsets().iter().flat_map(|o| o.to_le_bytes()).collect();
    let edges: Vec<u8> = graph.edges().iter().flat_map(|e| e.to_le_bytes()).collect();
    save_graph_compressed(graph, &offsets, &edges)
}

/// Decodes the sections of a file of `graph`.
fn sections(bytes: &[u8], graph: &Graph) -> DecodedSections {
    let payload = open_payload(bytes).unwrap();
    let offsets_len = graph.offsets().len() * 8;
    let edges_len = graph.num_edges() * 4;
    DecodedSections {
        offsets: payload[..offsets_len]
            .chunks_exact(8)
            .map(|c| u64::from_le_bytes(c.try_into().unwrap()))
            .collect(),
        offsets_len,
        edges: payload[offsets_len..offsets_len + edges_len]
            .chunks_exact(4)
            .map(|c| u32::from_le_bytes(c.try_into().unwrap()))
            .collect(),
        edges_len,
    }
}

#[test]
fn round_trips_unweighted() {
    let graph = test_graph(false);
    let bytes = save(&graph);
    let back =
        load_graph_compressed(&bytes, sections(&bytes, &graph), GraphValidationMode::Full).unwrap();
    assert_same_graph(&graph, &back);
}

#[test]
fn round_trips_weighted() {
    let graph = test_graph(true);
    let bytes = save(&graph);
    let back =
        load_graph_compressed(&bytes, sections(&bytes, &graph), GraphValidationMode::Full).unwrap();
    assert_same_graph(&graph, &back);
}

#[test]
fn detects_payload_corruption() {
    let graph = test_graph(false);
    let mut bytes = save(&graph);
    let decoded = sections(&bytes, &graph);
    let mid = HEADER_SIZE + (bytes.len() - HEADER_SIZE) / 2;
    bytes[mid] ^= 0xFF;
    let err = load_graph_compressed(&bytes, decoded, GraphValidationMode::Full)
        .unwrap_err()
        .message();
    assert!(err.contains("checksum"), "unexpected error: {}", err);
}

#[test]
fn dispatches_through_load_graph() {
    // The auto loader must route on the version field.
    let graph = test_graph(true);
    let bytes = save(&graph);
    assert!(stored_compressed(&bytes));
    let back = load_graph(&bytes, Some(sections(&bytes, &graph))).unwrap();
    assert_same_graph(&graph, &back);
    let flat = save_graph(&graph);
    assert!(!stored_compressed(&flat));
    assert_same_graph(&graph, &load_graph(&flat, None).unwrap());
}

#[test]
fn explicit_mmap_load_refuses_compressed() {
    let graph = test_graph(false);
    let bytes = save(&graph);
    let err = load_graph_mmap(&bytes, GraphValidationMode::Full)
        .unwrap_err()
        .message();
    assert!(err.contains("compressed"), "unexpected error: {}", err);
    let flat = save_graph(&graph);
    assert_same_graph(
        &graph,
        &load_graph_with_validation(&flat, GraphValidationMode::OffsetsOnly).unwrap(),
    );
}

#[test]
fn owned_load_accepts_compressed() {
    let graph = test_graph(false);
    let bytes = save(&graph);
    let back = load_graph_owned(
        &bytes,
        Some(sections(&bytes, &graph)),
        GraphValidationMode::Full,
    )
    .unwrap();
    assert_same_graph(&graph, &back);
}

#[test]
fn sections_must_match_the_header() {
    let graph = test_graph(true);
    let bytes = save(&graph);
    let load = |s: DecodedSections| {
        load_graph_compressed(&bytes, s, GraphValidationMode::Full).unwrap_err()
    };
    let mut few = sections(&bytes, &graph);
    few.offsets.pop();
    assert_eq!(
        load(few),
        GraphFileError::OffsetsSection {
            entries: 500,
            nodes: 500
        }
    );
    let mut few = sections(&bytes, &graph);
    few.edges.pop();
    assert_eq!(
        load(few),
        GraphFileError::EdgesSection {
            entries: graph.num_edges() - 1,
            edges: graph.num_edges() as u64
        }
    );
    let flat = test_graph(false);
    let mut long = save(&flat);
    // A checksum of zero is none, so the bytes behind the sections are seen.
    long[28..32].copy_from_slice(&[0; 4]);
    let decoded = sections(&long, &flat);
    long.push(0);
    assert_eq!(
        load_graph_compressed(&long, decoded, GraphValidationMode::Full).unwrap_err(),
        GraphFileError::TrailingBytes
    );
}
