//! Reading neighbors out of a graph file.
use aethergraph_core::graph::async_graph::{
    decode_neighbors, place_neighbors, AsyncCsrGraph, AsyncGraphError, AsyncGraphHeader,
};
use aethergraph_core::graph::{Graph, NodeId};
use aethergraph_core::storage::graph_file::save_graph;

fn create_test_graph_file() -> Vec<u8> {
    let edges = vec![
        (0, 1),
        (0, 2),
        (0, 3),
        (1, 2),
        (1, 3),
        (2, 3),
        (2, 4),
        (3, 4),
    ];
    save_graph(&Graph::from_edges(5, &edges, None).unwrap())
}

fn load(file: &[u8]) -> Result<AsyncCsrGraph, AsyncGraphError> {
    let header = AsyncGraphHeader::parse(&file[..file.len().min(32)], file.len() as u64)?;
    AsyncCsrGraph::load(header, &file[32..32 + header.offsets_size])
}

fn bytes_at(file: &[u8], offset: u64, len: u64) -> Vec<u8> {
    file[offset as usize..(offset + len) as usize].to_vec()
}

fn batch(file: &[u8], graph: &AsyncCsrGraph, nodes: &[NodeId]) -> Vec<Vec<NodeId>> {
    let reads = graph.batch_neighbors(nodes);
    let buffers: Vec<Vec<u8>> = reads
        .iter()
        .map(|r| bytes_at(file, r.offset, r.len))
        .collect();
    place_neighbors(nodes.len(), &reads, &buffers)
}

#[test]
fn test_async_neighbors() {
    let file = create_test_graph_file();
    let graph = load(&file).unwrap();

    let read = graph.plan_neighbors(0, 0).unwrap();
    let neighbors = decode_neighbors(&bytes_at(&file, read.offset, read.len));
    assert_eq!(neighbors.len(), 3);
    assert!(neighbors.contains(&1));
    assert!(neighbors.contains(&2));
    assert!(neighbors.contains(&3));
}

#[test]
fn test_batch_neighbors() {
    let file = create_test_graph_file();
    let graph = load(&file).unwrap();

    let batch = batch(&file, &graph, &[0, 1, 2]);

    assert_eq!(batch.len(), 3);
    assert_eq!(batch[0].len(), 3); // node 0 has 3 neighbors
    assert_eq!(batch[1].len(), 2); // node 1 has 2 neighbors
    assert_eq!(batch[2].len(), 2); // node 2 has 2 neighbors
}

#[test]
fn async_graph_test_large_batch() {
    let file = create_test_graph_file();
    let graph = load(&file).unwrap();

    // Simulate GNN sampling: fetch neighbors for 100 nodes
    let nodes: Vec<NodeId> = (0..100).map(|i| i % 5).collect();
    let batch = batch(&file, &graph, &nodes);

    assert_eq!(batch.len(), 100);
    for (i, &n) in nodes.iter().enumerate() {
        assert_eq!(batch[i].len(), graph.degree(n));
    }
}

#[test]
fn nodes_without_neighbors_are_not_read() {
    let file = create_test_graph_file();
    let graph = load(&file).unwrap();
    assert_eq!(graph.num_nodes(), 5);
    assert_eq!(graph.num_edges(), 8);
    assert!(graph.plan_neighbors(4, 0).is_none());
    assert!(graph.plan_neighbors(99, 0).is_none());
    assert_eq!(graph.degree(99), 0);
    assert_eq!(batch(&file, &graph, &[4, 3, 99]), vec![vec![], vec![4], vec![]]);
}

#[test]
fn headers_and_offsets_are_checked() {
    let file = create_test_graph_file();
    let err = |f: &[u8]| load(f).err().unwrap();
    let mut bad = file.clone();
    bad[0] ^= 1;
    assert!(matches!(err(&bad), AsyncGraphError::BadMagic { .. }));
    let mut bad = file.clone();
    bad[4] = 9;
    assert_eq!(err(&bad), AsyncGraphError::BadVersion { version: 9 });
    let mut bad = file.clone();
    bad[8..16].copy_from_slice(&u64::MAX.to_le_bytes());
    assert_eq!(err(&bad), AsyncGraphError::TooManyNodes { nodes: u64::MAX });
    assert!(matches!(
        err(&file[..file.len() - 1]),
        AsyncGraphError::Truncated { .. }
    ));
    let mut bad = file.clone();
    bad[32] = 1;
    assert_eq!(err(&bad), AsyncGraphError::FirstOffset);
    let mut bad = file.clone();
    bad[40] = 200;
    assert!(matches!(
        err(&bad),
        AsyncGraphError::Descending { .. } | AsyncGraphError::BeyondEdges { .. }
    ));
}
