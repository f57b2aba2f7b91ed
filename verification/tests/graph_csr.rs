//! CSR graphs: building, reading and validating.
use aethergraph_core::graph::error::GraphError;
use aethergraph_core::graph::{Graph, GraphValidationMode, NodeId};

fn bits(values: &[f32]) -> Vec<u32> {
    values.iter().map(|v| v.to_bits()).collect()
}

fn time_bits(values: &[f64]) -> Vec<u64> {
    values.iter().map(|v| v.to_bits()).collect()
}

#[test]
fn test_simple_graph() {
    // Graph: 0 -> 1, 2
    //        1 -> 2
    //        2 -> (no outgoing edges)
    let edges = vec![(0, 1), (0, 2), (1, 2)];
    let graph = Graph::from_edges(3, &edges, None).unwrap();

    assert_eq!(graph.num_nodes(), 3);
    assert_eq!(graph.num_edges(), 3);

    assert_eq!(graph.degree(0), 2);
    assert_eq!(graph.degree(1), 1);
    assert_eq!(graph.degree(2), 0);

    let empty: &[NodeId] = &[];
    assert_eq!(graph.neighbors(0), &[1u32, 2u32][..]);
    assert_eq!(graph.neighbors(1), &[2u32][..]);
    assert_eq!(graph.neighbors(2), empty);

    graph.validate().unwrap();
}

#[test]
fn test_degrees_bulk() {
    let edges = vec![(0, 1), (0, 2), (1, 2), (3, 0)];
    let graph = Graph::from_edges(4, &edges, None).unwrap();

    assert_eq!(graph.degrees(), vec![2, 1, 0, 1]);
    let per_node: Vec<u32> = (0..graph.num_nodes() as NodeId)
        .map(|n| graph.degree(n) as u32)
        .collect();
    assert_eq!(graph.degrees(), per_node);

    let empty = Graph::from_edges(0, &[], None).unwrap();
    assert!(empty.degrees().is_empty());
}

#[test]
fn test_weighted_graph() {
    let edges = vec![(0, 1), (0, 2), (1, 2)];
    let weights = bits(&[0.5, 1.0, 0.3]);
    let graph = Graph::from_edges(3, &edges, Some(&weights)).unwrap();

    assert_eq!(graph.neighbor_weights(0), Some(&bits(&[0.5, 1.0])[..]));
    assert_eq!(graph.neighbor_weights(1), Some(&bits(&[0.3])[..]));

    graph.validate().unwrap();
}

#[test]
fn csr_test_empty_graph() {
    let graph = Graph::from_edges(0, &[], None).unwrap();
    assert_eq!(graph.num_nodes(), 0);
    assert_eq!(graph.num_edges(), 0);
    graph.validate().unwrap();
}

#[test]
fn test_disconnected_nodes() {
    // Nodes 0 and 2 have no edges
    let edges = vec![(1, 3), (3, 1)];
    let graph = Graph::from_edges(4, &edges, None).unwrap();

    assert_eq!(graph.degree(0), 0);
    assert_eq!(graph.degree(1), 1);
    assert_eq!(graph.degree(2), 0);
    assert_eq!(graph.degree(3), 1);

    graph.validate().unwrap();
}

#[test]
fn test_single_node_graph() {
    let graph = Graph::from_edges(1, &[], None).unwrap();
    assert_eq!(graph.num_nodes(), 1);
    assert_eq!(graph.num_edges(), 0);
    assert_eq!(graph.degree(0), 0);
    assert!(graph.neighbors(0).is_empty());
    graph.validate().unwrap();
}

#[test]
fn test_single_node_self_loop() {
    let edges = vec![(0, 0)];
    let graph = Graph::from_edges(1, &edges, None).unwrap();
    assert_eq!(graph.num_nodes(), 1);
    assert_eq!(graph.num_edges(), 1);
    assert_eq!(graph.degree(0), 1);
    assert_eq!(graph.neighbors(0), &[0u32][..]);
    graph.validate().unwrap();
}

#[test]
fn test_hub_node() {
    // Node 0 is a hub with many outgoing edges
    let num_targets = 1000;
    let edges: Vec<(u32, u32)> = (1..=num_targets).map(|i| (0, i)).collect();
    let graph = Graph::from_edges(num_targets as usize + 1, &edges, None).unwrap();

    assert_eq!(graph.degree(0), num_targets as usize);
    assert_eq!(graph.neighbors(0).len(), num_targets as usize);

    // Other nodes have no outgoing edges
    for i in 1..=num_targets {
        assert_eq!(graph.degree(i), 0);
    }

    graph.validate().unwrap();
}

#[test]
fn test_out_of_bounds_access() {
    let edges = vec![(0, 1), (1, 0)];
    let graph = Graph::from_edges(2, &edges, None).unwrap();

    // Access node >= num_nodes should return 0/empty, not panic
    assert_eq!(graph.degree(2), 0);
    assert_eq!(graph.degree(100), 0);
    assert_eq!(graph.degree(u32::MAX), 0);
    assert!(graph.neighbors(2).is_empty());
    assert!(graph.neighbors(100).is_empty());
    assert!(graph.neighbors(u32::MAX).is_empty());
    assert_eq!(graph.edge_offset(100), 0);
    assert!(graph.neighbor_weights(100).is_none());
}

#[test]
fn test_invalid_source_returns_error() {
    let edges = vec![(5, 0)];
    let result = Graph::from_edges(3, &edges, None);
    assert!(result.is_err());
    assert!(result
        .err()
        .unwrap()
        .message()
        .contains("source node 5 exceeds num_nodes 3"));
}

#[test]
fn test_out_of_bounds_with_weights() {
    let edges = vec![(0, 1)];
    let weights = bits(&[1.0]);
    let graph = Graph::from_edges(2, &edges, Some(&weights)).unwrap();

    // Out of bounds with weights should return empty slice
    assert!(graph.neighbor_weights(100).unwrap().is_empty());
}

#[test]
fn test_set_timestamps_basic() {
    // Graph: 0 -> 1, 2; 1 -> 2; 2 -> (none)
    let edges = vec![(0, 1), (0, 2), (1, 2)];
    let mut graph = Graph::from_edges(3, &edges, None).unwrap();

    let timestamps = time_bits(&[100.0, 200.0, 300.0]);
    graph.set_timestamps(timestamps).unwrap();

    assert!(graph.has_timestamps());
    assert_eq!(
        graph.neighbor_timestamps(0),
        Some(&time_bits(&[100.0, 200.0])[..])
    );
    assert_eq!(graph.neighbor_timestamps(1), Some(&time_bits(&[300.0])[..]));
    assert_eq!(graph.neighbor_timestamps(2), Some(&[][..]));
}

#[test]
fn test_timestamps_parallel_to_edges() {
    // Node 0: edges to 1, 2 (offsets 0..2)
    // Node 1: edge to 0 (offset 2..3)
    // Node 2: edges to 0, 1 (offsets 3..5)
    let edges = vec![(0, 1), (0, 2), (1, 0), (2, 0), (2, 1)];
    let mut graph = Graph::from_edges(3, &edges, None).unwrap();

    let timestamps = time_bits(&[1.0, 2.0, 3.0, 4.0, 5.0]);
    graph.set_timestamps(timestamps).unwrap();

    let ts0 = graph.neighbor_timestamps(0).unwrap();
    assert_eq!(ts0.len(), graph.degree(0));
    assert_eq!(ts0, &time_bits(&[1.0, 2.0])[..]);

    let ts1 = graph.neighbor_timestamps(1).unwrap();
    assert_eq!(ts1.len(), graph.degree(1));
    assert_eq!(ts1, &time_bits(&[3.0])[..]);

    let ts2 = graph.neighbor_timestamps(2).unwrap();
    assert_eq!(ts2.len(), graph.degree(2));
    assert_eq!(ts2, &time_bits(&[4.0, 5.0])[..]);
}

#[test]
fn test_set_timestamps_returns_error_on_mismatch() {
    let edges = vec![(0, 1), (0, 2), (1, 2)];
    let mut graph = Graph::from_edges(3, &edges, None).unwrap();
    let err = graph.set_timestamps(time_bits(&[1.0, 2.0])).unwrap_err();
    assert_eq!(err.got, 2);
    assert_eq!(err.expected, 3);
}

#[test]
fn test_timestamps_none_by_default() {
    let edges = vec![(0, 1), (1, 0)];
    let graph = Graph::from_edges(2, &edges, None).unwrap();

    assert!(!graph.has_timestamps());
    assert!(graph.neighbor_timestamps(0).is_none());
    assert!(graph.neighbor_timestamps(1).is_none());
}

#[test]
fn neighbors_keep_the_order_in_which_edges_came() {
    let edges = vec![(1, 3), (0, 2), (1, 0), (0, 1), (1, 2)];
    let weights: Vec<u32> = vec![10, 20, 30, 40, 50];
    let graph = Graph::from_edges(4, &edges, Some(&weights)).unwrap();
    assert_eq!(graph.neighbors(1), &[3, 0, 2]);
    assert_eq!(graph.neighbor_weights(1), Some(&[10, 30, 50][..]));
    assert_eq!(
        graph.neighbors_with_weights(0),
        vec![(2, Some(20)), (1, Some(40))]
    );
    assert_eq!(graph.edge_offset(1), 2);
    let columns = Graph::from_src_dst(4, &[1, 0, 1, 0, 1], &[3, 2, 0, 1, 2], Some(&weights));
    let columns = columns.unwrap();
    assert_eq!(columns.offsets(), graph.offsets());
    assert_eq!(columns.edges(), graph.edges());
    assert_eq!(columns.weights(), graph.weights());
    assert_eq!(
        graph.degrees().iter().map(|&d| d as usize).sum::<usize>(),
        graph.num_edges()
    );
}

#[test]
fn building_names_what_is_wrong() {
    assert_eq!(
        Graph::from_edges(2, &[(0, 1)], Some(&[])).unwrap_err(),
        GraphError::WeightsPerEdge {
            got: 0,
            expected: 1
        }
    );
    assert_eq!(
        Graph::from_src_dst(2, &[0], &[], None).unwrap_err(),
        GraphError::ColumnLength { src: 1, dst: 0 }
    );
    assert_eq!(
        Graph::from_edges(2, &[(0, 2)], None).unwrap_err(),
        GraphError::DestinationOutOfRange {
            node: 2,
            num_nodes: 2
        }
    );
}

#[test]
fn validation_names_what_is_wrong() {
    let full = |g: &Graph| g.validate_with_mode(GraphValidationMode::Full);
    let offsets = |g: &Graph| g.validate_with_mode(GraphValidationMode::OffsetsOnly);
    let header = |g: &Graph| g.validate_with_mode(GraphValidationMode::HeaderOnly);

    let first = Graph::from_csr_arrays(1, vec![1, 1], vec![0], None);
    assert!(full(&first).is_err());
    let last = Graph::from_csr_arrays(1, vec![0, 2], vec![0], None);
    assert!(full(&last).is_err());
    let down = Graph::from_csr_arrays(2, vec![0, 2, 1], vec![0], None);
    assert!(full(&down).is_err());
    let out = Graph::from_csr_arrays(1, vec![0, 1], vec![7], None);
    assert_eq!(
        full(&out),
        Err(GraphError::EdgeOutOfRange {
            node: 7,
            num_nodes: 1
        })
    );
    assert_eq!(offsets(&out), Ok(()));
    assert_eq!(header(&out), Ok(()));
    let short = Graph::from_csr_arrays(3, vec![0, 1], vec![0], None);
    assert!(full(&short).is_err());
}

#[test]
fn stats_count_degrees() {
    let graph = Graph::from_edges(4, &[(0, 1), (0, 2), (1, 2)], None).unwrap();
    let stats = graph.stats();
    assert_eq!(stats.num_nodes, 4);
    assert_eq!(stats.num_edges, 3);
    assert_eq!(stats.max_degree, 2);
    assert_eq!(stats.degree_sum, 3);
    assert!(!stats.has_weights);
    assert_eq!(Graph::empty().stats().max_degree, 0);
}
