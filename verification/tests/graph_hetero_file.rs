//! Files of graphs with several types.
use aethergraph_core::graph::{Graph, HeteroGraph};
use aethergraph_core::storage::hetero_file::{
    fits_file, load_hetero_graph, save_hetero_graph, HeteroFileError, HeteroFileFault,
};

fn bits(values: &[f32]) -> Vec<u32> {
    values.iter().map(|v| v.to_bits()).collect()
}

#[test]
fn roundtrip_save_load() {
    let mut votes = Vec::new();
    for u in 0u32..10 {
        for p in 0u32..3 {
            votes.push((u, p));
        }
    }
    let votes_csr = Graph::from_edges(20, &votes, None).unwrap();

    let mut belongs = Vec::new();
    for p in 0u32..20 {
        belongs.push((p, p % 5));
    }
    let belongs_csr = Graph::from_edges(20, &belongs, None).unwrap();

    let graph = HeteroGraph::from_parts(
        vec![
            ("user".into(), 10),
            ("post".into(), 20),
            ("subreddit".into(), 5),
        ],
        vec![
            ("user".into(), "votes".into(), "post".into(), votes_csr),
            (
                "post".into(),
                "belongs_to".into(),
                "subreddit".into(),
                belongs_csr,
            ),
        ],
    );

    let bytes = save_hetero_graph(&graph);
    let loaded = load_hetero_graph(&bytes).unwrap();

    assert_eq!(loaded.node_type_count(), 3);
    assert_eq!(loaded.edge_type_count(), 2);
    assert_eq!(
        loaded.num_nodes(loaded.node_type_id("user").unwrap()),
        10
    );
    assert_eq!(
        loaded.num_nodes(loaded.node_type_id("post").unwrap()),
        20
    );
    assert_eq!(
        loaded.num_edges(loaded.edge_type_id("user", "votes", "post").unwrap()),
        30
    );
    assert_eq!(
        loaded.num_edges(
            loaded
                .edge_type_id("post", "belongs_to", "subreddit")
                .unwrap()
        ),
        20
    );
}

#[test]
fn test_save_load_roundtrip() {
    // 2 node types, 2 edge types: verify full roundtrip fidelity.
    let mut author_edges = Vec::new();
    for a in 0u32..5 {
        for p in 0u32..4 {
            author_edges.push((a, p));
        }
    }
    let author_csr = Graph::from_edges(10, &author_edges, None).unwrap();

    let mut cite_edges = Vec::new();
    for p in 0u32..8 {
        cite_edges.push((p, (p + 1) % 15));
    }
    let cite_csr = Graph::from_edges(15, &cite_edges, None).unwrap();

    let graph = HeteroGraph::from_parts(
        vec![("author".into(), 10), ("paper".into(), 15)],
        vec![
            ("author".into(), "writes".into(), "paper".into(), author_csr),
            ("paper".into(), "cites".into(), "paper".into(), cite_csr),
        ],
    );

    let bytes = save_hetero_graph(&graph);
    let loaded = load_hetero_graph(&bytes).unwrap();

    // Structural checks
    assert_eq!(loaded.node_type_count(), 2);
    assert_eq!(loaded.edge_type_count(), 2);
    assert_eq!(loaded.num_nodes(loaded.node_type_id("author").unwrap()), 10);
    assert_eq!(loaded.num_nodes(loaded.node_type_id("paper").unwrap()), 15);

    let writes_id = loaded.edge_type_id("author", "writes", "paper").unwrap();
    let cites_id = loaded.edge_type_id("paper", "cites", "paper").unwrap();
    assert_eq!(loaded.num_edges(writes_id), 20); // 5 authors * 4 papers
    assert_eq!(loaded.num_edges(cites_id), 8);

    // Verify CSR neighbor data survived
    let writes_csr = loaded.csr(writes_id);
    assert_eq!(writes_csr.neighbors(0), &[0u32, 1, 2, 3]);
    assert_eq!(writes_csr.neighbors(4), &[0u32, 1, 2, 3]);
    assert_eq!(writes_csr.degree(5), 0); // author 5 wrote nothing

    let cites_csr = loaded.csr(cites_id);
    assert_eq!(cites_csr.neighbors(0), &[1u32]);
    assert_eq!(cites_csr.neighbors(7), &[8u32]);
}

#[test]
fn test_save_load_single_edge_type() {
    // Minimal: 1 node type, 1 edge type.
    let edges: Vec<(u32, u32)> = vec![(0, 1), (1, 2), (2, 0)];
    let csr = Graph::from_edges(3, &edges, None).unwrap();

    let graph = HeteroGraph::from_parts(
        vec![("node".into(), 3)],
        vec![("node".into(), "link".into(), "node".into(), csr)],
    );

    let bytes = save_hetero_graph(&graph);
    let loaded = load_hetero_graph(&bytes).unwrap();

    assert_eq!(loaded.node_type_count(), 1);
    assert_eq!(loaded.edge_type_count(), 1);
    assert_eq!(loaded.num_nodes(0), 3);

    let et = loaded.edge_type_id("node", "link", "node").unwrap();
    assert_eq!(loaded.num_edges(et), 3);

    let csr = loaded.csr(et);
    assert_eq!(csr.neighbors(0), &[1u32]);
    assert_eq!(csr.neighbors(1), &[2u32]);
    assert_eq!(csr.neighbors(2), &[0u32]);
}

#[test]
fn test_save_load_empty_edge_type() {
    // Edge type with 0 edges: verify structure is preserved.
    let empty_csr = Graph::from_edges(5, &[], None).unwrap();
    let nonempty_csr =
        Graph::from_edges(5, &[(0, 1), (1, 2)], None).unwrap();

    let graph = HeteroGraph::from_parts(
        vec![("a".into(), 5), ("b".into(), 3)],
        vec![
            ("a".into(), "empty_rel".into(), "b".into(), empty_csr),
            ("a".into(), "has_rel".into(), "a".into(), nonempty_csr),
        ],
    );

    let bytes = save_hetero_graph(&graph);
    let loaded = load_hetero_graph(&bytes).unwrap();

    assert_eq!(loaded.node_type_count(), 2);
    assert_eq!(loaded.edge_type_count(), 2);

    let empty_id = loaded.edge_type_id("a", "empty_rel", "b").unwrap();
    let has_id = loaded.edge_type_id("a", "has_rel", "a").unwrap();

    assert_eq!(loaded.num_edges(empty_id), 0);
    assert_eq!(loaded.num_edges(has_id), 2);

    // Empty edge type CSR should have correct num_nodes but no neighbors
    let empty_loaded = loaded.csr(empty_id);
    assert_eq!(empty_loaded.num_nodes(), 5);
    assert_eq!(empty_loaded.num_edges(), 0);
    for n in 0..5u32 {
        assert!(empty_loaded.neighbors(n).is_empty());
    }
}

#[test]
fn test_save_load_with_weights() {
    let edges: Vec<(u32, u32)> = vec![(0, 1), (0, 2), (1, 2)];
    let weights: Vec<u32> = bits(&[0.5, 1.0, 0.25]);
    let csr = Graph::from_edges(3, &edges, Some(&weights)).unwrap();

    assert!(csr.weights().is_some());
    assert_eq!(csr.neighbor_weights(0), Some(&bits(&[0.5f32, 1.0])[..]));

    let graph = HeteroGraph::from_parts(
        vec![("v".into(), 3)],
        vec![("v".into(), "e".into(), "v".into(), csr)],
    );

    let bytes = save_hetero_graph(&graph);
    let loaded = load_hetero_graph(&bytes).unwrap();

    let et = loaded.edge_type_id("v", "e", "v").unwrap();
    assert_eq!(loaded.num_edges(et), 3);

    let loaded_csr = loaded.csr(et);
    assert_eq!(loaded_csr.neighbors(0), &[1u32, 2]);
    assert_eq!(loaded_csr.neighbors(1), &[2u32]);

    // Weights survive roundtrip
    assert!(loaded_csr.weights().is_some());
    assert_eq!(loaded_csr.neighbor_weights(0), Some(&bits(&[0.5f32, 1.0])[..]));
    assert_eq!(loaded_csr.neighbor_weights(1), Some(&bits(&[0.25f32])[..]));
}

#[test]
fn test_mixed_weighted_and_unweighted_edge_types() {
    // Edge type A has weights, edge type B does not.
    // Verify both survive roundtrip with correct data and no cross-contamination.
    let edges_a: Vec<(u32, u32)> = vec![(0, 1), (0, 2), (1, 2), (2, 0)];
    let weights_a: Vec<u32> = bits(&[1.5, 2.5, 3.5, 4.5]);
    let csr_a = Graph::from_edges(3, &edges_a, Some(&weights_a)).unwrap();

    let edges_b: Vec<(u32, u32)> = vec![(0, 1), (1, 0)];
    let csr_b = Graph::from_edges(3, &edges_b, None).unwrap();

    let graph = HeteroGraph::from_parts(
        vec![("x".into(), 3), ("y".into(), 3)],
        vec![
            ("x".into(), "weighted_rel".into(), "y".into(), csr_a),
            ("y".into(), "plain_rel".into(), "x".into(), csr_b),
        ],
    );

    let bytes = save_hetero_graph(&graph);
    let loaded = load_hetero_graph(&bytes).unwrap();

    let w_id = loaded.edge_type_id("x", "weighted_rel", "y").unwrap();
    let p_id = loaded.edge_type_id("y", "plain_rel", "x").unwrap();

    // Weighted edge type: topology + weights preserved
    let w_csr = loaded.csr(w_id);
    assert_eq!(w_csr.num_edges(), 4);
    assert!(w_csr.weights().is_some());
    assert_eq!(w_csr.neighbor_weights(0), Some(&bits(&[1.5f32, 2.5])[..]));
    assert_eq!(w_csr.neighbor_weights(1), Some(&bits(&[3.5f32])[..]));
    assert_eq!(w_csr.neighbor_weights(2), Some(&bits(&[4.5f32])[..]));

    // Unweighted edge type: topology preserved, no weights (no bleed from A)
    let p_csr = loaded.csr(p_id);
    assert_eq!(p_csr.num_edges(), 2);
    assert!(p_csr.weights().is_none());
    assert_eq!(p_csr.neighbors(0), &[1u32]);
    assert_eq!(p_csr.neighbors(1), &[0u32]);
}

#[test]
fn test_weights_roundtrip_large_values() {
    // Adversarial weight values: zero, negative, subnormal, large, NaN, infinity.
    // Verify bit-exact roundtrip via mmap (bytemuck cast, no float math).
    let edges: Vec<(u32, u32)> = (0..6).map(|i| (0, i + 1)).collect();
    let weights: Vec<u32> = bits(&[
        0.0,
        -1.0,
        f32::MIN_POSITIVE, // subnormal boundary
        f32::MAX,
        f32::NAN,
        f32::INFINITY,
    ]);
    let csr = Graph::from_edges(7, &edges, Some(&weights)).unwrap();

    let graph = HeteroGraph::from_parts(
        vec![("n".into(), 7)],
        vec![("n".into(), "e".into(), "n".into(), csr)],
    );

    let bytes = save_hetero_graph(&graph);
    let loaded = load_hetero_graph(&bytes).unwrap();

    let et = loaded.edge_type_id("n", "e", "n").unwrap();
    let stored = loaded.csr(et).neighbor_weights(0).unwrap();
    let loaded_w: Vec<f32> = stored.iter().map(|&b| f32::from_bits(b)).collect();

    assert_eq!(loaded_w[0], 0.0f32);
    assert_eq!(loaded_w[1], -1.0f32);
    assert_eq!(loaded_w[2], f32::MIN_POSITIVE);
    assert_eq!(loaded_w[3], f32::MAX);
    assert!(loaded_w[4].is_nan()); // NaN != NaN, must use is_nan()
    assert_eq!(loaded_w[5], f32::INFINITY);
}

#[test]
fn test_truncated_file_with_weights() {
    // Save a weighted graph, then truncate the file mid-weights section.
    // Load should fail (not silently return garbage).
    let edges: Vec<(u32, u32)> = vec![(0, 1), (0, 2), (1, 2)];
    let weights: Vec<u32> = bits(&[1.0, 2.0, 3.0]);
    let csr = Graph::from_edges(3, &edges, Some(&weights)).unwrap();

    let graph = HeteroGraph::from_parts(
        vec![("n".into(), 3)],
        vec![("n".into(), "e".into(), "n".into(), csr)],
    );

    let bytes = save_hetero_graph(&graph);

    // Truncate: remove last 8 bytes (cuts into weights section)
    let result = load_hetero_graph(&bytes[..bytes.len() - 8]);
    assert!(result.is_err());
}

#[test]
fn test_load_corrupted_magic() {
    // Write garbage that is at least HEADER_SIZE (64) bytes but has wrong magic
    let garbage = vec![0xFFu8; 128];
    let result = load_hetero_graph(&garbage);
    assert!(result.is_err());
    let msg = result.unwrap_err().message();
    assert!(
        msg.contains("invalid magic"),
        "unexpected error message: {msg}"
    );
}

#[test]
fn test_save_load_large_graph() {
    // 3 node types, 4 edge types, >10K edges total.
    //   user(500), item(1000), tag(50)
    //   user->buys->item  : 500 users buy 8 items each  = 4000
    //   user->likes->item : 500 users like 6 items each = 3000
    //   item->tagged->tag : 1000 items each tagged once  = 1000
    //   user->follows->user: 500 users follow 5 each    = 2500
    //   total = 10500

    // CSR num_nodes must cover both source and destination IDs.
    // For cross-type edges, use max(src_count, dst_count).
    let mut buys = Vec::new();
    for u in 0u32..500 {
        for i in 0u32..8 {
            buys.push((u, (u * 3 + i) % 1000));
        }
    }
    let buys_csr = Graph::from_edges(1000, &buys, None).unwrap();

    let mut likes = Vec::new();
    for u in 0u32..500 {
        for i in 0u32..6 {
            likes.push((u, (u * 7 + i) % 1000));
        }
    }
    let likes_csr = Graph::from_edges(1000, &likes, None).unwrap();

    let mut tagged = Vec::new();
    for item in 0u32..1000 {
        tagged.push((item, item % 50));
    }
    let tagged_csr = Graph::from_edges(1000, &tagged, None).unwrap();

    let mut follows = Vec::new();
    for u in 0u32..500 {
        for f in 0u32..5 {
            follows.push((u, (u + f + 1) % 500));
        }
    }
    let follows_csr = Graph::from_edges(500, &follows, None).unwrap();

    let graph = HeteroGraph::from_parts(
        vec![
            ("user".into(), 500),
            ("item".into(), 1000),
            ("tag".into(), 50),
        ],
        vec![
            ("user".into(), "buys".into(), "item".into(), buys_csr),
            ("user".into(), "likes".into(), "item".into(), likes_csr),
            ("item".into(), "tagged".into(), "tag".into(), tagged_csr),
            (
                "user".into(),
                "follows".into(),
                "user".into(),
                follows_csr,
            ),
        ],
    );

    assert_eq!(graph.total_edges(), 10500);

    let bytes = save_hetero_graph(&graph);
    let loaded = load_hetero_graph(&bytes).unwrap();

    // Verify type counts
    assert_eq!(loaded.node_type_count(), 3);
    assert_eq!(loaded.edge_type_count(), 4);

    // Verify node counts
    assert_eq!(loaded.num_nodes(loaded.node_type_id("user").unwrap()), 500);
    assert_eq!(loaded.num_nodes(loaded.node_type_id("item").unwrap()), 1000);
    assert_eq!(loaded.num_nodes(loaded.node_type_id("tag").unwrap()), 50);

    // Verify edge counts
    let buys_id = loaded.edge_type_id("user", "buys", "item").unwrap();
    let likes_id = loaded.edge_type_id("user", "likes", "item").unwrap();
    let tagged_id = loaded.edge_type_id("item", "tagged", "tag").unwrap();
    let follows_id = loaded.edge_type_id("user", "follows", "user").unwrap();

    assert_eq!(loaded.num_edges(buys_id), 4000);
    assert_eq!(loaded.num_edges(likes_id), 3000);
    assert_eq!(loaded.num_edges(tagged_id), 1000);
    assert_eq!(loaded.num_edges(follows_id), 2500);
    assert_eq!(loaded.total_edges(), 10500);

    // Spot-check CSR neighbor data
    let buys_loaded = loaded.csr(buys_id);
    assert_eq!(buys_loaded.degree(0), 8);
    // user 0 buys items: (0*3 + i) % 1000 for i in 0..8 = [0,1,2,3,4,5,6,7]
    assert_eq!(buys_loaded.neighbors(0), &[0u32, 1, 2, 3, 4, 5, 6, 7]);

    let tagged_loaded = loaded.csr(tagged_id);
    assert_eq!(tagged_loaded.degree(0), 1);
    assert_eq!(tagged_loaded.neighbors(0), &[0u32]); // item 0 -> tag 0
    assert_eq!(tagged_loaded.neighbors(49), &[49u32]); // item 49 -> tag 49
    assert_eq!(tagged_loaded.neighbors(50), &[0u32]); // item 50 -> tag 0

    let follows_loaded = loaded.csr(follows_id);
    assert_eq!(follows_loaded.degree(0), 5);
    // user 0 follows: (0+f+1)%500 for f in 0..5 = [1,2,3,4,5]
    assert_eq!(follows_loaded.neighbors(0), &[1u32, 2, 3, 4, 5]);
}

#[test]
fn names_that_do_not_fit_are_found() {
    let named = |name: String| HeteroGraph::from_parts(vec![(name, 1)], vec![]);
    assert!(fits_file(&named("x".repeat(63))));
    assert!(!fits_file(&named("x".repeat(64))));
    let graph = named("n\u{e9}".to_string());
    let loaded = load_hetero_graph(&save_hetero_graph(&graph)).unwrap();
    assert_eq!(loaded.node_type_names(), vec!["n\u{e9}"]);
}

#[test]
fn faults_of_files_are_told_apart() {
    let fault = |bytes: &[u8]| match load_hetero_graph(bytes) {
        Err(HeteroFileError::Fault(f)) => f,
        other => panic!("{:?}", other),
    };
    assert_eq!(fault(&[0; 63]), HeteroFileFault::TooSmall);
    assert_eq!(fault(&[0xff; 64]), HeteroFileFault::BadMagic);
    let csr = Graph::from_edges(1, &[(0, 0)], None).unwrap();
    let graph = HeteroGraph::from_parts(
        vec![("n".into(), 1)],
        vec![("n".into(), "e".into(), "n".into(), csr)],
    );
    let bytes = save_hetero_graph(&graph);
    assert_eq!(fault(&bytes[..bytes.len() - 1]), HeteroFileFault::Truncated);
    let mut bad = bytes.clone();
    bad[64] = 0xff;
    assert_eq!(fault(&bad), HeteroFileFault::BadName);
}
