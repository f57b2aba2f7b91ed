//! Graphs with several node and edge types.
use aethergraph_core::graph::hetero::HeteroBuildError;
use aethergraph_core::graph::{Graph, HeteroGraph};

/// A graph of a forum.
///
/// Node types: user(100), post(200), comment(300), subreddit(20)
/// Edge types:
///   - (user, votes, post): users 0..50 each vote on posts 0..3
///   - (user, writes, comment): users 0..30 each write comments 0..2
///   - (post, belongs_to, subreddit): posts 0..100 each belong to subreddit i%20
fn build_reddit_graph() -> HeteroGraph {
    // user -> votes -> post
    let mut votes_edges = Vec::new();
    for user in 0u32..50 {
        for post in 0u32..4 {
            votes_edges.push((user, post));
        }
    }
    let votes_csr = Graph::from_edges(100, &votes_edges, None).unwrap();

    // user -> writes -> comment
    let mut writes_edges = Vec::new();
    for user in 0u32..30 {
        for comment in 0u32..3 {
            writes_edges.push((user, comment));
        }
    }
    let writes_csr = Graph::from_edges(100, &writes_edges, None).unwrap();

    // post -> belongs_to -> subreddit
    let mut belongs_edges = Vec::new();
    for post in 0u32..100 {
        belongs_edges.push((post, post % 20));
    }
    let belongs_csr = Graph::from_edges(200, &belongs_edges, None).unwrap();

    HeteroGraph::from_parts(
        vec![
            ("user".into(), 100),
            ("post".into(), 200),
            ("comment".into(), 300),
            ("subreddit".into(), 20),
        ],
        vec![
            ("user".into(), "votes".into(), "post".into(), votes_csr),
            ("user".into(), "writes".into(), "comment".into(), writes_csr),
            (
                "post".into(),
                "belongs_to".into(),
                "subreddit".into(),
                belongs_csr,
            ),
        ],
    )
}

#[test]
fn test_node_type_lookups() {
    let g = build_reddit_graph();

    assert_eq!(g.node_type_id("user"), Some(0));
    assert_eq!(g.node_type_id("post"), Some(1));
    assert_eq!(g.node_type_id("comment"), Some(2));
    assert_eq!(g.node_type_id("subreddit"), Some(3));
    assert_eq!(g.node_type_id("nonexistent"), None);
}

#[test]
fn test_edge_type_lookups() {
    let g = build_reddit_graph();

    assert_eq!(g.edge_type_id("user", "votes", "post"), Some(0));
    assert_eq!(g.edge_type_id("user", "writes", "comment"), Some(1));
    assert_eq!(g.edge_type_id("post", "belongs_to", "subreddit"), Some(2));
    assert_eq!(g.edge_type_id("user", "votes", "comment"), None);
}

#[test]
fn test_node_counts() {
    let g = build_reddit_graph();

    assert_eq!(g.num_nodes(0), 100); // user
    assert_eq!(g.num_nodes(1), 200); // post
    assert_eq!(g.num_nodes(2), 300); // comment
    assert_eq!(g.num_nodes(3), 20); // subreddit
    assert_eq!(g.total_nodes(), 620);
}

#[test]
fn test_edge_counts() {
    let g = build_reddit_graph();

    // 50 users * 4 votes each = 200
    assert_eq!(g.num_edges(0), 200);
    // 30 users * 3 writes each = 90
    assert_eq!(g.num_edges(1), 90);
    // 100 posts * 1 belongs_to each = 100
    assert_eq!(g.num_edges(2), 100);
    assert_eq!(g.total_edges(), 390);
}

#[test]
fn test_type_counts() {
    let g = build_reddit_graph();

    assert_eq!(g.node_type_count(), 4);
    assert_eq!(g.edge_type_count(), 3);
}

#[test]
fn test_node_type_names() {
    let g = build_reddit_graph();
    let names = g.node_type_names();
    assert_eq!(names, vec!["user", "post", "comment", "subreddit"]);
}

#[test]
fn test_edge_type_names() {
    let g = build_reddit_graph();
    let names = g.edge_type_names();
    assert_eq!(
        names,
        vec![
            ("user", "votes", "post"),
            ("user", "writes", "comment"),
            ("post", "belongs_to", "subreddit"),
        ]
    );
}

#[test]
fn test_edge_types_for_src() {
    let g = build_reddit_graph();

    // user is src for "votes" (0) and "writes" (1)
    let user_edges = g.edge_types_for_src(0);
    assert_eq!(user_edges, vec![0, 1]);

    // post is src for "belongs_to" (2)
    let post_edges = g.edge_types_for_src(1);
    assert_eq!(post_edges, vec![2]);

    // comment is not a source for any edge type
    let comment_edges = g.edge_types_for_src(2);
    assert!(comment_edges.is_empty());

    // subreddit is not a source for any edge type
    let sub_edges = g.edge_types_for_src(3);
    assert!(sub_edges.is_empty());
}

#[test]
fn test_edge_type_meta() {
    let g = build_reddit_graph();

    let votes_meta = g.edge_type_meta(0);
    assert_eq!(votes_meta.src_type, 0); // user
    assert_eq!(votes_meta.relation, "votes");
    assert_eq!(votes_meta.dst_type, 1); // post

    let writes_meta = g.edge_type_meta(1);
    assert_eq!(writes_meta.src_type, 0); // user
    assert_eq!(writes_meta.relation, "writes");
    assert_eq!(writes_meta.dst_type, 2); // comment
}

#[test]
fn test_csr_access() {
    let g = build_reddit_graph();

    // User 0 votes on posts 0..3
    let votes_csr = g.csr(0);
    let neighbors = votes_csr.neighbors(0);
    assert_eq!(neighbors.len(), 4);
    assert_eq!(neighbors, &[0u32, 1, 2, 3]);

    // User 50 has no votes (only users 0..49 vote)
    assert_eq!(votes_csr.neighbors(50).len(), 0);
}

#[test]
fn building_rejects_unknown_and_repeated_types() {
    let csr = || Graph::from_edges(2, &[(0, 1)], None).unwrap();
    let unknown = HeteroGraph::try_from_parts(
        vec![("a".into(), 2)],
        vec![("a".into(), "r".into(), "b".into(), csr())],
    );
    assert_eq!(
        unknown.unwrap_err(),
        HeteroBuildError::UnknownNodeType("b".into())
    );
    let twice = HeteroGraph::try_from_parts(vec![("a".into(), 2), ("a".into(), 3)], vec![]);
    assert_eq!(
        twice.unwrap_err(),
        HeteroBuildError::DuplicateNodeType("a".into())
    );
    let edge_twice = HeteroGraph::try_from_parts(
        vec![("a".into(), 2)],
        vec![
            ("a".into(), "r".into(), "a".into(), csr()),
            ("a".into(), "r".into(), "a".into(), csr()),
        ],
    );
    assert_eq!(
        edge_twice.unwrap_err(),
        HeteroBuildError::DuplicateEdgeType("a".into(), "r".into(), "a".into())
    );
    let many: Vec<(String, usize)> = (0..256).map(|i| (i.to_string(), 1)).collect();
    assert_eq!(
        HeteroGraph::try_from_parts(many, vec![]).unwrap_err(),
        HeteroBuildError::TooManyNodeTypes(256)
    );
}
