//! Compressed sparse row (CSR) graph.
//!
//! A graph is two arrays. `offsets[i]` is where the neighbours of node `i`
//! start in `edges`, and `edges` holds every destination, grouped by source.
use vstd::prelude::*;
use vstd::slice::slice_subrange;
use super::error::{GraphError, TimestampLengthMismatch};

verus! {

/// Node ID type. `u32` supports graphs of up to four billion nodes.
pub type NodeId = u32;

/// Edge offset type.
pub type EdgeOffset = u64;

/// From this many nodes on, an offsets array that descends is reported as a
/// whole and not by index.
pub const MANY_NODES: usize = 10_000;

/// From this many edges on, bad destinations are reported as a whole and not
/// one by one.
pub const MANY_EDGES: usize = 100_000;

/// How much of a graph is checked when it is loaded.
#[derive(Debug, Clone, Copy, PartialEq, Eq, Structural)]
pub enum GraphValidationMode {
    /// Validate only metadata and lengths.
    HeaderOnly,
    /// Validate metadata and that the offsets ascend.
    OffsetsOnly,
    /// Full validation, including that every destination is a node.
    Full,
}

/// What a graph holds.
#[verifier::ext_equal]
pub struct GraphView {
    pub num_nodes: nat,
    pub num_edges: nat,
    pub offsets: Seq<u64>,
    pub edges: Seq<u32>,
    /// Bit patterns of the edge weights.
    pub weights: Option<Seq<u32>>,
    /// Bit patterns of the edge timestamps.
    pub timestamps: Option<Seq<u64>>,
}

/// Whether a sequence never descends.
pub open spec fn ascending(s: Seq<u64>) -> bool {
    forall|i: int, j: int| 0 <= i <= j < s.len() ==> s[i] <= s[j]
}

/// `a - b`, or zero where that is negative.
pub open spec fn minus(a: u64, b: u64) -> int {
    if a >= b {
        a - b
    } else {
        0
    }
}

impl GraphView {
    /// The offsets array has one entry more than there are nodes and the edges
    /// array one entry per edge.
    pub open spec fn shaped(self) -> bool {
        &&& self.offsets.len() == self.num_nodes + 1
        &&& self.edges.len() == self.num_edges
    }

    /// The per-edge arrays have one entry per edge.
    pub open spec fn edge_data_fits(self) -> bool {
        &&& self.weights matches Some(w) ==> w.len() == self.num_edges
        &&& self.timestamps matches Some(t) ==> t.len() == self.num_edges
    }

    /// The offsets array cuts the edges array into one run per node.
    pub open spec fn csr(self) -> bool {
        &&& self.shaped()
        &&& self.offsets[0] == 0
        &&& self.offsets[self.num_nodes as int] == self.num_edges
        &&& ascending(self.offsets)
    }

    /// Every destination is a node.
    pub open spec fn closed_under_edges(self) -> bool {
        forall|i: int| 0 <= i < self.edges.len() ==> (#[trigger] self.edges[i]) < self.num_nodes
    }

    /// A graph that every function here accepts.
    pub open spec fn valid(self) -> bool {
        &&& self.csr()
        &&& self.edge_data_fits()
        &&& self.closed_under_edges()
    }

    /// Number of outgoing edges that the offsets array gives to `node`.
    pub open spec fn degree(self, node: int) -> int {
        if 0 <= node < self.num_nodes {
            minus(self.offsets[node + 1], self.offsets[node])
        } else {
            0
        }
    }

    /// Whether the offsets give `node` a run inside the edges array.
    pub open spec fn has_run(self, node: int) -> bool {
        0 <= node < self.num_nodes && self.offsets[node] <= self.offsets[node + 1]
            <= self.num_edges
    }

    /// Where the run of `node` starts in the edges array.
    pub open spec fn run_start(self, node: int) -> int {
        if self.has_run(node) {
            self.offsets[node] as int
        } else {
            0
        }
    }

    /// Where the run of `node` ends in the edges array.
    pub open spec fn run_end(self, node: int) -> int {
        if self.has_run(node) {
            self.offsets[node + 1] as int
        } else {
            0
        }
    }

    /// The destinations of the edges that leave `node`.
    pub open spec fn neighbors(self, node: int) -> Seq<u32> {
        self.edges.subrange(self.run_start(node), self.run_end(node))
    }

    /// The weights of the edges that leave `node`.
    pub open spec fn neighbor_weights(self, node: int) -> Option<Seq<u32>> {
        match self.weights {
            Some(w) => Some(w.subrange(self.run_start(node), self.run_end(node))),
            None => None,
        }
    }

    /// The timestamps of the edges that leave `node`.
    pub open spec fn neighbor_timestamps(self, node: int) -> Option<Seq<u64>> {
        match self.timestamps {
            Some(t) => Some(t.subrange(self.run_start(node), self.run_end(node))),
            None => None,
        }
    }

    /// Sum of the degrees of the first `n` nodes.
    pub open spec fn degree_sum(self, n: nat) -> int
        decreases n,
    {
        if n == 0 {
            0
        } else {
            self.degree_sum((n - 1) as nat) + self.degree(n - 1)
        }
    }

    /// Largest degree among the first `n` nodes.
    pub open spec fn max_degree(self, n: nat) -> int
        decreases n,
    {
        if n == 0 {
            0
        } else {
            let below = self.max_degree((n - 1) as nat);
            if self.degree(n - 1) > below {
                self.degree(n - 1)
            } else {
                below
            }
        }
    }

    /// The first index at which the offsets array descends.
    pub open spec fn descends_first_at(self, i: int) -> bool {
        &&& 0 < i < self.offsets.len()
        &&& self.offsets[i] < self.offsets[i - 1]
        &&& forall|k: int|
            #![trigger self.offsets[k]]
            0 < k < i ==> self.offsets[k - 1] <= self.offsets[k]
    }

    /// The first entry of the edges array that is no node.
    pub open spec fn strays_first_at(self, i: int) -> bool {
        &&& 0 <= i < self.edges.len()
        &&& self.edges[i] >= self.num_nodes
        &&& forall|k: int| 0 <= k < i ==> (#[trigger] self.edges[k]) < self.num_nodes
    }

    /// What validation in `mode` says of the graph.
    pub open spec fn validation(self, mode: GraphValidationMode, result: Result<(), GraphError>) -> bool {
        if self.offsets.len() != self.num_nodes + 1 {
            result == Err::<(), GraphError>(
                GraphError::OffsetsLength {
                    got: self.offsets.len() as usize,
                    expected: (self.num_nodes + 1) as usize,
                },
            )
        } else if self.offsets[0] != 0 {
            result == Err::<(), GraphError>(GraphError::FirstOffset { offset: self.offsets[0] })
        } else if self.offsets[self.num_nodes as int] != self.num_edges {
            result == Err::<(), GraphError>(GraphError::LastOffset)
        } else if mode != GraphValidationMode::HeaderOnly && !ascending(self.offsets) {
            if self.num_nodes > MANY_NODES {
                result == Err::<(), GraphError>(GraphError::OffsetsDescend)
            } else {
                exists|i: int| #[trigger]
                    self.descends_first_at(i) && result == Err::<(), GraphError>(
                        GraphError::OffsetDescends {
                            index: i as usize,
                            offset: self.offsets[i],
                            previous: self.offsets[i - 1],
                        },
                    )
            }
        } else if self.edges.len() != self.num_edges {
            result == Err::<(), GraphError>(
                GraphError::EdgesLength {
                    got: self.edges.len() as usize,
                    expected: self.num_edges as usize,
                },
            )
        } else if self.weights is Some && self.weights->0.len() != self.num_edges {
            result == Err::<(), GraphError>(
                GraphError::WeightsLength {
                    got: self.weights->0.len() as usize,
                    expected: self.num_edges as usize,
                },
            )
        } else if mode == GraphValidationMode::Full && !self.closed_under_edges() {
            if self.num_edges > MANY_EDGES {
                result == Err::<(), GraphError>(
                    GraphError::EdgesOutOfRange { num_nodes: self.num_nodes as usize },
                )
            } else {
                exists|i: int| #[trigger]
                    self.strays_first_at(i) && result == Err::<(), GraphError>(
                        GraphError::EdgeOutOfRange {
                            node: self.edges[i],
                            num_nodes: self.num_nodes as usize,
                        },
                    )
            }
        } else {
            result == Ok::<(), GraphError>(())
        }
    }
}

/// Full validation succeeds on exactly the valid graphs (whatever the
/// timestamps, which validation does not read).
pub proof fn law_full_validation_means_valid(g: GraphView, result: Result<(), GraphError>)
    requires
        g.validation(GraphValidationMode::Full, result),
        g.timestamps matches Some(t) ==> t.len() == g.num_edges,
    ensures
        result is Ok <==> g.valid(),
{
}

/// Validation in `OffsetsOnly` mode succeeds on exactly the graphs whose
/// offsets cut the edges array into one run per node and whose weights fit.
pub proof fn law_offsets_validation_means_csr(g: GraphView, result: Result<(), GraphError>)
    requires
        g.validation(GraphValidationMode::OffsetsOnly, result),
    ensures
        result is Ok <==> (g.csr() && (g.weights matches Some(w) ==> w.len() == g.num_edges)),
{
}

/// In a CSR graph the degrees add up to the number of edges.
pub proof fn law_degrees_sum_to_num_edges(g: GraphView)
    requires
        g.csr(),
    ensures
        g.degree_sum(g.num_nodes) == g.num_edges,
{
    lemma_degree_prefix(g, g.num_nodes);
}

/// In a CSR graph the degrees of the first `n` nodes add up to offset `n`.
pub proof fn lemma_degree_prefix(g: GraphView, n: nat)
    requires
        g.csr(),
        n <= g.num_nodes,
    ensures
        g.degree_sum(n) == g.offsets[n as int],
    decreases n,
{
    if n > 0 {
        lemma_degree_prefix(g, (n - 1) as nat);
        assert(g.offsets[n - 1] <= g.offsets[n as int]);
    }
}

/// The neighbours of a node, their weights and their timestamps are the stretch of
/// the edge arrays between the node's offset and the next one; a node beyond the
/// graph, or one whose offsets give no such stretch, has none. The degree is the
/// distance of the two offsets, and zero where the second is the smaller.
pub proof fn law_neighbors_are_the_stretch_between_offsets(g: GraphView, node: int)
    ensures
        ({
            let exists_run = 0 <= node < g.num_nodes && g.offsets[node] <= g.offsets[node + 1]
                <= g.num_edges;
            let from = g.offsets[node] as int;
            let to = g.offsets[node + 1] as int;
            &&& exists_run ==> g.neighbors(node) == g.edges.subrange(from, to)
            &&& exists_run && g.weights is Some ==> g.neighbor_weights(node) == Some(
                g.weights->0.subrange(from, to),
            )
            &&& exists_run && g.timestamps is Some ==> g.neighbor_timestamps(node) == Some(
                g.timestamps->0.subrange(from, to),
            )
            &&& !exists_run ==> g.neighbors(node) == Seq::<u32>::empty()
            &&& !exists_run && g.weights is Some ==> g.neighbor_weights(node) == Some(
                Seq::<u32>::empty(),
            )
            &&& !exists_run && g.timestamps is Some ==> g.neighbor_timestamps(node) == Some(
                Seq::<u64>::empty(),
            )
            &&& g.weights is None ==> g.neighbor_weights(node) is None
            &&& g.timestamps is None ==> g.neighbor_timestamps(node) is None
            &&& 0 <= node < g.num_nodes && from <= to ==> g.degree(node) == to - from
            &&& 0 <= node < g.num_nodes && from > to ==> g.degree(node) == 0
            &&& !(0 <= node < g.num_nodes) ==> g.degree(node) == 0
        }),
{
    assert(g.edges.subrange(0, 0) =~= Seq::<u32>::empty());
    if let Some(w) = g.weights {
        assert(w.subrange(0, 0) =~= Seq::<u32>::empty());
    }
    if let Some(t) = g.timestamps {
        assert(t.subrange(0, 0) =~= Seq::<u64>::empty());
    }
}

/// Validation of the header alone reads the array lengths and the first and the
/// last offset, and nothing between.
pub proof fn law_header_validation_reads_the_ends(g: GraphView, result: Result<(), GraphError>)
    requires
        g.validation(GraphValidationMode::HeaderOnly, result),
    ensures
        result is Ok <==> {
            &&& g.offsets.len() == g.num_nodes + 1
            &&& g.offsets[0] == 0
            &&& g.offsets[g.num_nodes as int] == g.num_edges
            &&& g.edges.len() == g.num_edges
            &&& g.weights matches Some(w) ==> w.len() == g.num_edges
        },
{
}

/// What validation objects to: the number of offsets, then the first offset, then
/// the last, then (unless only the header is read) the first descent of the
/// offsets, then the number of edges, then the number of weights, then (in full)
/// the first edge to no node. Graphs of more than 10,000 nodes are not searched for
/// the place of a descent, nor those of more than 100,000 edges for the edge.
pub proof fn law_validation_names_the_first_fault(
    g: GraphView,
    mode: GraphValidationMode,
    result: Result<(), GraphError>,
)
    requires
        g.validation(mode, result),
        g.num_nodes < usize::MAX,
        g.offsets.len() <= usize::MAX,
        g.edges.len() <= usize::MAX,
        g.num_edges <= usize::MAX,
        g.weights matches Some(w) ==> w.len() <= usize::MAX,
    ensures
        ({
            let counted = g.offsets.len() == g.num_nodes + 1;
            let ends = counted && g.offsets[0] == 0 && g.offsets[g.num_nodes as int]
                == g.num_edges;
            let sorted = forall|i: int, j: int|
                0 <= i <= j < g.offsets.len() ==> g.offsets[i] <= g.offsets[j];
            let offsets_fit = ends && (mode != GraphValidationMode::HeaderOnly ==> sorted);
            let weights_fit = g.weights matches Some(w) ==> w.len() == g.num_edges;
            let arrays_fit = offsets_fit && g.edges.len() == g.num_edges && weights_fit;
            &&& !counted <==> (result matches Err(GraphError::OffsetsLength { got, expected }) && got
                == g.offsets.len() && expected == g.num_nodes + 1)
            &&& counted && g.offsets[0] != 0 <==> (result matches Err(
                GraphError::FirstOffset { offset },
            ) && offset == g.offsets[0])
            &&& counted && g.offsets[0] == 0 && !ends <==> result == Err::<(), GraphError>(
                GraphError::LastOffset,
            )
            &&& ends && !offsets_fit && g.num_nodes > 10_000 <==> result == Err::<(), GraphError>(
                GraphError::OffsetsDescend,
            )
            &&& ends && !offsets_fit && g.num_nodes <= 10_000 <==> (result is Err
                && result->Err_0 is OffsetDescends)
            &&& result matches Err(GraphError::OffsetDescends { index, offset, previous }) ==> {
                &&& 0 < index < g.offsets.len()
                &&& offset == g.offsets[index as int]
                &&& previous == g.offsets[index - 1]
                &&& offset < previous
                &&& forall|k: int|
                    #![trigger g.offsets[k]]
                    0 < k < index ==> g.offsets[k - 1] <= g.offsets[k]
            }
            &&& offsets_fit && g.edges.len() != g.num_edges <==> (result matches Err(
                GraphError::EdgesLength { got, expected },
            ) && got == g.edges.len() && expected == g.num_edges)
            &&& offsets_fit && g.edges.len() == g.num_edges && !weights_fit <==> (result matches Err(
                GraphError::WeightsLength { got, expected },
            ) && got == g.weights->0.len() && expected == g.num_edges)
            &&& arrays_fit && mode == GraphValidationMode::Full && (exists|i: int|
                0 <= i < g.edges.len() && (#[trigger] g.edges[i]) >= g.num_nodes) <==> (result is Err
                && (result->Err_0 is EdgesOutOfRange || result->Err_0 is EdgeOutOfRange))
            &&& result matches Err(GraphError::EdgesOutOfRange { num_nodes }) ==> arrays_fit && mode
                == GraphValidationMode::Full && num_nodes == g.num_nodes && g.num_edges
                > 100_000
            &&& result matches Err(GraphError::EdgeOutOfRange { node, num_nodes }) ==> {
                &&& arrays_fit
                &&& mode == GraphValidationMode::Full
                &&& num_nodes == g.num_nodes
                &&& g.num_edges <= 100_000
                &&& exists|i: int|
                    0 <= i < g.edges.len() && #[trigger] g.edges[i] == node && node >= g.num_nodes
                        && forall|k: int|
                        0 <= k < i ==> (#[trigger] g.edges[k]) < g.num_nodes
            }
        }),
{
}

/// The largest degree is at least the degree of every node, and where there are
/// nodes it is the degree of one of them.
pub proof fn law_max_degree_is_attained(g: GraphView)
    ensures
        forall|i: int|
            0 <= i < g.num_nodes ==> minus(g.offsets[i + 1], #[trigger] g.offsets[i])
                <= g.max_degree(g.num_nodes),
        g.num_nodes > 0 ==> exists|i: int|
            0 <= i < g.num_nodes && minus(g.offsets[i + 1], #[trigger] g.offsets[i])
                == g.max_degree(g.num_nodes),
        g.num_nodes == 0 ==> g.max_degree(g.num_nodes) == 0,
{
    lemma_max_degree_prefix(g, g.num_nodes);
}

proof fn lemma_max_degree_prefix(g: GraphView, n: nat)
    requires
        n <= g.num_nodes,
    ensures
        0 <= g.max_degree(n),
        forall|i: int|
            0 <= i < n ==> minus(g.offsets[i + 1], #[trigger] g.offsets[i]) <= g.max_degree(n),
        n > 0 ==> exists|i: int|
            0 <= i < n && minus(g.offsets[i + 1], #[trigger] g.offsets[i]) == g.max_degree(n),
    decreases n,
{
    if n > 0 {
        lemma_max_degree_prefix(g, (n - 1) as nat);
        assert(g.degree(n - 1) == minus(g.offsets[n as int], g.offsets[n - 1]));
    }
}

/// In a CSR graph a node has as many neighbours as its degree says.
pub proof fn law_neighbors_match_degree(g: GraphView, node: int)
    requires
        g.csr(),
    ensures
        g.neighbors(node).len() == g.degree(node),
{
    if 0 <= node < g.num_nodes {
        assert(g.offsets[node] <= g.offsets[node + 1]);
        assert(g.offsets[node + 1] <= g.offsets[g.num_nodes as int]);
    }
}

/// Graph statistics. The mean degree is `degree_sum` over `num_nodes`.
#[derive(Debug, Clone, Copy, PartialEq, Eq, Structural)]
pub struct GraphStats {
    pub num_nodes: usize,
    pub num_edges: usize,
    pub max_degree: usize,
    pub degree_sum: u64,
    pub has_weights: bool,
}

/// Graph in CSR form.
#[derive(Debug, Clone)]
pub struct Graph {
    num_nodes: usize,
    num_edges: usize,
    offsets: Vec<EdgeOffset>,
    edges: Vec<NodeId>,
    weights: Option<Vec<u32>>,
    timestamps: Option<Vec<u64>>,
}

impl View for Graph {
    type V = GraphView;

    closed spec fn view(&self) -> GraphView {
        GraphView {
            num_nodes: self.num_nodes as nat,
            num_edges: self.num_edges as nat,
            offsets: self.offsets@,
            edges: self.edges@,
            weights: match self.weights {
                Some(w) => Some(w@),
                None => None,
            },
            timestamps: match self.timestamps {
                Some(t) => Some(t@),
                None => None,
            },
        }
    }
}

impl Graph {
    /// An empty graph, to stand in until one is loaded.
    pub fn empty() -> (g: Graph)
        ensures
            g@ == (GraphView {
                num_nodes: 0,
                num_edges: 0,
                offsets: seq![0u64],
                edges: Seq::empty(),
                weights: None,
                timestamps: None,
            }),
            g@.valid(),
    {
        let g = Graph {
            num_nodes: 0,
            num_edges: 0,
            offsets: vec![0u64],
            edges: Vec::new(),
            weights: None,
            timestamps: None,
        };
        assert(g@.offsets =~= seq![0u64]);
        assert(g@.edges =~= Seq::empty());
        g
    }

    /// Creates a graph directly from CSR arrays. Whether the destinations are
    /// nodes is left to [`Graph::validate`].
    pub fn from_csr_arrays(
        num_nodes: usize,
        offsets: Vec<EdgeOffset>,
        edges: Vec<NodeId>,
        weights: Option<Vec<u32>>,
    ) -> (g: Graph)
        requires
            offsets@.len() == num_nodes + 1,
            offsets@[0] == 0,
            ascending(offsets@),
            offsets@[num_nodes as int] == edges@.len(),
        ensures
            g@ == (GraphView {
                num_nodes: num_nodes as nat,
                num_edges: edges@.len(),
                offsets: offsets@,
                edges: edges@,
                weights: match weights {
                    Some(w) => Some(w@),
                    None => None,
                },
                timestamps: None,
            }),
            g@.csr(),
    {
        let num_edges = edges.len();
        Graph { num_nodes, num_edges, offsets, edges, weights, timestamps: None }
    }

    /// Creates a graph from arrays that nothing is known of.
    pub(crate) fn from_owned_parts(
        num_nodes: usize,
        num_edges: usize,
        offsets: Vec<EdgeOffset>,
        edges: Vec<NodeId>,
        weights: Option<Vec<u32>>,
    ) -> (g: Graph)
        ensures
            g@ == (GraphView {
                num_nodes: num_nodes as nat,
                num_edges: num_edges as nat,
                offsets: offsets@,
                edges: edges@,
                weights: match weights {
                    Some(w) => Some(w@),
                    None => None,
                },
                timestamps: None,
            }),
    {
        Graph { num_nodes, num_edges, offsets, edges, weights, timestamps: None }
    }

    /// Returns the number of nodes in the graph.
    pub fn num_nodes(&self) -> (n: usize)
        ensures
            n == self@.num_nodes,
    {
        self.num_nodes
    }

    /// Returns the number of edges in the graph.
    pub fn num_edges(&self) -> (n: usize)
        ensures
            n == self@.num_edges,
    {
        self.num_edges
    }

    /// Returns the degree (number of outgoing edges) of a node, zero for an id
    /// that is no node. Offsets that descend count as no edges.
    pub fn degree(&self, node: NodeId) -> (d: usize)
        requires
            self@.shaped(),
        ensures
            d == self@.degree(node as int) as usize,
    {
        let idx: usize = node as usize;
        if idx >= self.num_nodes {
            return 0;
        }
        self.offsets[idx + 1].saturating_sub(self.offsets[idx]) as usize
    }

    /// Returns the degree of every node in one pass over the offsets array.
    pub fn degrees(&self) -> (d: Vec<u32>)
        requires
            self@.shaped(),
        ensures
            d@ == Seq::new(self@.num_nodes, |i: int| self@.degree(i) as u32),
    {
        let mut d: Vec<u32> = Vec::with_capacity(self.num_nodes);
        let mut i: usize = 0;
        while i < self.num_nodes
            invariant
                self@.shaped(),
                i <= self.num_nodes,
                d@ == Seq::new(i as nat, |k: int| self@.degree(k) as u32),
            decreases self.num_nodes - i,
        {
            d.push(self.offsets[i + 1].saturating_sub(self.offsets[i]) as u32);
            i += 1;
            assert(d@ =~= Seq::new(i as nat, |k: int| self@.degree(k) as u32));
        }
        d
    }

    /// Returns the neighbor range for a node in the edges array, `(0, 0)` where
    /// the offsets give none.
    fn neighbor_range(&self, node: NodeId) -> (r: (usize, usize))
        requires
            self@.shaped(),
        ensures
            r.0 == self@.run_start(node as int),
            r.1 == self@.run_end(node as int),
            r.0 <= r.1 <= self@.num_edges,
    {
        let idx: usize = node as usize;
        if idx >= self.num_nodes {
            return (0, 0);
        }
        let start: u64 = self.offsets[idx];
        let end: u64 = self.offsets[idx + 1];
        if start > end || end > self.num_edges as u64 {
            return (0, 0);
        }
        (start as usize, end as usize)
    }

    /// Returns the neighbor IDs for a given node as a slice.
    pub fn neighbors(&self, node: NodeId) -> (s: &[NodeId])
        requires
            self@.shaped(),
        ensures
            s@ == self@.neighbors(node as int),
    {
        let (start, end) = self.neighbor_range(node);
        slice_subrange(self.edges.as_slice(), start, end)
    }

    /// Returns the starting edge offset for a node (for computing global edge IDs).
    pub fn edge_offset(&self, node: NodeId) -> (o: EdgeOffset)
        requires
            self@.shaped(),
        ensures
            o == (if (node as nat) < self@.num_nodes {
                self@.offsets[node as int]
            } else {
                0
            }),
    {
        let idx: usize = node as usize;
        if idx >= self.num_nodes {
            return 0;
        }
        self.offsets[idx]
    }

    /// Returns edge weights for a node's neighbors, if weights are available.
    pub fn neighbor_weights(&self, node: NodeId) -> (s: Option<&[u32]>)
        requires
            self@.shaped(),
            self@.weights matches Some(w) ==> self@.run_end(node as int) <= w.len(),
        ensures
            s is Some <==> self@.weights is Some,
            s matches Some(w) ==> Some(w@) == self@.neighbor_weights(node as int),
    {
        match &self.weights {
            Some(w) => {
                let (start, end) = self.neighbor_range(node);
                Some(slice_subrange(w.as_slice(), start, end))
            },
            None => None,
        }
    }

    /// Sets edge timestamps (parallel to the edges array). Refuses an array that
    /// does not have one entry per edge, and then leaves the graph as it was.
    pub fn set_timestamps(&mut self, timestamps: Vec<u64>) -> (r: Result<
        (),
        TimestampLengthMismatch,
    >)
        ensures
            timestamps@.len() == old(self)@.num_edges ==> {
                &&& r == Ok::<(), TimestampLengthMismatch>(())
                &&& final(self)@ == (GraphView { timestamps: Some(timestamps@), ..old(self)@ })
            },
            timestamps@.len() != old(self)@.num_edges ==> {
                &&& r == Err::<(), TimestampLengthMismatch>(
                    TimestampLengthMismatch {
                        got: timestamps@.len() as usize,
                        expected: old(self)@.num_edges as usize,
                    },
                )
                &&& final(self)@ == old(self)@
            },
    {
        if timestamps.len() != self.num_edges {
            return Err(
                TimestampLengthMismatch { got: timestamps.len(), expected: self.num_edges },
            );
        }
        self.timestamps = Some(timestamps);
        Ok(())
    }

    /// Returns edge timestamps for a node's neighbors, if timestamps are set.
    pub fn neighbor_timestamps(&self, node: NodeId) -> (s: Option<&[u64]>)
        requires
            self@.shaped(),
            self@.timestamps matches Some(t) ==> self@.run_end(node as int) <= t.len(),
        ensures
            s is Some <==> self@.timestamps is Some,
            s matches Some(t) ==> Some(t@) == self@.neighbor_timestamps(node as int),
    {
        match &self.timestamps {
            Some(t) => {
                let (start, end) = self.neighbor_range(node);
                Some(slice_subrange(t.as_slice(), start, end))
            },
            None => None,
        }
    }

    /// Returns the full timestamps array, if set.
    pub fn timestamps(&self) -> (s: Option<&[u64]>)
        ensures
            s is Some <==> self@.timestamps is Some,
            s matches Some(t) ==> Some(t@) == self@.timestamps,
    {
        match &self.timestamps {
            Some(t) => Some(t.as_slice()),
            None => None,
        }
    }

    /// Returns whether timestamps are available.
    pub fn has_timestamps(&self) -> (b: bool)
        ensures
            b == (self@.timestamps is Some),
    {
        self.timestamps.is_some()
    }

    /// Returns the (neighbor id, optional weight) pairs of a node.
    pub fn neighbors_with_weights(&self, node: NodeId) -> (v: Vec<(NodeId, Option<u32>)>)
        requires
            self@.shaped(),
            self@.weights matches Some(w) ==> self@.run_end(node as int) <= w.len(),
        ensures
            v@.len() == self@.neighbors(node as int).len(),
            forall|i: int|
                0 <= i < v@.len() ==> #[trigger] v@[i] == (
                    self@.neighbors(node as int)[i],
                    match self@.neighbor_weights(node as int) {
                        Some(w) => Some(w[i]),
                        None => None,
                    },
                ),
    {
        let neighbors = self.neighbors(node);
        let weights = self.neighbor_weights(node);
        let mut v: Vec<(NodeId, Option<u32>)> = Vec::with_capacity(neighbors.len());
        let mut i: usize = 0;
        while i < neighbors.len()
            invariant
                i <= neighbors@.len(),
                neighbors@ == self@.neighbors(node as int),
                weights is Some <==> self@.weights is Some,
                weights matches Some(w) ==> Some(w@) == self@.neighbor_weights(node as int)
                    && w@.len() == neighbors@.len(),
                v@.len() == i,
                forall|k: int|
                    0 <= k < i ==> #[trigger] v@[k] == (
                        self@.neighbors(node as int)[k],
                        match self@.neighbor_weights(node as int) {
                            Some(w) => Some(w[k]),
                            None => None,
                        },
                    ),
            decreases neighbors@.len() - i,
        {
            let weight: Option<u32> = match weights {
                Some(w) => Some(w[i]),
                None => None,
            };
            v.push((neighbors[i], weight));
            i += 1;
        }
        v
    }

    /// Returns raw access to the offsets array.
    pub fn offsets(&self) -> (s: &[EdgeOffset])
        ensures
            s@ == self@.offsets,
    {
        self.offsets.as_slice()
    }

    /// Returns raw access to the edges array.
    pub fn edges(&self) -> (s: &[NodeId])
        ensures
            s@ == self@.edges,
    {
        self.edges.as_slice()
    }

    /// Returns raw access to the weights array.
    pub fn weights(&self) -> (s: Option<&[u32]>)
        ensures
            s is Some <==> self@.weights is Some,
            s matches Some(w) ==> Some(w@) == self@.weights,
    {
        match &self.weights {
            Some(w) => Some(w.as_slice()),
            None => None,
        }
    }

    /// Validates graph structure invariants.
    pub fn validate(&self) -> (r: Result<(), GraphError>)
        requires
            self@.num_nodes < usize::MAX,
        ensures
            self@.validation(GraphValidationMode::Full, r),
    {
        self.validate_with_mode(GraphValidationMode::Full)
    }

    /// Finds the first index at which the offsets array descends.
    fn find_descent(&self) -> (found: Option<usize>)
        ensures
            match found {
                Some(i) => self@.descends_first_at(i as int) && !ascending(self@.offsets),
                None => ascending(self@.offsets),
            },
    {
        let mut i: usize = 1;
        while i < self.offsets.len()
            invariant
                1 <= i,
                i <= self.offsets@.len() || i == 1,
                forall|a: int, b: int|
                    0 <= a <= b < i && b < self.offsets@.len() ==> self.offsets@[a]
                        <= self.offsets@[b],
            decreases self.offsets@.len() - i,
        {
            if self.offsets[i] < self.offsets[i - 1] {
                assert(self@.descends_first_at(i as int));
                return Some(i);
            }
            i += 1;
        }
        None
    }

    /// Finds the first entry of the edges array that is no node.
    fn find_stray(&self) -> (found: Option<usize>)
        ensures
            match found {
                Some(i) => self@.strays_first_at(i as int),
                None => self@.closed_under_edges(),
            },
    {
        let mut i: usize = 0;
        while i < self.edges.len()
            invariant
                i <= self.edges@.len(),
                forall|k: int| 0 <= k < i ==> (#[trigger] self.edges@[k]) < self.num_nodes,
            decreases self.edges@.len() - i,
        {
            if self.edges[i] as usize >= self.num_nodes {
                return Some(i);
            }
            i += 1;
        }
        None
    }

    /// Validates graph structure invariants with configurable strictness.
    pub fn validate_with_mode(&self, mode: GraphValidationMode) -> (r: Result<(), GraphError>)
        requires
            self@.num_nodes < usize::MAX,
        ensures
            self@.validation(mode, r),
    {
        if self.offsets.len() != self.num_nodes + 1 {
            return Err(
                GraphError::OffsetsLength {
                    got: self.offsets.len(),
                    expected: self.num_nodes + 1,
                },
            );
        }
        if self.offsets[0] != 0 {
            return Err(GraphError::FirstOffset { offset: self.offsets[0] });
        }
        if self.offsets[self.num_nodes] != self.num_edges as u64 {
            return Err(GraphError::LastOffset);
        }
        if mode != GraphValidationMode::HeaderOnly {
            if let Some(i) = self.find_descent() {
                if self.num_nodes > MANY_NODES {
                    return Err(GraphError::OffsetsDescend);
                }
                return Err(
                    GraphError::OffsetDescends {
                        index: i,
                        offset: self.offsets[i],
                        previous: self.offsets[i - 1],
                    },
                );
            }
        }
        if self.edges.len() != self.num_edges {
            return Err(
                GraphError::EdgesLength { got: self.edges.len(), expected: self.num_edges },
            );
        }
        if let Some(w) = &self.weights {
            if w.len() != self.num_edges {
                return Err(GraphError::WeightsLength { got: w.len(), expected: self.num_edges });
            }
        }
        if mode != GraphValidationMode::Full {
            return Ok(());
        }
        if let Some(i) = self.find_stray() {
            if self.num_edges > MANY_EDGES {
                return Err(GraphError::EdgesOutOfRange { num_nodes: self.num_nodes });
            }
            return Err(
                GraphError::EdgeOutOfRange { node: self.edges[i], num_nodes: self.num_nodes },
            );
        }
        Ok(())
    }

    /// Returns statistics about the graph structure.
    pub fn stats(&self) -> (s: GraphStats)
        requires
            self@.shaped(),
            self@.num_nodes <= u32::MAX,
            forall|n: nat| n <= self@.num_nodes ==> #[trigger] self@.degree_sum(n) <= usize::MAX,
        ensures
            s.num_nodes == self@.num_nodes,
            s.num_edges == self@.num_edges,
            s.max_degree == self@.max_degree(self@.num_nodes),
            forall|i: int|
                0 <= i < self@.num_nodes ==> minus(
                    self@.offsets[i + 1],
                    #[trigger] self@.offsets[i],
                ) <= s.max_degree,
            self@.num_nodes > 0 ==> exists|i: int|
                0 <= i < self@.num_nodes && minus(
                    self@.offsets[i + 1],
                    #[trigger] self@.offsets[i],
                ) == s.max_degree,
            self@.num_nodes == 0 ==> s.max_degree == 0,
            s.degree_sum == self@.degree_sum(self@.num_nodes),
            s.has_weights == (self@.weights is Some),
    {
        let mut max_degree: usize = 0;
        let mut degree_sum: u64 = 0;
        let mut node: usize = 0;
        while node < self.num_nodes
            invariant
                self@.shaped(),
                self@.num_nodes <= u32::MAX,
                forall|n: nat| n <= self@.num_nodes ==> #[trigger] self@.degree_sum(n) <= usize::MAX,
                node <= self.num_nodes,
                degree_sum == self@.degree_sum(node as nat),
                max_degree == self@.max_degree(node as nat),
                0 <= self@.degree_sum(node as nat),
            decreases self.num_nodes - node,
        {
            assert(self@.degree_sum((node + 1) as nat) <= usize::MAX);
            let deg: usize = self.degree(node as u32);
            if deg > max_degree {
                max_degree = deg;
            }
            degree_sum += deg as u64;
            node += 1;
        }
        proof {
            law_max_degree_is_attained(self@);
        }
        GraphStats {
            num_nodes: self.num_nodes,
            num_edges: self.num_edges,
            max_degree,
            degree_sum,
            has_weights: self.weights.is_some(),
        }
    }
}

/// In a CSR graph no sum of degrees exceeds the number of edges, so its
/// statistics can be taken.
pub proof fn law_csr_degree_sums_fit(g: GraphView)
    requires
        g.csr(),
    ensures
        forall|n: nat| n <= g.num_nodes ==> #[trigger] g.degree_sum(n) <= g.num_edges,
{
    assert forall|n: nat| n <= g.num_nodes implies #[trigger] g.degree_sum(n) <= g.num_edges by {
        lemma_degree_prefix(g, n);
        assert(g.offsets[n as int] <= g.offsets[g.num_nodes as int]);
    }
}

} // verus!
