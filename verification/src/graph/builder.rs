//! Building a CSR graph from an edge list by counting sort.
//!
//! Edges keep, within each source, the order in which they arrived.
use vstd::prelude::*;
use super::csr::{Graph, GraphView, NodeId};
use super::error::GraphError;

verus! {

/// The positions at which `u` stands in `srcs`, ascending.
pub open spec fn arrivals(srcs: Seq<u32>, u: int) -> Seq<int>
    decreases srcs.len(),
{
    if srcs.len() == 0 {
        Seq::empty()
    } else {
        let before = arrivals(srcs.drop_last(), u);
        if srcs.last() == u {
            before.push(srcs.len() - 1)
        } else {
            before
        }
    }
}

/// How many entries of `srcs` are below `u`.
pub open spec fn before(srcs: Seq<u32>, u: nat) -> nat
    decreases u,
{
    if u == 0 {
        0
    } else {
        before(srcs, (u - 1) as nat) + arrivals(srcs, u - 1).len()
    }
}

/// The sources of an edge list.
pub open spec fn sources(edges: Seq<(u32, u32)>) -> Seq<u32> {
    Seq::new(edges.len(), |i: int| edges[i].0)
}

/// The edge list that two columns stand for.
pub open spec fn zipped(src: Seq<u32>, dst: Seq<u32>) -> Seq<(u32, u32)> {
    Seq::new(src.len(), |i: int| (src[i], dst[i]))
}

/// The first edge whose source is no node.
pub open spec fn first_bad_source(edges: Seq<(u32, u32)>, num_nodes: nat, i: int) -> bool {
    &&& 0 <= i < edges.len()
    &&& edges[i].0 >= num_nodes
    &&& forall|k: int| 0 <= k < i ==> (#[trigger] edges[k]).0 < num_nodes
}

/// The first edge whose destination is no node.
pub open spec fn first_bad_destination(edges: Seq<(u32, u32)>, num_nodes: nat, i: int) -> bool {
    &&& 0 <= i < edges.len()
    &&& edges[i].1 >= num_nodes
    &&& forall|k: int| 0 <= k < i ==> (#[trigger] edges[k]).1 < num_nodes
}

/// Every edge starts at a node.
pub open spec fn sources_in_range(edges: Seq<(u32, u32)>, num_nodes: nat) -> bool {
    forall|k: int| 0 <= k < edges.len() ==> (#[trigger] edges[k]).0 < num_nodes
}

/// Every edge ends at a node.
pub open spec fn destinations_in_range(edges: Seq<(u32, u32)>, num_nodes: nat) -> bool {
    forall|k: int| 0 <= k < edges.len() ==> (#[trigger] edges[k]).1 < num_nodes
}

/// `g` is the graph of the edge list: every node has its edges, and their
/// weights, in the order of the list.
pub open spec fn is_graph_of(
    g: GraphView,
    num_nodes: nat,
    edges: Seq<(u32, u32)>,
    weights: Option<Seq<u32>>,
) -> bool {
    let srcs = sources(edges);
    &&& g.num_nodes == num_nodes
    &&& g.num_edges == edges.len()
    &&& g.edges.len() == edges.len()
    &&& g.offsets.len() == num_nodes + 1
    &&& forall|u: int| 0 <= u <= num_nodes ==> #[trigger] g.offsets[u] == before(srcs, u as nat)
    &&& forall|u: int|
        0 <= u < num_nodes ==> #[trigger] g.neighbors(u) == arrivals(srcs, u).map_values(
            |i: int| edges[i].1,
        )
    &&& g.weights is Some <==> weights is Some
    &&& weights is Some ==> g.weights->0.len() == edges.len()
    &&& weights is Some ==> forall|u: int|
        0 <= u < num_nodes ==> #[trigger] g.neighbor_weights(u) == Some(
            arrivals(srcs, u).map_values(|i: int| weights->0[i]),
        )
    &&& g.timestamps is None
}

/// What building a graph from an edge list comes to.
pub open spec fn build_result(
    num_nodes: nat,
    edges: Seq<(u32, u32)>,
    weights: Option<Seq<u32>>,
    result: Result<Graph, GraphError>,
) -> bool {
    if weights is Some && weights->0.len() != edges.len() {
        result == Err::<Graph, GraphError>(
            GraphError::WeightsPerEdge {
                got: weights->0.len() as usize,
                expected: edges.len() as usize,
            },
        )
    } else if !sources_in_range(edges, num_nodes) {
        exists|i: int| #[trigger]
            first_bad_source(edges, num_nodes, i) && result == Err::<Graph, GraphError>(
                GraphError::SourceOutOfRange { node: edges[i].0, num_nodes: num_nodes as usize },
            )
    } else if !destinations_in_range(edges, num_nodes) {
        exists|i: int| #[trigger]
            first_bad_destination(edges, num_nodes, i) && result == Err::<Graph, GraphError>(
                GraphError::DestinationOutOfRange {
                    node: edges[i].1,
                    num_nodes: num_nodes as usize,
                },
            )
    } else {
        result is Ok && is_graph_of(result->Ok_0@, num_nodes, edges, weights)
            && result->Ok_0@.valid()
    }
}

/// Appending an edge gives one more arrival to its source and to no other node.
proof fn lemma_arrivals_push(srcs: Seq<u32>, k: int, u: int)
    requires
        0 <= k < srcs.len(),
    ensures
        arrivals(srcs.take(k + 1), u) == (if srcs[k] == u {
            arrivals(srcs.take(k), u).push(k)
        } else {
            arrivals(srcs.take(k), u)
        }),
{
    assert(srcs.take(k + 1).drop_last() =~= srcs.take(k));
}

/// Arrivals among the first `k` edges are a prefix of all arrivals.
proof fn lemma_arrivals_prefix(srcs: Seq<u32>, k: int, u: int)
    requires
        0 <= k <= srcs.len(),
    ensures
        arrivals(srcs.take(k), u).len() <= arrivals(srcs, u).len(),
        k < srcs.len() && srcs[k] == u ==> arrivals(srcs.take(k), u).len() < arrivals(
            srcs,
            u,
        ).len(),
    decreases srcs.len() - k,
{
    if k == srcs.len() {
        assert(srcs.take(k) =~= srcs);
    } else {
        lemma_arrivals_push(srcs, k, u);
        lemma_arrivals_prefix(srcs, k + 1, u);
    }
}

/// Arrivals are positions in the edge list.
pub proof fn lemma_arrivals_bounds(srcs: Seq<u32>, u: int)
    ensures
        forall|j: int|
            0 <= j < arrivals(srcs, u).len() ==> 0 <= #[trigger] arrivals(srcs, u)[j] < srcs.len()
                && srcs[arrivals(srcs, u)[j]] == u,
        forall|i: int, j: int|
            0 <= i < j < arrivals(srcs, u).len() ==> arrivals(srcs, u)[i] < arrivals(srcs, u)[j],
    decreases srcs.len(),
{
    if srcs.len() > 0 {
        lemma_arrivals_bounds(srcs.drop_last(), u);
        let prev = arrivals(srcs.drop_last(), u);
        let all = arrivals(srcs, u);
        assert forall|j: int| 0 <= j < all.len() implies 0 <= #[trigger] all[j] < srcs.len()
            && srcs[all[j]] == u by {
            if j < prev.len() {
                assert(all[j] == prev[j]);
                assert(srcs.drop_last()[prev[j]] == u);
            }
        }
        assert forall|i: int, j: int| 0 <= i < j < all.len() implies all[i] < all[j] by {
            assert(all[i] == prev[i]);
            if j < prev.len() {
                assert(all[j] == prev[j]);
            }
        }
    }
}

/// The counts before nodes ascend.
proof fn lemma_before_monotone(srcs: Seq<u32>, u: nat, v: nat)
    requires
        u <= v,
    ensures
        before(srcs, u) <= before(srcs, v),
        u < v ==> before(srcs, u) + arrivals(srcs, u as int).len() <= before(srcs, v),
    decreases v - u,
{
    if u < v {
        lemma_before_monotone(srcs, u + 1, v);
    }
}

/// One more edge counts before every node above its source.
proof fn lemma_before_push(srcs: Seq<u32>, u: nat)
    requires
        srcs.len() > 0,
    ensures
        before(srcs, u) == before(srcs.drop_last(), u) + (if srcs.last() < u {
            1nat
        } else {
            0nat
        }),
    decreases u,
{
    if u > 0 {
        lemma_before_push(srcs, (u - 1) as nat);
    }
}

/// Where every source is a node, all edges count before the end.
proof fn lemma_before_total(srcs: Seq<u32>, n: nat)
    requires
        forall|k: int| 0 <= k < srcs.len() ==> (#[trigger] srcs[k]) < n,
    ensures
        before(srcs, n) == srcs.len(),
    decreases srcs.len(),
{
    if srcs.len() == 0 {
        lemma_before_none(srcs, n);
    } else {
        lemma_before_total(srcs.drop_last(), n);
        lemma_before_push(srcs, n);
    }
}

proof fn lemma_before_none(srcs: Seq<u32>, n: nat)
    requires
        srcs.len() == 0,
    ensures
        before(srcs, n) == 0,
    decreases n,
{
    if n > 0 {
        lemma_before_none(srcs, (n - 1) as nat);
    }
}

/// In the graph of an edge list every node has the destinations of its own
/// edges, in the order in which the edges arrived.
pub proof fn law_neighbors_in_arrival_order(
    g: GraphView,
    num_nodes: nat,
    edges: Seq<(u32, u32)>,
    weights: Option<Seq<u32>>,
    u: int,
    j: int,
)
    requires
        is_graph_of(g, num_nodes, edges, weights),
        0 <= u < num_nodes,
        0 <= j < g.neighbors(u).len(),
    ensures
        ({
            let at = arrivals(sources(edges), u);
            &&& g.neighbors(u).len() == at.len()
            &&& 0 <= at[j] < edges.len()
            &&& edges[at[j]] == (u as u32, g.neighbors(u)[j])
            &&& forall|k: int| 0 <= k < j ==> #[trigger] at[k] < at[j]
        }),
{
    lemma_arrivals_bounds(sources(edges), u);
}

/// The neighbours of a node in the graph of an edge list are the destinations of
/// all edges that start at the node and of no others, in the order of the list,
/// with the weights of those very edges. The places of these edges are returned.
pub proof fn law_neighbors_are_the_nodes_edges(
    g: GraphView,
    num_nodes: nat,
    edges: Seq<(u32, u32)>,
    weights: Option<Seq<u32>>,
    u: int,
) -> (places: Seq<int>)
    requires
        is_graph_of(g, num_nodes, edges, weights),
        0 <= u < num_nodes,
    ensures
        places.len() == g.neighbors(u).len(),
        forall|i: int, j: int| 0 <= i < j < places.len() ==> places[i] < places[j],
        forall|j: int|
            0 <= j < places.len() ==> 0 <= #[trigger] places[j] < edges.len()
                && edges[places[j]].0 == u && edges[places[j]].1 == g.neighbors(u)[j],
        forall|i: int|
            0 <= i < edges.len() && (#[trigger] edges[i]).0 == u ==> places.contains(i),
        weights is None ==> g.neighbor_weights(u) is None,
        weights matches Some(w) ==> {
            &&& g.neighbor_weights(u) is Some
            &&& g.neighbor_weights(u)->0.len() == places.len()
            &&& forall|j: int|
                0 <= j < places.len() ==> g.neighbor_weights(u)->0[j] == w[#[trigger] places[j]]
        },
{
    let srcs = sources(edges);
    let at = arrivals(srcs, u);
    lemma_arrivals_bounds(srcs, u);
    assert(g.neighbors(u) == at.map_values(|i: int| edges[i].1));
    assert forall|j: int| 0 <= j < at.len() implies 0 <= #[trigger] at[j] < edges.len()
        && edges[at[j]].0 == u && edges[at[j]].1 == g.neighbors(u)[j] by {
        assert(srcs[at[j]] == u);
    }
    assert forall|i: int| 0 <= i < edges.len() && (#[trigger] edges[i]).0 == u implies at.contains(
        i,
    ) by {
        lemma_arrives(srcs, u, i);
    }
    if weights is Some {
        assert(g.neighbor_weights(u) == Some(at.map_values(|i: int| weights->0[i])));
    }
    at
}

/// Every place of a value is among its arrivals.
proof fn lemma_arrives(srcs: Seq<u32>, u: int, x: int)
    requires
        0 <= x < srcs.len(),
        srcs[x] == u,
    ensures
        arrivals(srcs, u).contains(x),
    decreases srcs.len(),
{
    let before = arrivals(srcs.drop_last(), u);
    let all = arrivals(srcs, u);
    if x == srcs.len() - 1 {
        assert(all[all.len() - 1] == x);
    } else {
        lemma_arrives(srcs.drop_last(), u, x);
        let j = choose|j: int| 0 <= j < before.len() && before[j] == x;
        assert(all[j] == x);
    }
}

/// A graph is built exactly from an edge list between nodes whose weights, if
/// any, are one per edge. Otherwise the number of weights is reported first, then
/// the first source that is no node, then the first destination that is none.
pub proof fn law_graph_is_built_from_edges_between_nodes(
    num_nodes: nat,
    edges: Seq<(u32, u32)>,
    weights: Option<Seq<u32>>,
    result: Result<Graph, GraphError>,
)
    requires
        build_result(num_nodes, edges, weights, result),
        num_nodes <= usize::MAX,
        edges.len() <= usize::MAX,
        weights matches Some(w) ==> w.len() <= usize::MAX,
    ensures
        ({
            let weights_fit = weights matches Some(w) ==> w.len() == edges.len();
            let sources_fit = forall|k: int|
                0 <= k < edges.len() ==> (#[trigger] edges[k]).0 < num_nodes;
            let destinations_fit = forall|k: int|
                0 <= k < edges.len() ==> (#[trigger] edges[k]).1 < num_nodes;
            &&& result is Ok <==> weights_fit && sources_fit && destinations_fit
            &&& !weights_fit <==> (result matches Err(GraphError::WeightsPerEdge { got, expected })
                && got == weights->0.len() && expected == edges.len())
            &&& result matches Err(GraphError::SourceOutOfRange { node, num_nodes: n }) ==> {
                &&& weights_fit
                &&& n == num_nodes
                &&& node >= num_nodes
                &&& exists|i: int|
                    0 <= i < edges.len() && (#[trigger] edges[i]).0 == node && forall|k: int|
                        0 <= k < i ==> (#[trigger] edges[k]).0 < num_nodes
            }
            &&& result matches Err(GraphError::DestinationOutOfRange { node, num_nodes: n }) ==> {
                &&& weights_fit && sources_fit
                &&& n == num_nodes
                &&& node >= num_nodes
                &&& exists|i: int|
                    0 <= i < edges.len() && (#[trigger] edges[i]).1 == node && forall|k: int|
                        0 <= k < i ==> (#[trigger] edges[k]).1 < num_nodes
            }
            &&& weights_fit && !sources_fit <==> (result is Err
                && result->Err_0 is SourceOutOfRange)
            &&& weights_fit && sources_fit && !destinations_fit <==> (result is Err
                && result->Err_0 is DestinationOutOfRange)
        }),
{
}

/// An edge list, as pairs or as two columns.
pub enum EdgeList<'a> {
    Pairs(&'a [(NodeId, NodeId)]),
    Columns(&'a [NodeId], &'a [NodeId]),
}

impl<'a> EdgeList<'a> {
    /// The columns of the list have the same length.
    pub open spec fn even(self) -> bool {
        self matches EdgeList::Columns(src, dst) ==> src@.len() == dst@.len()
    }

    /// The edges in order.
    pub open spec fn edges(self) -> Seq<(u32, u32)> {
        match self {
            EdgeList::Pairs(pairs) => pairs@,
            EdgeList::Columns(src, dst) => zipped(src@, dst@),
        }
    }

    fn len(&self) -> (n: usize)
        requires
            self.even(),
        ensures
            n == self.edges().len(),
    {
        match self {
            EdgeList::Pairs(pairs) => pairs.len(),
            EdgeList::Columns(src, _) => src.len(),
        }
    }

    fn at(&self, i: usize) -> (e: (NodeId, NodeId))
        requires
            self.even(),
            i < self.edges().len(),
        ensures
            e == self.edges()[i as int],
    {
        match self {
            EdgeList::Pairs(pairs) => pairs[i],
            EdgeList::Columns(src, dst) => (src[i], dst[i]),
        }
    }
}

/// Counts the outgoing edges of every node and adds the counts up.
fn count_offsets(num_nodes: usize, list: &EdgeList) -> (offsets: Vec<u64>)
    requires
        list.even(),
        num_nodes < usize::MAX,
        sources_in_range(list.edges(), num_nodes as nat),
        list.edges().len() <= usize::MAX,
    ensures
        offsets@.len() == num_nodes + 1,
        forall|u: int|
            0 <= u <= num_nodes ==> #[trigger] offsets@[u] == before(
                sources(list.edges()),
                u as nat,
            ),
{
    let num_edges = list.len();
    let ghost srcs = sources(list.edges());
    let mut degree: Vec<u64> = vec![0u64; num_nodes];
    let mut i: usize = 0;
    assert(srcs.take(0) =~= Seq::empty());
    while i < num_edges
        invariant
            i <= num_edges == list.edges().len(),
            list.even(),
            srcs == sources(list.edges()),
            sources_in_range(list.edges(), num_nodes as nat),
            degree@.len() == num_nodes,
            forall|u: int|
                0 <= u < num_nodes ==> #[trigger] degree@[u] == arrivals(
                    srcs.take(i as int),
                    u,
                ).len(),
        decreases num_edges - i,
    {
        let src = list.at(i).0 as usize;
        proof {
            lemma_arrivals_len(srcs.take(i as int), src as int);
            assert forall|u: int| 0 <= u < num_nodes implies (if u == src {
                degree@[u] + 1
            } else {
                degree@[u] as int
            }) == #[trigger] arrivals(srcs.take(i + 1), u).len() by {
                lemma_arrivals_push(srcs, i as int, u);
            }
        }
        degree[src] = degree[src] + 1;
        i += 1;
    }
    assert(srcs.take(i as int) =~= srcs);
    let mut offsets: Vec<u64> = Vec::with_capacity(num_nodes + 1);
    offsets.push(0);
    let mut n: usize = 0;
    while n < num_nodes
        invariant
            n <= num_nodes < usize::MAX,
            list.even(),
            srcs == sources(list.edges()),
            sources_in_range(list.edges(), num_nodes as nat),
            list.edges().len() <= usize::MAX,
            degree@.len() == num_nodes,
            forall|u: int|
                0 <= u < num_nodes ==> #[trigger] degree@[u] == arrivals(srcs, u).len(),
            offsets@.len() == n + 1,
            forall|u: int| 0 <= u <= n ==> #[trigger] offsets@[u] == before(srcs, u as nat),
        decreases num_nodes - n,
    {
        proof {
            lemma_before_total(srcs, num_nodes as nat);
            lemma_before_monotone(srcs, (n + 1) as nat, num_nodes as nat);
        }
        let next: u64 = offsets[n] + degree[n];
        offsets.push(next);
        n += 1;
    }
    offsets
}

proof fn lemma_arrivals_len(srcs: Seq<u32>, u: int)
    ensures
        arrivals(srcs, u).len() <= srcs.len(),
    decreases srcs.len(),
{
    if srcs.len() > 0 {
        lemma_arrivals_len(srcs.drop_last(), u);
    }
}

/// Position of arrival `j` of node `u` in the edges array.
spec fn slot(srcs: Seq<u32>, u: int, j: int) -> int {
    before(srcs, u as nat) + j
}

/// Slots of different nodes, and different slots of one node, differ.
proof fn lemma_slots_distinct(srcs: Seq<u32>, n: nat, u: int, j: int, v: int, k: int)
    requires
        0 <= u < n,
        0 <= v < n,
        0 <= j < arrivals(srcs, u).len(),
        0 <= k < arrivals(srcs, v).len(),
        slot(srcs, u, j) == slot(srcs, v, k),
    ensures
        u == v && j == k,
{
    if u < v {
        lemma_before_monotone(srcs, u as nat, v as nat);
    } else if v < u {
        lemma_before_monotone(srcs, v as nat, u as nat);
    }
}

/// The edges, and where given the weights, placed by source.
struct Placed {
    edges: Vec<u32>,
    weights: Option<Vec<u32>>,
}

/// `out` holds, in the slots of the first `k` edges, what `vals` holds at their
/// positions.
spec fn filled(srcs: Seq<u32>, n: nat, k: int, vals: Seq<u32>, out: Seq<u32>) -> bool {
    &&& out.len() == srcs.len()
    &&& forall|u: int, j: int|
        #![trigger arrivals(srcs.take(k), u)[j]]
        0 <= u < n && 0 <= j < arrivals(srcs.take(k), u).len() ==> out[slot(srcs, u, j)]
            == vals[arrivals(srcs.take(k), u)[j]]
}

/// One more edge goes to the slot that its source has free.
proof fn lemma_fill_step(
    srcs: Seq<u32>,
    n: nat,
    k: int,
    vals: Seq<u32>,
    out: Seq<u32>,
    after: Seq<u32>,
)
    requires
        0 <= k < srcs.len(),
        srcs[k] < n,
        before(srcs, n) <= srcs.len(),
        filled(srcs, n, k, vals, out),
        after == out.update(
            slot(srcs, srcs[k] as int, arrivals(srcs.take(k), srcs[k] as int).len() as int),
            vals[k],
        ),
    ensures
        filled(srcs, n, k + 1, vals, after),
{
    let s = srcs[k] as int;
    let free = arrivals(srcs.take(k), s).len() as int;
    lemma_arrivals_prefix(srcs, k, s);
    lemma_before_monotone(srcs, s as nat, n);
    assert(slot(srcs, s, free) < srcs.len());
    assert forall|u: int, j: int|
        #![trigger arrivals(srcs.take(k + 1), u)[j]]
        0 <= u < n && 0 <= j < arrivals(srcs.take(k + 1), u).len() implies after[slot(srcs, u, j)]
        == vals[arrivals(srcs.take(k + 1), u)[j]] by {
        lemma_arrivals_push(srcs, k, u);
        lemma_arrivals_prefix(srcs, k + 1, u);
        if u == s && j == free {
        } else {
            assert(j < arrivals(srcs.take(k), u).len());
            assert(arrivals(srcs.take(k + 1), u)[j] == arrivals(srcs.take(k), u)[j]);
            lemma_before_monotone(srcs, u as nat, n);
            if slot(srcs, u, j) == slot(srcs, s, free) {
                lemma_slots_distinct(srcs, n, u, j, s, free);
            }
        }
    }
}

/// Puts every edge into the run of its source, in order of arrival.
fn place_edges(
    num_nodes: usize,
    list: &EdgeList,
    weights: Option<&[u32]>,
    offsets: &Vec<u64>,
) -> (r: Result<Placed, GraphError>)
    requires
        list.even(),
        num_nodes < usize::MAX,
        list.edges().len() <= usize::MAX,
        sources_in_range(list.edges(), num_nodes as nat),
        weights matches Some(w) ==> w@.len() == list.edges().len(),
        offsets@.len() == num_nodes + 1,
        forall|u: int|
            0 <= u <= num_nodes ==> #[trigger] offsets@[u] == before(
                sources(list.edges()),
                u as nat,
            ),
    ensures
        match r {
            Err(e) => exists|i: int| #[trigger]
                first_bad_destination(list.edges(), num_nodes as nat, i) && e
                    == (GraphError::DestinationOutOfRange {
                    node: list.edges()[i].1,
                    num_nodes: num_nodes,
                }),
            Ok(p) => {
                let srcs = sources(list.edges());
                &&& destinations_in_range(list.edges(), num_nodes as nat)
                &&& filled(
                    srcs,
                    num_nodes as nat,
                    srcs.len() as int,
                    Seq::new(list.edges().len(), |i: int| list.edges()[i].1),
                    p.edges@,
                )
                &&& p.weights is Some <==> weights is Some
                &&& p.weights matches Some(w) ==> filled(
                    srcs,
                    num_nodes as nat,
                    srcs.len() as int,
                    weights->0@,
                    w@,
                )
            },
        },
{
    let num_edges = list.len();
    let ghost srcs = sources(list.edges());
    let ghost dsts = Seq::new(list.edges().len(), |i: int| list.edges()[i].1);
    let mut csr_edges: Vec<u32> = vec![0u32; num_edges];
    let mut csr_weights: Option<Vec<u32>> = match weights {
        Some(_) => Some(vec![0u32; num_edges]),
        None => None,
    };
    let mut cursors: Vec<u64> = Vec::with_capacity(num_nodes);
    let mut n: usize = 0;
    while n < num_nodes
        invariant
            n <= num_nodes,
            offsets@.len() == num_nodes + 1,
            cursors@ == offsets@.take(n as int),
        decreases num_nodes - n,
    {
        cursors.push(offsets[n]);
        n += 1;
        assert(cursors@ =~= offsets@.take(n as int));
    }
    assert(srcs.take(0) =~= Seq::empty());
    let mut i: usize = 0;
    while i < num_edges
        invariant
            i <= num_edges == list.edges().len(),
            list.even(),
            list.edges().len() <= usize::MAX,
            srcs == sources(list.edges()),
            dsts == Seq::new(list.edges().len(), |i: int| list.edges()[i].1),
            sources_in_range(list.edges(), num_nodes as nat),
            offsets@.len() == num_nodes + 1,
            forall|u: int|
                0 <= u <= num_nodes ==> #[trigger] offsets@[u] == before(srcs, u as nat),
            weights matches Some(w) ==> w@.len() == list.edges().len(),
            csr_weights is Some <==> weights is Some,
            csr_edges@.len() == num_edges,
            csr_weights matches Some(w) ==> w@.len() == num_edges,
            cursors@.len() == num_nodes,
            forall|u: int|
                0 <= u < num_nodes ==> #[trigger] cursors@[u] == offsets@[u] + arrivals(
                    srcs.take(i as int),
                    u,
                ).len(),
            filled(srcs, num_nodes as nat, i as int, dsts, csr_edges@),
            csr_weights matches Some(w) ==> filled(
                srcs,
                num_nodes as nat,
                i as int,
                weights->0@,
                w@,
            ),
            forall|k: int| 0 <= k < i ==> (#[trigger] list.edges()[k]).1 < num_nodes,
        decreases num_edges - i,
    {
        let (src, dst) = list.at(i);
        if dst as usize >= num_nodes {
            assert(first_bad_destination(list.edges(), num_nodes as nat, i as int));
            return Err(GraphError::DestinationOutOfRange { node: dst, num_nodes });
        }
        let s = src as usize;
        proof {
            lemma_arrivals_prefix(srcs, i as int, s as int);
            lemma_before_total(srcs, num_nodes as nat);
            lemma_before_monotone(srcs, s as nat, num_nodes as nat);
            lemma_fill_step(
                srcs,
                num_nodes as nat,
                i as int,
                dsts,
                csr_edges@,
                csr_edges@.update(
                    slot(srcs, s as int, arrivals(srcs.take(i as int), s as int).len() as int),
                    dst,
                ),
            );
        }
        let pos: usize = cursors[s] as usize;
        csr_edges[pos] = dst;
        if let Some(w) = weights {
            let mut out = csr_weights.take().unwrap();
            proof {
                lemma_fill_step(
                    srcs,
                    num_nodes as nat,
                    i as int,
                    w@,
                    out@,
                    out@.update(pos as int, w@[i as int]),
                );
            }
            out[pos] = w[i];
            csr_weights = Some(out);
        }
        proof {
            assert forall|u: int| 0 <= u < num_nodes implies (if u == s {
                cursors@[u] + 1
            } else {
                cursors@[u] as int
            }) == offsets@[u] + #[trigger] arrivals(srcs.take(i + 1), u).len() by {
                lemma_arrivals_push(srcs, i as int, u);
            }
        }
        cursors[s] = cursors[s] + 1;
        i += 1;
    }
    Ok(Placed { edges: csr_edges, weights: csr_weights })
}

/// Arrays filled by source are the graph of the edge list.
proof fn lemma_placed_is_graph(
    g: GraphView,
    num_nodes: nat,
    edges: Seq<(u32, u32)>,
    weights: Option<Seq<u32>>,
)
    requires
        g.num_nodes == num_nodes,
        g.num_edges == edges.len(),
        sources_in_range(edges, num_nodes),
        destinations_in_range(edges, num_nodes),
        g.offsets.len() == num_nodes + 1,
        forall|u: int|
            0 <= u <= num_nodes ==> #[trigger] g.offsets[u] == before(sources(edges), u as nat),
        filled(
            sources(edges),
            num_nodes,
            edges.len() as int,
            Seq::new(edges.len(), |i: int| edges[i].1),
            g.edges,
        ),
        g.weights is Some <==> weights is Some,
        weights is Some ==> weights->0.len() == edges.len() && filled(
            sources(edges),
            num_nodes,
            edges.len() as int,
            weights->0,
            g.weights->0,
        ),
        g.timestamps is None,
    ensures
        is_graph_of(g, num_nodes, edges, weights),
        g.valid(),
{
    let srcs = sources(edges);
    assert(srcs.take(edges.len() as int) =~= srcs);
    lemma_before_total(srcs, num_nodes);
    assert forall|i: int, j: int| 0 <= i <= j < g.offsets.len() implies g.offsets[i]
        <= g.offsets[j] by {
        lemma_before_monotone(srcs, i as nat, j as nat);
    }
    assert(g.offsets[0] == before(srcs, 0));
    assert(g.csr());
    assert forall|u: int| 0 <= u < num_nodes implies #[trigger] g.neighbors(u) == arrivals(
        srcs,
        u,
    ).map_values(|i: int| edges[i].1) by {
        lemma_arrivals_bounds(srcs, u);
        assert(g.offsets[u] == before(srcs, u as nat));
        assert(g.offsets[u + 1] == before(srcs, (u + 1) as nat));
        assert(g.offsets[u + 1] <= g.offsets[num_nodes as int]);
        assert forall|j: int| 0 <= j < arrivals(srcs, u).len() implies g.neighbors(u)[j] == arrivals(
            srcs,
            u,
        ).map_values(|i: int| edges[i].1)[j] by {
            assert(g.edges[slot(srcs, u, j)] == edges[arrivals(srcs.take(edges.len() as int), u)[j]].1);
        }
        assert(g.neighbors(u) =~= arrivals(srcs, u).map_values(|i: int| edges[i].1));
    }
    if weights is Some {
        assert forall|u: int| 0 <= u < num_nodes implies #[trigger] g.neighbor_weights(u) == Some(
            arrivals(srcs, u).map_values(|i: int| weights->0[i]),
        ) by {
            lemma_arrivals_bounds(srcs, u);
            assert(g.offsets[u] == before(srcs, u as nat));
            assert(g.offsets[u + 1] == before(srcs, (u + 1) as nat));
            assert(g.offsets[u + 1] <= g.offsets[num_nodes as int]);
            assert forall|j: int| 0 <= j < arrivals(srcs, u).len() implies g.neighbor_weights(u)->0[j]
                == arrivals(srcs, u).map_values(|i: int| weights->0[i])[j] by {
                assert(g.weights->0[slot(srcs, u, j)] == weights->0[arrivals(
                    srcs.take(edges.len() as int),
                    u,
                )[j]]);
            }
            assert(g.neighbor_weights(u)->0 =~= arrivals(srcs, u).map_values(
                |i: int| weights->0[i],
            ));
        }
    }
    assert forall|i: int| 0 <= i < g.edges.len() implies (#[trigger] g.edges[i]) < num_nodes by {
        let (u, j) = lemma_slot_of(srcs, num_nodes, i);
        lemma_arrivals_bounds(srcs, u);
        assert(g.edges[slot(srcs, u, j)] == edges[arrivals(srcs.take(edges.len() as int), u)[j]].1);
    }
}

/// Every position of the edges array is the slot of some node.
proof fn lemma_slot_of(srcs: Seq<u32>, n: nat, i: int) -> (r: (int, int))
    requires
        0 <= i < before(srcs, n),
    ensures
        0 <= r.0 < n,
        0 <= r.1 < arrivals(srcs, r.0).len(),
        slot(srcs, r.0, r.1) == i,
    decreases n,
{
    if i >= before(srcs, (n - 1) as nat) {
        (n - 1, i - before(srcs, (n - 1) as nat))
    } else {
        lemma_slot_of(srcs, (n - 1) as nat, i)
    }
}

impl Graph {
    /// Creates a new CSR graph from a list of (source, destination) edges and
    /// optional edge weights.
    pub fn from_edges(
        num_nodes: usize,
        edges: &[(NodeId, NodeId)],
        weights: Option<&[u32]>,
    ) -> (r: Result<Graph, GraphError>)
        requires
            num_nodes < usize::MAX,
        ensures
            build_result(
                num_nodes as nat,
                edges@,
                match weights {
                    Some(w) => Some(w@),
                    None => None,
                },
                r,
            ),
    {
        Graph::build_csr(num_nodes, &EdgeList::Pairs(edges), weights)
    }

    /// Creates a new CSR graph from separate source and destination columns.
    pub fn from_src_dst(
        num_nodes: usize,
        src: &[NodeId],
        dst: &[NodeId],
        weights: Option<&[u32]>,
    ) -> (r: Result<Graph, GraphError>)
        requires
            num_nodes < usize::MAX,
        ensures
            src@.len() != dst@.len() ==> r == Err::<Graph, GraphError>(
                GraphError::ColumnLength { src: src@.len() as usize, dst: dst@.len() as usize },
            ),
            src@.len() == dst@.len() ==> build_result(
                num_nodes as nat,
                zipped(src@, dst@),
                match weights {
                    Some(w) => Some(w@),
                    None => None,
                },
                r,
            ),
    {
        if src.len() != dst.len() {
            return Err(GraphError::ColumnLength { src: src.len(), dst: dst.len() });
        }
        Graph::build_csr(num_nodes, &EdgeList::Columns(src, dst), weights)
    }

    /// Counting-sort CSR builder shared by both edge list forms.
    pub fn build_csr(num_nodes: usize, list: &EdgeList, weights: Option<&[u32]>) -> (r: Result<
        Graph,
        GraphError,
    >)
        requires
            num_nodes < usize::MAX,
            list.even(),
        ensures
            build_result(
                num_nodes as nat,
                list.edges(),
                match weights {
                    Some(w) => Some(w@),
                    None => None,
                },
                r,
            ),
    {
        let num_edges = list.len();
        if let Some(w) = weights {
            if w.len() != num_edges {
                return Err(GraphError::WeightsPerEdge { got: w.len(), expected: num_edges });
            }
        }
        let mut i: usize = 0;
        while i < num_edges
            invariant
                i <= num_edges == list.edges().len(),
                list.even(),
                weights matches Some(w) ==> w@.len() == list.edges().len(),
                forall|k: int| 0 <= k < i ==> (#[trigger] list.edges()[k]).0 < num_nodes,
            decreases num_edges - i,
        {
            let src = list.at(i).0;
            if src as usize >= num_nodes {
                assert(first_bad_source(list.edges(), num_nodes as nat, i as int));
                return Err(GraphError::SourceOutOfRange { node: src, num_nodes });
            }
            i += 1;
        }
        let offsets = count_offsets(num_nodes, list);
        match place_edges(num_nodes, list, weights, &offsets) {
            Err(e) => {
                proof {
                    let i = choose|i: int| #[trigger]
                        first_bad_destination(list.edges(), num_nodes as nat, i) && e
                            == (GraphError::DestinationOutOfRange {
                            node: list.edges()[i].1,
                            num_nodes: num_nodes,
                        });
                    assert(!((list.edges()[i]).1 < num_nodes));
                }
                Err(e)
            },
            Ok(placed) => {
                let g = Graph::from_owned_parts(
                    num_nodes,
                    num_edges,
                    offsets,
                    placed.edges,
                    placed.weights,
                );
                proof {
                    lemma_placed_is_graph(
                        g@,
                        num_nodes as nat,
                        list.edges(),
                        match weights {
                            Some(w) => Some(w@),
                            None => None,
                        },
                    );
                }
                Ok(g)
            },
        }
    }
}

/// Two columns make the list of their pairs.
pub proof fn law_columns_pair_up(src: Seq<u32>, dst: Seq<u32>, i: int)
    requires
        src.len() == dst.len(),
        0 <= i < src.len(),
    ensures
        zipped(src, dst).len() == src.len(),
        zipped(src, dst)[i].0 == src[i],
        zipped(src, dst)[i].1 == dst[i],
{
}

} // verus!
