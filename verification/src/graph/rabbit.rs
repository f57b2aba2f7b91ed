//! Rabbit Order: communities of nodes that are read together, and a renumbering
//! that puts them next to each other.
//!
//! Every node proposes to join its neighbour of least degree, then every
//! remaining edge between light nodes proposes to join its ends. Proposals are
//! taken in order of node id.
use vstd::prelude::*;
use super::communities::{
    alone, communities, community_ids, community_order, community_order_and_ids, dense_ids,
    is_partition, joined, law_same_id_means_same_community, lemma_communities_partition,
    merges_in_range, visit_order,
};
use super::csr::{Graph, GraphView, NodeId};
use super::permutation::is_permutation;
use super::union_find::{is_root_map, relink, singletons, IdUnionFind};

verus! {

/// Degree of a node, in the width that Rabbit Order works with.
pub open spec fn degree32(g: GraphView, v: int) -> u32 {
    g.degree(v) as u32
}

/// Nodes of this degree or more are too heavy to be joined to `u`.
pub open spec fn heavy_from(g: GraphView, u: int) -> int {
    g.num_edges as int / (if degree32(g, u) == 0 {
        1
    } else {
        degree32(g, u) as int
    })
}

/// Whether `v` is light enough to be joined to `u`.
pub open spec fn light(g: GraphView, u: int, v: u32) -> bool {
    degree32(g, v as int) < heavy_from(g, u)
}

/// The first neighbour of least degree among the light ones in `nbrs`, with its
/// degree; the largest `u32` twice where there is none.
pub open spec fn lightest(g: GraphView, u: int, nbrs: Seq<u32>) -> (u32, u32)
    decreases nbrs.len(),
{
    if nbrs.len() == 0 {
        (u32::MAX, u32::MAX)
    } else {
        let best = lightest(g, u, nbrs.drop_last());
        let v = nbrs.last();
        if light(g, u, v) && degree32(g, v as int) < best.1 {
            (v, degree32(g, v as int))
        } else {
            best
        }
    }
}

/// The neighbour that `u` proposes to join, the largest `u32` for none.
pub open spec fn best_neighbor(g: GraphView, u: int) -> u32 {
    lightest(g, u, g.neighbors(u)).0
}

/// The proposals of the first `k` nodes to join their best neighbours.
pub open spec fn node_proposals(g: GraphView, k: nat) -> Seq<(u32, u32)>
    decreases k,
{
    if k == 0 {
        Seq::empty()
    } else {
        let before = node_proposals(g, (k - 1) as nat);
        let v = best_neighbor(g, k - 1);
        if v == u32::MAX {
            before
        } else {
            before.push(((k - 1) as u32, v))
        }
    }
}

/// The edges from `u` to light nodes of larger id, among `nbrs`.
pub open spec fn edges_proposed(g: GraphView, u: int, nbrs: Seq<u32>) -> Seq<(u32, u32)>
    decreases nbrs.len(),
{
    if nbrs.len() == 0 {
        Seq::empty()
    } else {
        let before = edges_proposed(g, u, nbrs.drop_last());
        let v = nbrs.last();
        if u < v && light(g, u, v) {
            before.push((u as u32, v))
        } else {
            before
        }
    }
}

/// The proposals of the edges of the first `k` nodes.
pub open spec fn edge_proposals(g: GraphView, k: nat) -> Seq<(u32, u32)>
    decreases k,
{
    if k == 0 {
        Seq::empty()
    } else {
        edge_proposals(g, (k - 1) as nat) + edges_proposed(g, k - 1, g.neighbors(k - 1))
    }
}

/// A forest of communities and the log of merges that made it.
pub struct Forest {
    pub roots: Seq<u32>,
    pub log: Seq<(u32, u32)>,
}

/// Takes one proposal: two communities merge under the larger root, and the
/// merge is logged as (winner, loser).
pub open spec fn propose(f: Forest, p: (u32, u32)) -> Forest {
    let ra = f.roots[p.0 as int];
    let rb = f.roots[p.1 as int];
    let winner = if ra < rb {
        rb
    } else {
        ra
    };
    let loser = if ra < rb {
        ra
    } else {
        rb
    };
    if ra == rb {
        f
    } else {
        Forest { roots: relink(f.roots, loser, winner), log: f.log.push((winner, loser)) }
    }
}

/// Takes proposals in order, starting with every node alone.
pub open spec fn grow(n: nat, proposals: Seq<(u32, u32)>) -> Forest
    decreases proposals.len(),
{
    if proposals.len() == 0 {
        Forest { roots: singletons(n), log: Seq::empty() }
    } else {
        propose(grow(n, proposals.drop_last()), proposals.last())
    }
}

/// The merges of Rabbit Order: none for a graph without two nodes or without
/// edges.
pub open spec fn rabbit_log(g: GraphView) -> Seq<(u32, u32)> {
    if g.num_nodes <= 1 || g.num_edges == 0 {
        Seq::empty()
    } else {
        grow(g.num_nodes, node_proposals(g, g.num_nodes) + edge_proposals(g, g.num_nodes)).log
    }
}

/// Every neighbour of a node is a node.
pub open spec fn neighbors_exist(g: GraphView) -> bool {
    forall|u: int, j: int|
        0 <= j < g.neighbors(u).len() ==> (#[trigger] g.neighbors(u)[j]) < g.num_nodes
}

/// A graph that can be reordered. Runs that the offsets do not give are empty, and
/// with fewer than two nodes nothing is read.
pub open spec fn reorderable(g: GraphView) -> bool {
    &&& g.shaped()
    &&& g.num_nodes <= u32::MAX
    &&& g.num_nodes > 1 ==> neighbors_exist(g)
}

/// Where every destination is a node, so is every neighbour, whatever the offsets
/// say: such a graph can be reordered.
pub proof fn law_closed_graphs_are_reorderable(g: GraphView)
    requires
        g.shaped(),
        g.closed_under_edges(),
        g.num_nodes <= u32::MAX,
    ensures
        neighbors_exist(g),
        reorderable(g),
{
    assert forall|u: int, j: int| 0 <= j < g.neighbors(u).len() implies (#[trigger] g.neighbors(
        u,
    )[j]) < g.num_nodes by {
        assert(g.neighbors(u)[j] == g.edges[g.run_start(u) + j]);
    }
}

/// Whether `v` is light, and its degree is not the one that stands for none.
pub open spec fn joinable(g: GraphView, u: int, v: u32) -> bool {
    light(g, u, v) && degree32(g, v as int) < u32::MAX
}

/// The neighbour that a node proposes to join is one of its light neighbours,
/// none of its light neighbours has a smaller degree, and where it proposes
/// none it has no light neighbour. This leaves out a node whose light neighbours
/// all have the degree that stands for none.
pub proof fn law_best_neighbor_is_lightest(g: GraphView, u: int)
    requires
        g.num_nodes <= u32::MAX,
        neighbors_exist(g),
        (forall|j: int|
            0 <= j < g.neighbors(u).len() ==> !light(g, u, #[trigger] g.neighbors(u)[j])) || (
        exists|j: int|
            0 <= j < g.neighbors(u).len() && joinable(g, u, #[trigger] g.neighbors(u)[j])),
    ensures
        best_neighbor(g, u) != u32::MAX ==> g.neighbors(u).contains(best_neighbor(g, u)) && light(
            g,
            u,
            best_neighbor(g, u),
        ),
        forall|j: int|
            0 <= j < g.neighbors(u).len() && light(g, u, #[trigger] g.neighbors(u)[j])
                ==> best_neighbor(g, u) != u32::MAX && degree32(g, best_neighbor(g, u) as int)
                <= degree32(g, g.neighbors(u)[j] as int),
{
    let nbrs = g.neighbors(u);
    lemma_lightest(g, u, nbrs);
    if exists|j: int| 0 <= j < nbrs.len() && joinable(g, u, #[trigger] nbrs[j]) {
        let j = choose|j: int| 0 <= j < nbrs.len() && joinable(g, u, #[trigger] nbrs[j]);
        assert(joinable(g, u, nbrs[j]));
    }
}

/// The neighbour of least degree among those that can be joined.
proof fn lemma_lightest(g: GraphView, u: int, nbrs: Seq<u32>)
    requires
        g.num_nodes <= u32::MAX,
        forall|j: int| 0 <= j < nbrs.len() ==> (#[trigger] nbrs[j]) < g.num_nodes,
    ensures
        ({
            let best = lightest(g, u, nbrs);
            &&& best.0 == u32::MAX <==> best.1 == u32::MAX
            &&& best.0 != u32::MAX ==> nbrs.contains(best.0) && light(g, u, best.0) && best.1
                == degree32(g, best.0 as int)
            &&& forall|j: int|
                0 <= j < nbrs.len() && joinable(g, u, #[trigger] nbrs[j]) ==> best.0 != u32::MAX
                    && best.1 <= degree32(g, nbrs[j] as int)
        }),
    decreases nbrs.len(),
{
    if nbrs.len() > 0 {
        let prev = nbrs.drop_last();
        lemma_lightest(g, u, prev);
        let v = nbrs.last();
        assert(nbrs[nbrs.len() - 1] < g.num_nodes);
        let best = lightest(g, u, nbrs);
        if best.0 != u32::MAX {
            if light(g, u, v) && degree32(g, v as int) < lightest(g, u, prev).1 {
                assert(nbrs[nbrs.len() - 1] == best.0);
            } else {
                let x = choose|x: int| 0 <= x < prev.len() && prev[x] == best.0;
                assert(nbrs[x] == best.0);
            }
        }
        assert forall|j: int| 0 <= j < nbrs.len() && joinable(g, u, #[trigger] nbrs[j]) implies best.0
            != u32::MAX && best.1 <= degree32(g, nbrs[j] as int) by {
            if j < prev.len() {
                assert(prev[j] == nbrs[j]);
            }
        }
    }
}

/// How many of the nodes below `k` are roots.
spec fn roots_below(roots: Seq<u32>, k: int) -> nat
    decreases k,
{
    if k <= 0 {
        0
    } else {
        roots_below(roots, k - 1) + if roots[k - 1] == k - 1 {
            1nat
        } else {
            0nat
        }
    }
}

proof fn lemma_roots_relinked(roots: Seq<u32>, from: u32, to: u32, k: int)
    requires
        is_root_map(roots),
        0 <= k <= roots.len(),
        from < roots.len(),
        to < roots.len(),
        roots[from as int] == from,
        roots[to as int] == to,
        from != to,
    ensures
        roots_below(roots, k) == roots_below(relink(roots, from, to), k) + (if from < k {
            1nat
        } else {
            0nat
        }),
    decreases k,
{
    if k > 0 {
        lemma_roots_relinked(roots, from, to, k - 1);
    }
}

proof fn lemma_roots_of_singletons(n: nat, k: int)
    requires
        0 <= k <= n <= u32::MAX,
    ensures
        roots_below(singletons(n), k) == k,
    decreases k,
{
    if k > 0 {
        lemma_roots_of_singletons(n, k - 1);
    }
}

proof fn lemma_some_root(roots: Seq<u32>, r: int, k: int)
    requires
        0 <= r < k <= roots.len(),
        roots[r] == r,
    ensures
        roots_below(roots, k) >= 1,
    decreases k,
{
    if k - 1 > r {
        lemma_some_root(roots, r, k - 1);
    }
}

/// Growing a forest keeps every node under a root and logs merges between
/// distinct nodes, one per root that went under another.
proof fn lemma_grow(n: nat, proposals: Seq<(u32, u32)>)
    requires
        n <= u32::MAX,
        merges_in_range(n, proposals),
    ensures
        ({
            let f = grow(n, proposals);
            &&& f.roots.len() == n
            &&& is_root_map(f.roots)
            &&& merges_in_range(n, f.log)
            &&& roots_below(f.roots, n as int) + f.log.len() == n
        }),
    decreases proposals.len(),
{
    if proposals.len() == 0 {
        lemma_roots_of_singletons(n, n as int);
    } else {
        let prev = proposals.drop_last();
        assert(merges_in_range(n, prev)) by {
            assert forall|i: int| 0 <= i < prev.len() implies (#[trigger] prev[i]).0 < n
                && prev[i].1 < n by {
                assert(proposals[i].0 < n);
            }
        }
        lemma_grow(n, prev);
        let f = grow(n, prev);
        let p = proposals.last();
        assert(proposals[proposals.len() - 1].0 < n);
        let ra = f.roots[p.0 as int];
        let rb = f.roots[p.1 as int];
        if ra != rb {
            let winner = if ra < rb {
                rb
            } else {
                ra
            };
            let loser = if ra < rb {
                ra
            } else {
                rb
            };
            lemma_roots_relinked(f.roots, loser, winner, n as int);
            let after = relink(f.roots, loser, winner);
            assert forall|i: int| 0 <= i < after.len() implies (#[trigger] after[i]) < after.len()
                && after[after[i] as int] == after[i] by {
                assert(f.roots[f.roots[i] as int] == f.roots[i]);
            }
            let log = f.log.push((winner, loser));
            assert forall|i: int| 0 <= i < log.len() implies (#[trigger] log[i]).0 < n && log[i].1
                < n by {
                if i < f.log.len() {
                    assert(f.log[i].0 < n);
                }
            }
        }
    }
}

proof fn lemma_node_proposals_in_range(g: GraphView, k: nat)
    requires
        neighbors_exist(g),
        k <= g.num_nodes <= u32::MAX,
    ensures
        merges_in_range(g.num_nodes, node_proposals(g, k)),
    decreases k,
{
    if k > 0 {
        lemma_node_proposals_in_range(g, (k - 1) as nat);
        lemma_lightest_in_range(g, k - 1, g.neighbors(k - 1));
        let before = node_proposals(g, (k - 1) as nat);
        let all = node_proposals(g, k);
        assert forall|i: int| 0 <= i < all.len() implies (#[trigger] all[i]).0 < g.num_nodes
            && all[i].1 < g.num_nodes by {
            if i < before.len() {
                assert(all[i] == before[i]);
            }
        }
    }
}

proof fn lemma_lightest_in_range(g: GraphView, u: int, nbrs: Seq<u32>)
    requires
        forall|j: int| 0 <= j < nbrs.len() ==> (#[trigger] nbrs[j]) < g.num_nodes,
    ensures
        lightest(g, u, nbrs).0 == u32::MAX || lightest(g, u, nbrs).0 < g.num_nodes,
    decreases nbrs.len(),
{
    if nbrs.len() > 0 {
        lemma_lightest_in_range(g, u, nbrs.drop_last());
        assert(nbrs[nbrs.len() - 1] < g.num_nodes);
    }
}

proof fn lemma_edges_proposed_in_range(g: GraphView, u: int, nbrs: Seq<u32>)
    requires
        0 <= u < g.num_nodes <= u32::MAX,
        forall|j: int| 0 <= j < nbrs.len() ==> (#[trigger] nbrs[j]) < g.num_nodes,
    ensures
        merges_in_range(g.num_nodes, edges_proposed(g, u, nbrs)),
    decreases nbrs.len(),
{
    if nbrs.len() > 0 {
        lemma_edges_proposed_in_range(g, u, nbrs.drop_last());
        assert(nbrs[nbrs.len() - 1] < g.num_nodes);
        let before = edges_proposed(g, u, nbrs.drop_last());
        let all = edges_proposed(g, u, nbrs);
        assert forall|i: int| 0 <= i < all.len() implies (#[trigger] all[i]).0 < g.num_nodes
            && all[i].1 < g.num_nodes by {
            if i < before.len() {
                assert(all[i] == before[i]);
            }
        }
    }
}

proof fn lemma_edge_proposals_in_range(g: GraphView, k: nat)
    requires
        neighbors_exist(g),
        k <= g.num_nodes <= u32::MAX,
    ensures
        merges_in_range(g.num_nodes, edge_proposals(g, k)),
    decreases k,
{
    if k > 0 {
        lemma_edge_proposals_in_range(g, (k - 1) as nat);
        lemma_edges_proposed_in_range(g, k - 1, g.neighbors(k - 1));
        lemma_in_range_concat(
            g.num_nodes,
            edge_proposals(g, (k - 1) as nat),
            edges_proposed(g, k - 1, g.neighbors(k - 1)),
        );
    }
}

proof fn lemma_in_range_concat(n: nat, a: Seq<(u32, u32)>, b: Seq<(u32, u32)>)
    requires
        merges_in_range(n, a),
        merges_in_range(n, b),
    ensures
        merges_in_range(n, a + b),
{
    let all = a + b;
    assert forall|i: int| 0 <= i < all.len() implies (#[trigger] all[i]).0 < n && all[i].1 < n by {
        if i < a.len() {
            assert(all[i] == a[i]);
        } else {
            assert(all[i] == b[i - a.len()]);
        }
    }
}

/// Rabbit Order merges nodes of the graph, and fewer times than there are
/// nodes: a forest over `n` leaves has at most `n - 1` inner nodes.
pub proof fn law_rabbit_log_is_short(g: GraphView)
    requires
        reorderable(g),
    ensures
        merges_in_range(g.num_nodes, rabbit_log(g)),
        g.num_nodes > 0 ==> rabbit_log(g).len() < g.num_nodes,
        g.num_nodes == 0 ==> rabbit_log(g).len() == 0,
{
    let n = g.num_nodes;
    if n > 1 && g.num_edges != 0 {
        lemma_node_proposals_in_range(g, n);
        lemma_edge_proposals_in_range(g, n);
        let all = node_proposals(g, n) + edge_proposals(g, n);
        lemma_in_range_concat(n, node_proposals(g, n), edge_proposals(g, n));
        lemma_grow(n, all);
        let roots = grow(n, all).roots;
        assert(roots[0] < n && roots[roots[0] as int] == roots[0]);
        lemma_some_root(roots, roots[0] as int, n as int);
    }
}

/// One more proposal.
proof fn lemma_grow_push(n: nat, proposals: Seq<(u32, u32)>, p: (u32, u32))
    ensures
        grow(n, proposals.push(p)) == propose(grow(n, proposals), p),
{
    assert(proposals.push(p).drop_last() =~= proposals);
}

/// Merge log of Rabbit Order.
#[derive(Debug, Clone, PartialEq, Eq)]
pub struct RabbitMergeLog {
    pub merges: Vec<(u32, u32)>,
}

/// Takes the proposal to join `u` and `v`.
fn take_proposal(
    uf: &mut IdUnionFind,
    merges: &mut Vec<(u32, u32)>,
    u: u32,
    v: u32,
    Ghost(f): Ghost<Forest>,
)
    requires
        old(uf).wf(),
        old(uf)@ == f.roots,
        old(merges)@ == f.log,
        u < f.roots.len(),
        v < f.roots.len(),
    ensures
        final(uf).wf(),
        final(uf)@ == propose(f, (u, v)).roots,
        final(merges)@ == propose(f, (u, v)).log,
{
    if let Some(m) = uf.union(u, v) {
        merges.push(m);
    }
}

impl Graph {
    /// The neighbour that `u` proposes to join, `u32::MAX` for none.
    fn pick_neighbor(&self, u: u32, degrees: &Vec<u32>) -> (v: u32)
        requires
            self@.shaped(),
            neighbors_exist(self@),
            u < self@.num_nodes <= u32::MAX,
            degrees@ == Seq::new(self@.num_nodes, |i: int| degree32(self@, i)),
        ensures
            v == best_neighbor(self@, u as int),
    {
        let neighbors = self.neighbors(u);
        let m: u64 = self.num_edges() as u64;
        let deg_u: u64 = degrees[u as usize] as u64;
        let max_deg_v: u64 = if deg_u == 0 {
            m
        } else {
            m / deg_u
        };
        let mut best_v: u32 = u32::MAX;
        let mut best_deg: u32 = u32::MAX;
        let mut j: usize = 0;
        assert(neighbors@.take(0) =~= Seq::empty());
        while j < neighbors.len()
            invariant
                j <= neighbors@.len(),
                degrees@ == Seq::new(self@.num_nodes, |i: int| degree32(self@, i)),
                neighbors@ == self@.neighbors(u as int),
                forall|j: int|
                    0 <= j < neighbors@.len() ==> (#[trigger] neighbors@[j]) < self@.num_nodes,
                max_deg_v == heavy_from(self@, u as int),
                (best_v, best_deg) == lightest(self@, u as int, neighbors@.take(j as int)),
            decreases neighbors@.len() - j,
        {
            let v = neighbors[j];
            let dv = degrees[v as usize];
            assert(neighbors@.take(j + 1).drop_last() =~= neighbors@.take(j as int));
            if (dv as u64) < max_deg_v && dv < best_deg {
                best_deg = dv;
                best_v = v;
            }
            j += 1;
        }
        assert(neighbors@.take(j as int) =~= neighbors@);
        best_v
    }

    /// Runs the merge phases of Rabbit Order and returns the ordered merge log;
    /// nothing for a graph without two nodes or without edges.
    pub fn rabbit_merge(&self) -> (log: Option<RabbitMergeLog>)
        requires
            reorderable(self@),
        ensures
            log is None <==> (self@.num_nodes <= 1 || self@.num_edges == 0),
            log matches Some(l) ==> l.merges@ == rabbit_log(self@),
    {
        let n = self.num_nodes();
        if n <= 1 || self.num_edges() == 0 {
            return None;
        }
        let ghost g = self@;
        let degrees = self.degrees();
        assert(degrees@ =~= Seq::new(g.num_nodes, |i: int| degree32(g, i)));
        let m: u64 = self.num_edges() as u64;
        let mut uf = IdUnionFind::new(n);
        let mut merges: Vec<(u32, u32)> = Vec::new();
        let ghost mut taken: Seq<(u32, u32)> = Seq::empty();
        let mut u: usize = 0;
        while u < n
            invariant
                u <= n == g.num_nodes <= u32::MAX,
                g == self@,
                g.shaped(),
                neighbors_exist(g),
                degrees@ == Seq::new(g.num_nodes, |i: int| degree32(g, i)),
                taken == node_proposals(g, u as nat),
                uf.wf(),
                uf@ == grow(n as nat, taken).roots,
                merges@ == grow(n as nat, taken).log,
            decreases n - u,
        {
            let v = self.pick_neighbor(u as u32, &degrees);
            if v != u32::MAX {
                proof {
                    lemma_node_proposals_in_range(g, u as nat);
                    lemma_grow(n as nat, taken);
                    lemma_lightest_in_range(g, u as int, g.neighbors(u as int));
                    lemma_grow_push(n as nat, taken, (u as u32, v));
                }
                take_proposal(&mut uf, &mut merges, u as u32, v, Ghost(grow(n as nat, taken)));
                proof {
                    taken = taken.push((u as u32, v));
                }
            }
            u += 1;
        }
        let ghost first = node_proposals(g, n as nat);
        assert(taken =~= first + edge_proposals(g, 0));
        let mut u: usize = 0;
        while u < n
            invariant
                u <= n == g.num_nodes <= u32::MAX,
                g == self@,
                g.shaped(),
                neighbors_exist(g),
                m == g.num_edges,
                degrees@ == Seq::new(g.num_nodes, |i: int| degree32(g, i)),
                first == node_proposals(g, n as nat),
                taken == first + edge_proposals(g, u as nat),
                uf.wf(),
                uf@ == grow(n as nat, taken).roots,
                merges@ == grow(n as nat, taken).log,
            decreases n - u,
        {
            let neighbors = self.neighbors(u as u32);
            let deg_u: u64 = degrees[u] as u64;
            let max_deg_v: u64 = if deg_u == 0 {
                m
            } else {
                m / deg_u
            };
            let ghost before = taken;
            proof {
                lemma_node_proposals_in_range(g, n as nat);
                lemma_edge_proposals_in_range(g, u as nat);
                lemma_in_range_concat(n as nat, first, edge_proposals(g, u as nat));
            }
            let mut j: usize = 0;
            assert(neighbors@.take(0) =~= Seq::empty());
            assert(taken =~= before + edges_proposed(g, u as int, neighbors@.take(0)));
            while j < neighbors.len()
                invariant
                    j <= neighbors@.len(),
                    u < n == g.num_nodes <= u32::MAX,
                    neighbors_exist(g),
                    degrees@ == Seq::new(g.num_nodes, |i: int| degree32(g, i)),
                    neighbors@ == g.neighbors(u as int),
                    forall|j: int|
                        0 <= j < neighbors@.len() ==> (#[trigger] neighbors@[j]) < g.num_nodes,
                    max_deg_v == heavy_from(g, u as int),
                    merges_in_range(n as nat, before),
                    taken == before + edges_proposed(g, u as int, neighbors@.take(j as int)),
                    uf.wf(),
                    uf@ == grow(n as nat, taken).roots,
                    merges@ == grow(n as nat, taken).log,
                decreases neighbors@.len() - j,
            {
                let v = neighbors[j];
                assert(neighbors@.take(j + 1).drop_last() =~= neighbors@.take(j as int));
                if (u as u32) < v && (degrees[v as usize] as u64) < max_deg_v {
                    proof {
                        lemma_edges_proposed_in_range(g, u as int, neighbors@.take(j as int));
                        lemma_in_range_concat(
                            n as nat,
                            before,
                            edges_proposed(g, u as int, neighbors@.take(j as int)),
                        );
                        lemma_grow(n as nat, taken);
                        lemma_grow_push(n as nat, taken, (u as u32, v));
                    }
                    take_proposal(&mut uf, &mut merges, u as u32, v, Ghost(grow(n as nat, taken)));
                    proof {
                        taken = taken.push((u as u32, v));
                        assert(taken =~= before + edges_proposed(
                            g,
                            u as int,
                            neighbors@.take(j + 1),
                        ));
                    }
                }
                j += 1;
            }
            assert(neighbors@.take(j as int) =~= neighbors@);
            assert(taken =~= first + edge_proposals(g, (u + 1) as nat));
            u += 1;
        }
        Some(RabbitMergeLog { merges })
    }

    /// The merge log, empty where nothing is merged.
    fn merge_log(&self) -> (merges: Vec<(u32, u32)>)
        requires
            reorderable(self@),
        ensures
            merges@ == rabbit_log(self@),
    {
        match self.rabbit_merge() {
            Some(log) => log.merges,
            None => {
                let none: Vec<(u32, u32)> = Vec::new();
                assert(none@ =~= rabbit_log(self@));
                none
            },
        }
    }

    /// Computes the Rabbit Order permutation: `perm[new_id] = old_id`.
    ///
    /// Inner nodes of the merge tree are numbered behind the nodes in `u32`,
    /// which bounds the graph to about 2.1 billion nodes.
    pub fn reorder_rabbit(&self) -> (perm: Vec<NodeId>)
        requires
            reorderable(self@),
            self@.num_nodes + rabbit_log(self@).len() <= u32::MAX,
        ensures
            perm@ == visit_order(
                communities(self@.num_nodes, rabbit_log(self@)),
                self@.num_nodes as int,
            ),
            is_permutation(perm@, self@.num_nodes),
    {
        proof {
            law_rabbit_log_is_short(self@);
        }
        let merges = self.merge_log();
        community_order(self.num_nodes(), merges.as_slice())
    }

    /// Computes the community of every node. Community numbers are dense, in
    /// the order of the smallest nodes.
    pub fn rabbit_partitions(&self) -> (partitions: Vec<u32>)
        requires
            reorderable(self@),
        ensures
            dense_ids(
                communities(self@.num_nodes, rabbit_log(self@)),
                self@.num_nodes as int,
                partitions@,
            ),
    {
        proof {
            law_rabbit_log_is_short(self@);
        }
        let merges = self.merge_log();
        community_ids(self.num_nodes(), merges.as_slice())
    }

    /// Computes the permutation and the communities from one run of the merge
    /// phases.
    pub fn reorder_rabbit_with_partitions(&self) -> (r: (Vec<NodeId>, Vec<u32>))
        requires
            reorderable(self@),
            self@.num_nodes + rabbit_log(self@).len() <= u32::MAX,
        ensures
            r.0@ == visit_order(
                communities(self@.num_nodes, rabbit_log(self@)),
                self@.num_nodes as int,
            ),
            is_permutation(r.0@, self@.num_nodes),
            dense_ids(
                communities(self@.num_nodes, rabbit_log(self@)),
                self@.num_nodes as int,
                r.1@,
            ),
    {
        proof {
            law_rabbit_log_is_short(self@);
        }
        let merges = self.merge_log();
        community_order_and_ids(self.num_nodes(), merges.as_slice())
    }
}

/// Whether an edge leads from `u` to `v` and `v` is light enough for it.
spec fn links(g: GraphView, u: u32, v: u32) -> bool {
    g.neighbors(u as int).contains(v) && light(g, u as int, v)
}

/// Every step of the path goes along a light edge, one way or the other.
spec fn is_path(g: GraphView, path: Seq<u32>) -> bool {
    forall|k: int|
        #![trigger path[k]]
        0 <= k < path.len() - 1 ==> links(g, path[k], path[k + 1]) || links(
            g,
            path[k + 1],
            path[k],
        )
}

/// Every proposal goes along a light edge.
spec fn all_link(g: GraphView, proposals: Seq<(u32, u32)>) -> bool {
    forall|i: int|
        0 <= i < proposals.len() ==> links(g, (#[trigger] proposals[i]).0, proposals[i].1)
}

proof fn lemma_node_proposals_link(g: GraphView, k: nat)
    requires
        neighbors_exist(g),
        k <= g.num_nodes <= u32::MAX,
    ensures
        all_link(g, node_proposals(g, k)),
    decreases k,
{
    if k > 0 {
        lemma_node_proposals_link(g, (k - 1) as nat);
        lemma_lightest(g, k - 1, g.neighbors(k - 1));
        let before = node_proposals(g, (k - 1) as nat);
        let all = node_proposals(g, k);
        assert forall|i: int| 0 <= i < all.len() implies links(
            g,
            (#[trigger] all[i]).0,
            all[i].1,
        ) by {
            if i < before.len() {
                assert(all[i] == before[i]);
            }
        }
    }
}

proof fn lemma_edges_proposed_link(g: GraphView, u: int, nbrs: Seq<u32>)
    requires
        0 <= u < g.num_nodes <= u32::MAX,
        forall|j: int|
            0 <= j < nbrs.len() ==> g.neighbors(u).contains(#[trigger] nbrs[j]),
    ensures
        all_link(g, edges_proposed(g, u, nbrs)),
    decreases nbrs.len(),
{
    if nbrs.len() > 0 {
        let prev = nbrs.drop_last();
        assert forall|j: int| 0 <= j < prev.len() implies g.neighbors(u).contains(
            #[trigger] prev[j],
        ) by {
            assert(prev[j] == nbrs[j]);
        }
        lemma_edges_proposed_link(g, u, prev);
        let before = edges_proposed(g, u, prev);
        let all = edges_proposed(g, u, nbrs);
        assert(g.neighbors(u).contains(nbrs[nbrs.len() - 1]));
        assert forall|i: int| 0 <= i < all.len() implies links(
            g,
            (#[trigger] all[i]).0,
            all[i].1,
        ) by {
            if i < before.len() {
                assert(all[i] == before[i]);
            }
        }
    }
}

proof fn lemma_edge_proposals_link(g: GraphView, k: nat)
    requires
        k <= g.num_nodes <= u32::MAX,
    ensures
        all_link(g, edge_proposals(g, k)),
    decreases k,
{
    if k > 0 {
        lemma_edge_proposals_link(g, (k - 1) as nat);
        let nbrs = g.neighbors(k - 1);
        assert forall|j: int| 0 <= j < nbrs.len() implies g.neighbors(k - 1).contains(
            #[trigger] nbrs[j],
        ) by {}
        lemma_edges_proposed_link(g, k - 1, nbrs);
        let before = edge_proposals(g, (k - 1) as nat);
        let own = edges_proposed(g, k - 1, nbrs);
        let all = edge_proposals(g, k);
        assert forall|i: int| 0 <= i < all.len() implies links(
            g,
            (#[trigger] all[i]).0,
            all[i].1,
        ) by {
            if i < before.len() {
                assert(all[i] == before[i]);
            } else {
                assert(all[i] == own[i - before.len()]);
            }
        }
    }
}

/// All proposals of Rabbit Order, in the order in which they are taken.
spec fn all_proposals(g: GraphView) -> Seq<(u32, u32)> {
    node_proposals(g, g.num_nodes) + edge_proposals(g, g.num_nodes)
}

proof fn lemma_all_proposals(g: GraphView)
    requires
        neighbors_exist(g),
        g.num_nodes <= u32::MAX,
    ensures
        merges_in_range(g.num_nodes, all_proposals(g)),
        all_link(g, all_proposals(g)),
{
    let n = g.num_nodes;
    let first = node_proposals(g, n);
    let second = edge_proposals(g, n);
    let all = all_proposals(g);
    lemma_node_proposals_in_range(g, n);
    lemma_edge_proposals_in_range(g, n);
    lemma_in_range_concat(n, first, second);
    lemma_node_proposals_link(g, n);
    lemma_edge_proposals_link(g, n);
    assert forall|i: int| 0 <= i < all.len() implies links(g, (#[trigger] all[i]).0, all[i].1) by {
        if i < first.len() {
            assert(all[i] == first[i]);
        } else {
            assert(all[i] == second[i - first.len()]);
        }
    }
}

proof fn lemma_in_range_prefix(n: nat, proposals: Seq<(u32, u32)>)
    requires
        merges_in_range(n, proposals),
        proposals.len() > 0,
    ensures
        merges_in_range(n, proposals.drop_last()),
        proposals.last().0 < n,
        proposals.last().1 < n,
{
    assert(proposals[proposals.len() - 1].0 < n);
    assert forall|i: int| 0 <= i < proposals.drop_last().len() implies (
    #[trigger] proposals.drop_last()[i]).0 < n && proposals.drop_last()[i].1 < n by {
        assert(proposals[i].0 < n);
    }
}

/// The forest and the communities of its log agree: two nodes have one root
/// exactly if they are in one community, and a root is the largest node under it.
proof fn lemma_forest_communities(n: nat, proposals: Seq<(u32, u32)>)
    requires
        n <= u32::MAX,
        merges_in_range(n, proposals),
    ensures
        ({
            let f = grow(n, proposals);
            let c = communities(n, f.log);
            &&& f.roots.len() == n
            &&& c.len() == n
            &&& merges_in_range(n, f.log)
            &&& is_root_map(f.roots)
            &&& forall|a: int, b: int|
                0 <= a < n && 0 <= b < n ==> (#[trigger] f.roots[a] == #[trigger] f.roots[b]
                    <==> c[a] == c[b])
            &&& forall|a: int| 0 <= a < n ==> a <= #[trigger] f.roots[a]
        }),
    decreases proposals.len(),
{
    let f = grow(n, proposals);
    let c = communities(n, f.log);
    lemma_grow(n, proposals);
    lemma_communities_partition(n, f.log);
    if proposals.len() == 0 {
        assert forall|a: int, b: int| 0 <= a < n && 0 <= b < n implies (#[trigger] f.roots[a]
            == #[trigger] f.roots[b] <==> c[a] == c[b]) by {
            assert(c[a][0] == a as u32 && c[b][0] == b as u32);
        }
    } else {
        let prev = proposals.drop_last();
        lemma_in_range_prefix(n, proposals);
        lemma_forest_communities(n, prev);
        let f0 = grow(n, prev);
        let c0 = communities(n, f0.log);
        lemma_communities_partition(n, f0.log);
        let p = proposals.last();
        let ra = f0.roots[p.0 as int];
        let rb = f0.roots[p.1 as int];
        if ra != rb {
            let winner = if ra < rb {
                rb
            } else {
                ra
            };
            let loser = if ra < rb {
                ra
            } else {
                rb
            };
            assert(f0.roots[ra as int] == ra && f0.roots[rb as int] == rb);
            assert(f.log.drop_last() =~= f0.log);
            assert(c == joined(c0, winner, loser));
            let w = c0[winner as int];
            let l = c0[loser as int];
            assert(w != l);
            assert forall|a: int, b: int| 0 <= a < n && 0 <= b < n implies (#[trigger] f.roots[a]
                == #[trigger] f.roots[b] <==> c[a] == c[b]) by {
                lemma_joined_apart(c0, winner, loser, a);
                lemma_joined_apart(c0, winner, loser, b);
                assert(f0.roots[a] == f0.roots[winner as int] <==> c0[a] == w);
                assert(f0.roots[a] == f0.roots[loser as int] <==> c0[a] == l);
                assert(f0.roots[b] == f0.roots[winner as int] <==> c0[b] == w);
                assert(f0.roots[b] == f0.roots[loser as int] <==> c0[b] == l);
                assert(f0.roots[a] == f0.roots[b] <==> c0[a] == c0[b]);
            }
            assert forall|a: int| 0 <= a < n implies a <= #[trigger] f.roots[a] by {
                assert(a <= f0.roots[a]);
            }
        }
    }
}

/// A community that takes no part in a merge is none of its making.
proof fn lemma_joined_apart(groups: Seq<Seq<u32>>, winner: u32, loser: u32, a: int)
    requires
        is_partition(groups),
        winner < groups.len() <= u32::MAX,
        loser < groups.len(),
        0 <= a < groups.len(),
    ensures
        groups[a] != groups[winner as int] ==> groups[a] != groups[winner as int]
            + groups[loser as int],
{
    let w = groups[winner as int];
    let m = w + groups[loser as int];
    if groups[a] == m {
        assert(w.contains(winner));
        let k = choose|k: int| 0 <= k < w.len() && w[k] == winner;
        assert(m[k] == winner);
        assert(groups[a][k] == winner);
        assert(groups[groups[a][k] as int] == groups[a]);
    }
}

/// Nodes under one root are linked by light edges.
proof fn lemma_one_root_is_linked(
    g: GraphView,
    n: nat,
    proposals: Seq<(u32, u32)>,
    a: u32,
    b: u32,
) -> (path: Seq<u32>)
    requires
        n <= u32::MAX,
        merges_in_range(n, proposals),
        all_link(g, proposals),
        a < n,
        b < n,
        grow(n, proposals).roots[a as int] == grow(n, proposals).roots[b as int],
    ensures
        path.len() > 0,
        path[0] == a,
        path[path.len() - 1] == b,
        is_path(g, path),
    decreases proposals.len(),
{
    if proposals.len() == 0 {
        seq![a]
    } else {
        let prev = proposals.drop_last();
        lemma_in_range_prefix(n, proposals);
        assert(all_link(g, prev)) by {
            assert forall|i: int| 0 <= i < prev.len() implies links(
                g,
                (#[trigger] prev[i]).0,
                prev[i].1,
            ) by {
                assert(prev[i] == proposals[i]);
            }
        }
        lemma_grow(n, prev);
        let f0 = grow(n, prev);
        let p = proposals.last();
        assert(links(g, proposals[proposals.len() - 1].0, p.1));
        if f0.roots[a as int] == f0.roots[b as int] {
            lemma_one_root_is_linked(g, n, prev, a, b)
        } else if f0.roots[a as int] == f0.roots[p.0 as int] {
            let front = lemma_one_root_is_linked(g, n, prev, a, p.0);
            let back = lemma_one_root_is_linked(g, n, prev, p.1, b);
            lemma_paths_meet(g, front, back);
            front + back
        } else {
            let front = lemma_one_root_is_linked(g, n, prev, a, p.1);
            let back = lemma_one_root_is_linked(g, n, prev, p.0, b);
            lemma_paths_meet(g, front, back);
            front + back
        }
    }
}

proof fn lemma_paths_meet(g: GraphView, front: Seq<u32>, back: Seq<u32>)
    requires
        is_path(g, front),
        is_path(g, back),
        front.len() > 0,
        back.len() > 0,
        links(g, front[front.len() - 1], back[0]) || links(g, back[0], front[front.len() - 1]),
    ensures
        is_path(g, front + back),
{
    let path = front + back;
    assert forall|k: int|
        #![trigger path[k]]
        0 <= k < path.len() - 1 implies links(g, path[k], path[k + 1]) || links(
        g,
        path[k + 1],
        path[k],
    ) by {
        if k < front.len() - 1 {
            assert(path[k] == front[k] && path[k + 1] == front[k + 1]);
        } else if k >= front.len() {
            assert(path[k] == back[k - front.len()] && path[k + 1] == back[k + 1 - front.len()]);
        } else {
            assert(path[k] == front[k] && path[k + 1] == back[0]);
        }
    }
}

/// Every merge is justified by a light edge: two nodes share a community only if
/// a chain of edges links them in which each edge, from some `u` to some `v`, has
/// a destination whose degree is below the number of edges divided by the degree
/// of `u` (or by one where that is zero). The chain is returned.
pub proof fn law_one_community_is_linked(g: GraphView, a: u32, b: u32) -> (path: Seq<u32>)
    requires
        reorderable(g),
        a < g.num_nodes,
        b < g.num_nodes,
        communities(g.num_nodes, rabbit_log(g))[a as int] == communities(
            g.num_nodes,
            rabbit_log(g),
        )[b as int],
    ensures
        path.len() > 0,
        path[0] == a,
        path[path.len() - 1] == b,
        ({
            let deg = |x: u32| g.degree(x as int) as u32;
            let light_edge = |u: u32, v: u32|
                g.neighbors(u as int).contains(v) && deg(v) < g.num_edges / (if deg(u) == 0 {
                    1
                } else {
                    deg(u) as nat
                });
            forall|k: int|
                #![trigger path[k]]
                0 <= k < path.len() - 1 ==> light_edge(path[k], path[k + 1]) || light_edge(
                    path[k + 1],
                    path[k],
                )
        }),
{
    let n = g.num_nodes;
    if n <= 1 || g.num_edges == 0 {
        let c = alone(n);
        assert(c[a as int][0] == a && c[b as int][0] == b);
        seq![a]
    } else {
        lemma_all_proposals(g);
        lemma_forest_communities(n, all_proposals(g));
        let f = grow(n, all_proposals(g));
        assert(f.roots[a as int] == f.roots[b as int]);
        let path = lemma_one_root_is_linked(g, n, all_proposals(g), a, b);
        assert forall|k: int|
            #![trigger path[k]]
            0 <= k < path.len() - 1 implies links(g, path[k], path[k + 1]) || links(
            g,
            path[k + 1],
            path[k],
        ) by {}
        path
    }
}

/// Two nodes get one partition number only if a chain of light edges links them.
pub proof fn law_one_partition_is_linked(g: GraphView, ids: Seq<u32>, a: u32, b: u32) -> (path:
    Seq<u32>)
    requires
        reorderable(g),
        dense_ids(communities(g.num_nodes, rabbit_log(g)), g.num_nodes as int, ids),
        a < g.num_nodes,
        b < g.num_nodes,
        ids[a as int] == ids[b as int],
    ensures
        path.len() > 0,
        path[0] == a,
        path[path.len() - 1] == b,
        ({
            let deg = |x: u32| g.degree(x as int) as u32;
            let light_edge = |u: u32, v: u32|
                g.neighbors(u as int).contains(v) && deg(v) < g.num_edges / (if deg(u) == 0 {
                    1
                } else {
                    deg(u) as nat
                });
            forall|k: int|
                #![trigger path[k]]
                0 <= k < path.len() - 1 ==> light_edge(path[k], path[k + 1]) || light_edge(
                    path[k + 1],
                    path[k],
                )
        }),
{
    law_rabbit_log_is_short(g);
    lemma_communities_partition(g.num_nodes, rabbit_log(g));
    law_same_id_means_same_community(
        communities(g.num_nodes, rabbit_log(g)),
        ids,
        a as int,
        b as int,
    );
    law_one_community_is_linked(g, a, b)
}

/// Once two nodes are under one root they stay so, and every proposal that was
/// taken has its ends under one root.
proof fn lemma_proposals_hold(n: nat, proposals: Seq<(u32, u32)>, i: int)
    requires
        n <= u32::MAX,
        merges_in_range(n, proposals),
        0 <= i < proposals.len(),
    ensures
        grow(n, proposals).roots[proposals[i].0 as int] == grow(
            n,
            proposals,
        ).roots[proposals[i].1 as int],
    decreases proposals.len(),
{
    lemma_in_range_prefix(n, proposals);
    let prev = proposals.drop_last();
    lemma_grow(n, prev);
    assert(proposals[i].0 < n && proposals[i].1 < n);
    if i < prev.len() {
        assert(prev[i] == proposals[i]);
        lemma_proposals_hold(n, prev, i);
    }
}

/// Every light edge to a node of larger id joins its ends: where the degree of
/// the destination is below the number of edges divided by the degree of the
/// source (or by one where that is zero), both are in one community.
pub proof fn law_light_edges_join(g: GraphView, u: u32, v: u32)
    requires
        reorderable(g),
        g.num_nodes > 1,
        u < g.num_nodes,
        u < v,
        g.neighbors(u as int).contains(v),
        (g.degree(v as int) as u32) < g.num_edges / (if g.degree(u as int) as u32 == 0 {
            1
        } else {
            (g.degree(u as int) as u32) as nat
        }),
    ensures
        communities(g.num_nodes, rabbit_log(g))[u as int] == communities(
            g.num_nodes,
            rabbit_log(g),
        )[v as int],
{
    let n = g.num_nodes;
    let j = choose|j: int| 0 <= j < g.neighbors(u as int).len() && g.neighbors(u as int)[j] == v;
    assert(g.neighbors(u as int)[j] < n);
    assert(light(g, u as int, v));
    assert(g.num_edges != 0) by {
        if g.num_edges == 0 {
            assert(g.neighbors(u as int).len() <= g.edges.len());
        }
    }
    lemma_all_proposals(g);
    lemma_forest_communities(n, all_proposals(g));
    let places = law_edge_proposals_in_order(g);
    assert(places.contains((u as int, j)));
    let i = choose|i: int| 0 <= i < places.len() && places[i] == (u as int, j);
    let k = node_proposals(g, n).len() + i;
    assert(all_proposals(g)[k as int] == edge_proposals(g, n)[i]);
    lemma_proposals_hold(n, all_proposals(g), k as int);
    let f = grow(n, all_proposals(g));
    assert(f.roots[u as int] == f.roots[v as int]);
}

/// A node and the neighbour that it proposes to join are in one community.
pub proof fn law_best_neighbor_joins(g: GraphView, u: u32)
    requires
        reorderable(g),
        g.num_nodes > 1,
        g.num_edges > 0,
        u < g.num_nodes,
        best_neighbor(g, u as int) != u32::MAX,
    ensures
        best_neighbor(g, u as int) < g.num_nodes,
        communities(g.num_nodes, rabbit_log(g))[u as int] == communities(
            g.num_nodes,
            rabbit_log(g),
        )[best_neighbor(g, u as int) as int],
{
    let n = g.num_nodes;
    let v = best_neighbor(g, u as int);
    lemma_lightest_in_range(g, u as int, g.neighbors(u as int));
    lemma_all_proposals(g);
    lemma_forest_communities(n, all_proposals(g));
    law_node_proposals_in_order(g);
    let first = node_proposals(g, n);
    assert(first.contains((u, best_neighbor(g, u as int))));
    let i = choose|i: int| 0 <= i < first.len() && first[i] == (u, v);
    assert(all_proposals(g)[i] == first[i]);
    lemma_proposals_hold(n, all_proposals(g), i);
    let f = grow(n, all_proposals(g));
    assert(f.roots[u as int] == f.roots[v as int]);
}

/// The neighbour that a node proposes to join is the first one of least degree
/// among those whose degree is below the number of edges divided by the degree
/// of the node (or by one where that is zero); its place is returned. Where the
/// node proposes none, it has no such neighbour, unless of the degree that stands
/// for none.
pub proof fn law_node_picks_the_first_lightest(g: GraphView, u: int) -> (place: int)
    requires
        g.num_nodes <= u32::MAX,
        neighbors_exist(g),
    ensures
        ({
            let nbrs = g.neighbors(u);
            let best = best_neighbor(g, u);
            let deg = |x: u32| g.degree(x as int) as u32;
            let own = g.degree(u) as u32;
            let fits = |v: u32|
                deg(v) < u32::MAX && deg(v) < g.num_edges / (if own == 0 {
                    1
                } else {
                    own as nat
                });
            &&& best == u32::MAX ==> forall|j: int|
                0 <= j < nbrs.len() ==> !fits(#[trigger] nbrs[j])
            &&& best != u32::MAX ==> 0 <= place < nbrs.len() && nbrs[place] == best && fits(best)
            &&& best != u32::MAX ==> forall|j: int|
                0 <= j < nbrs.len() && fits(#[trigger] nbrs[j]) ==> deg(best) <= deg(nbrs[j]) && (j
                    < place ==> deg(best) < deg(nbrs[j]))
        }),
{
    lemma_first_lightest(g, u, g.neighbors(u))
}

proof fn lemma_first_lightest(g: GraphView, u: int, nbrs: Seq<u32>) -> (place: int)
    requires
        g.num_nodes <= u32::MAX,
        forall|j: int| 0 <= j < nbrs.len() ==> (#[trigger] nbrs[j]) < g.num_nodes,
    ensures
        ({
            let best = lightest(g, u, nbrs);
            &&& best.0 == u32::MAX <==> best.1 == u32::MAX
            &&& best.0 == u32::MAX ==> forall|j: int|
                0 <= j < nbrs.len() ==> !joinable(g, u, #[trigger] nbrs[j])
            &&& best.0 != u32::MAX ==> 0 <= place < nbrs.len() && nbrs[place] == best.0 && joinable(
                g,
                u,
                best.0,
            ) && best.1 == degree32(g, best.0 as int)
            &&& best.0 != u32::MAX ==> forall|j: int|
                0 <= j < nbrs.len() && joinable(g, u, #[trigger] nbrs[j]) ==> best.1 <= degree32(
                    g,
                    nbrs[j] as int,
                ) && (j < place ==> best.1 < degree32(g, nbrs[j] as int))
        }),
    decreases nbrs.len(),
{
    if nbrs.len() == 0 {
        0
    } else {
        let prev = nbrs.drop_last();
        let before = lemma_first_lightest(g, u, prev);
        let v = nbrs.last();
        assert(nbrs[nbrs.len() - 1] < g.num_nodes);
        let taken = light(g, u, v) && degree32(g, v as int) < lightest(g, u, prev).1;
        let place = if taken {
            nbrs.len() - 1
        } else {
            before
        };
        let best = lightest(g, u, nbrs);
        assert forall|j: int| 0 <= j < nbrs.len() && joinable(g, u, #[trigger] nbrs[j]) implies best.0
            != u32::MAX && best.1 <= degree32(g, nbrs[j] as int) && (j < place ==> best.1
            < degree32(g, nbrs[j] as int)) by {
            if j < prev.len() {
                assert(prev[j] == nbrs[j]);
            }
        }
        place
    }
}

/// The nodes that have a neighbour to propose do so, once each, in ascending
/// order.
pub proof fn law_node_proposals_in_order(g: GraphView)
    requires
        g.num_nodes <= u32::MAX,
    ensures
        ({
            let all = node_proposals(g, g.num_nodes);
            &&& forall|i: int, j: int| 0 <= i < j < all.len() ==> all[i].0 < all[j].0
            &&& forall|i: int|
                0 <= i < all.len() ==> (#[trigger] all[i]).0 < g.num_nodes && all[i].1
                    == best_neighbor(g, all[i].0 as int) && all[i].1 != u32::MAX
            &&& forall|u: u32|
                u < g.num_nodes && #[trigger] best_neighbor(g, u as int) != u32::MAX
                    ==> all.contains((u, best_neighbor(g, u as int)))
        }),
{
    lemma_node_proposals_in_order(g, g.num_nodes);
}

proof fn lemma_node_proposals_in_order(g: GraphView, k: nat)
    requires
        k <= g.num_nodes <= u32::MAX,
    ensures
        ({
            let all = node_proposals(g, k);
            &&& forall|i: int, j: int| 0 <= i < j < all.len() ==> all[i].0 < all[j].0
            &&& forall|i: int|
                0 <= i < all.len() ==> (#[trigger] all[i]).0 < k && all[i].1 == best_neighbor(
                    g,
                    all[i].0 as int,
                ) && all[i].1 != u32::MAX
            &&& forall|u: u32|
                u < k && #[trigger] best_neighbor(g, u as int) != u32::MAX ==> all.contains(
                    (u, best_neighbor(g, u as int)),
                )
        }),
    decreases k,
{
    if k > 0 {
        lemma_node_proposals_in_order(g, (k - 1) as nat);
        let before = node_proposals(g, (k - 1) as nat);
        let all = node_proposals(g, k);
        assert forall|i: int| 0 <= i < all.len() implies (#[trigger] all[i]).0 < k && all[i].1
            == best_neighbor(g, all[i].0 as int) && all[i].1 != u32::MAX by {
            if i < before.len() {
                assert(all[i] == before[i]);
            }
        }
        assert forall|i: int, j: int| 0 <= i < j < all.len() implies all[i].0 < all[j].0 by {
            assert(all[i] == before[i]);
            assert(before[i].0 < k - 1);
            if j < before.len() {
                assert(all[j] == before[j]);
            }
        }
        assert forall|u: u32| u < k && #[trigger] best_neighbor(g, u as int) != u32::MAX implies
            all.contains((u, best_neighbor(g, u as int))) by {
            let p = (u, best_neighbor(g, u as int));
            if u < k - 1 {
                assert(before.contains(p));
                let i = choose|i: int| 0 <= i < before.len() && before[i] == p;
                assert(all[i] == p);
            } else {
                assert(all[all.len() - 1] == p);
            }
        }
    }
}

/// The edges that propose to join their ends are those to a node of larger id
/// whose degree is below the number of edges divided by the degree of the source
/// (or by one where that is zero), once each, by source and then by place among
/// its neighbours. Their sources and places are returned.
pub proof fn law_edge_proposals_in_order(g: GraphView) -> (places: Seq<(int, int)>)
    requires
        g.num_nodes <= u32::MAX,
    ensures
        ({
            let all = edge_proposals(g, g.num_nodes);
            let deg = |x: int| g.degree(x) as u32;
            let proposes = |u: int, j: int|
                u < g.neighbors(u)[j] && deg(g.neighbors(u)[j] as int) < g.num_edges / (if deg(u)
                    == 0 {
                    1
                } else {
                    deg(u) as nat
                });
            &&& places.len() == all.len()
            &&& forall|i: int, j: int|
                0 <= i < j < all.len() ==> (#[trigger] places[i]).0 < (#[trigger] places[j]).0 || (
                places[i].0 == places[j].0 && places[i].1 < places[j].1)
            &&& forall|i: int|
                0 <= i < all.len() ==> {
                    let (u, j) = #[trigger] places[i];
                    &&& 0 <= u < g.num_nodes
                    &&& 0 <= j < g.neighbors(u).len()
                    &&& all[i] == (u as u32, g.neighbors(u)[j])
                    &&& proposes(u, j)
                }
            &&& forall|u: int, j: int|
                0 <= u < g.num_nodes && 0 <= j < g.neighbors(u).len() && proposes(u, j)
                    ==> #[trigger] places.contains((u, j))
        }),
{
    lemma_edge_places(g, g.num_nodes)
}

proof fn lemma_edge_places(g: GraphView, k: nat) -> (places: Seq<(int, int)>)
    requires
        k <= g.num_nodes <= u32::MAX,
    ensures
        ({
            let all = edge_proposals(g, k);
            &&& places.len() == all.len()
            &&& forall|i: int, j: int|
                0 <= i < j < all.len() ==> (#[trigger] places[i]).0 < (#[trigger] places[j]).0 || (
                places[i].0 == places[j].0 && places[i].1 < places[j].1)
            &&& forall|i: int|
                0 <= i < all.len() ==> {
                    let (u, j) = #[trigger] places[i];
                    &&& 0 <= u < k
                    &&& 0 <= j < g.neighbors(u).len()
                    &&& all[i] == (u as u32, g.neighbors(u)[j])
                    &&& u < g.neighbors(u)[j]
                    &&& light(g, u, g.neighbors(u)[j])
                }
            &&& forall|u: int, j: int|
                0 <= u < k && 0 <= j < g.neighbors(u).len() && u < g.neighbors(u)[j] && light(
                    g,
                    u,
                    g.neighbors(u)[j],
                ) ==> #[trigger] places.contains((u, j))
        }),
    decreases k,
{
    if k == 0 {
        Seq::empty()
    } else {
        let u = k - 1;
        let before = lemma_edge_places(g, u as nat);
        let own = lemma_own_edge_places(g, u, g.neighbors(u));
        let places = before + own.map_values(|j: int| (u, j));
        let all = edge_proposals(g, k);
        let old_all = edge_proposals(g, u as nat);
        let own_all = edges_proposed(g, u, g.neighbors(u));
        assert forall|i: int| 0 <= i < all.len() implies {
            let (u, j) = #[trigger] places[i];
            &&& 0 <= u < k
            &&& 0 <= j < g.neighbors(u).len()
            &&& all[i] == (u as u32, g.neighbors(u)[j])
            &&& u < g.neighbors(u)[j]
            &&& light(g, u, g.neighbors(u)[j])
        } by {
            if i < before.len() {
                assert(places[i] == before[i]);
                assert(all[i] == old_all[i]);
            } else {
                assert(places[i] == (u, own[i - before.len()]));
                assert(all[i] == own_all[i - before.len()]);
            }
        }
        assert forall|i: int, j: int| 0 <= i < j < all.len() implies (#[trigger] places[i]).0 < (
        #[trigger] places[j]).0 || (places[i].0 == places[j].0 && places[i].1 < places[j].1) by {
            if j < before.len() {
                assert(places[i] == before[i] && places[j] == before[j]);
            } else if i >= before.len() {
                assert(own[i - before.len()] < own[j - before.len()]);
            } else {
                assert(places[i] == before[i]);
            }
        }
        assert forall|v: int, j: int|
            0 <= v < k && 0 <= j < g.neighbors(v).len() && v < g.neighbors(v)[j] && light(
                g,
                v,
                g.neighbors(v)[j],
            ) implies #[trigger] places.contains((v, j)) by {
            if v < u {
                assert(before.contains((v, j)));
                let x = choose|x: int| 0 <= x < before.len() && before[x] == (v, j);
                assert(places[x] == (v, j));
            } else {
                assert(own.contains(j));
                let x = choose|x: int| 0 <= x < own.len() && own[x] == j;
                assert(places[before.len() + x] == (v, j));
            }
        }
        places
    }
}

proof fn lemma_own_edge_places(g: GraphView, u: int, nbrs: Seq<u32>) -> (places: Seq<int>)
    ensures
        ({
            let all = edges_proposed(g, u, nbrs);
            &&& places.len() == all.len()
            &&& forall|i: int, j: int| 0 <= i < j < all.len() ==> places[i] < places[j]
            &&& forall|i: int|
                0 <= i < all.len() ==> {
                    let j = #[trigger] places[i];
                    &&& 0 <= j < nbrs.len()
                    &&& all[i] == (u as u32, nbrs[j])
                    &&& u < nbrs[j]
                    &&& light(g, u, nbrs[j])
                }
            &&& forall|j: int|
                0 <= j < nbrs.len() && u < nbrs[j] && light(g, u, nbrs[j])
                    ==> #[trigger] places.contains(j)
        }),
    decreases nbrs.len(),
{
    if nbrs.len() == 0 {
        Seq::empty()
    } else {
        let prev = nbrs.drop_last();
        let before = lemma_own_edge_places(g, u, prev);
        let old_all = edges_proposed(g, u, prev);
        let all = edges_proposed(g, u, nbrs);
        let v = nbrs.last();
        let places = if u < v && light(g, u, v) {
            before.push(nbrs.len() - 1)
        } else {
            before
        };
        assert forall|i: int| 0 <= i < all.len() implies {
            let j = #[trigger] places[i];
            &&& 0 <= j < nbrs.len()
            &&& all[i] == (u as u32, nbrs[j])
            &&& u < nbrs[j]
            &&& light(g, u, nbrs[j])
        } by {
            if i < before.len() {
                assert(places[i] == before[i]);
                assert(all[i] == old_all[i]);
                assert(prev[before[i]] == nbrs[before[i]]);
            }
        }
        assert forall|i: int, j: int| 0 <= i < j < all.len() implies places[i] < places[j] by {
            assert(places[i] == before[i]);
            if j < before.len() {
                assert(places[j] == before[j]);
            }
        }
        assert forall|j: int|
            0 <= j < nbrs.len() && u < nbrs[j] && light(g, u, nbrs[j]) implies #[trigger] places.contains(
            j,
        ) by {
            if j < prev.len() {
                assert(prev[j] == nbrs[j]);
                assert(before.contains(j));
                let x = choose|x: int| 0 <= x < before.len() && before[x] == j;
                assert(places[x] == j);
            } else {
                assert(places[places.len() - 1] == j);
            }
        }
        places
    }
}

/// The log holds a merge for each proposal whose ends are not yet in one
/// community, in the order of the proposals: first those of the nodes, then
/// those of the edges. A merge is named by the largest nodes of the two
/// communities that it joins, the larger of them first. The places of the
/// proposals that led to merges are returned.
pub proof fn law_merges_follow_the_proposals(g: GraphView) -> (places: Seq<int>)
    requires
        reorderable(g),
        g.num_nodes > 1,
        g.num_edges > 0,
    ensures
        ({
            let n = g.num_nodes;
            let log = rabbit_log(g);
            let all = node_proposals(g, n) + edge_proposals(g, n);
            let largest = |c: Seq<Seq<u32>>, x: u32|
                forall|k: int| 0 <= k < c[x as int].len() ==> #[trigger] c[x as int][k] <= x;
            &&& places.len() == log.len()
            &&& forall|i: int, j: int| 0 <= i < j < places.len() ==> places[i] < places[j]
            &&& forall|i: int|
                0 <= i < places.len() ==> {
                    let c = communities(n, log.take(i));
                    let p = all[#[trigger] places[i]];
                    let (winner, loser) = log[i];
                    &&& 0 <= places[i] < all.len()
                    &&& c[p.0 as int] != c[p.1 as int]
                    &&& winner > loser
                    &&& (c[winner as int] == c[p.0 as int] && c[loser as int] == c[p.1 as int]) || (
                    c[winner as int] == c[p.1 as int] && c[loser as int] == c[p.0 as int])
                    &&& largest(c, winner)
                    &&& largest(c, loser)
                }
            &&& forall|k: int, i: int|
                #![trigger all[k], log.take(i)]
                0 <= k < all.len() && 0 <= i <= log.len() && (i == 0 || places[i - 1] < k) && (i
                    == log.len() || k < places[i]) ==> communities(n, log.take(i))[all[k].0 as int]
                    == communities(n, log.take(i))[all[k].1 as int]
        }),
{
    lemma_all_proposals(g);
    let places = lemma_merge_places(g.num_nodes, all_proposals(g));
    let n = g.num_nodes;
    let log = rabbit_log(g);
    assert forall|i: int| #![trigger places[i]] 0 <= i < places.len() implies joins(
        n,
        log.take(i),
        all_proposals(g)[places[i]],
        log[i],
    ) by {}
    places
}

/// The places of the proposals that led to merges.
spec fn merge_places(n: nat, all: Seq<(u32, u32)>, places: Seq<int>) -> bool {
    let log = grow(n, all).log;
    &&& places.len() == log.len()
    &&& forall|i: int, j: int| 0 <= i < j < places.len() ==> places[i] < places[j]
    &&& forall|i: int| 0 <= i < places.len() ==> 0 <= #[trigger] places[i] < all.len()
    &&& forall|i: int| #![trigger places[i]] 0 <= i < places.len() ==> joins(
        n,
        log.take(i),
        all[places[i]],
        log[i],
    )
    &&& forall|k: int, i: int|
        #![trigger all[k], log.take(i)]
        0 <= k < all.len() && 0 <= i <= log.len() && (i == 0 || places[i - 1] < k) && (i
            == log.len() || k < places[i]) ==> communities(n, log.take(i))[all[k].0 as int]
            == communities(n, log.take(i))[all[k].1 as int]
}

/// A proposal whose ends are in two communities, and the merge of those.
spec fn joins(n: nat, log: Seq<(u32, u32)>, p: (u32, u32), merge: (u32, u32)) -> bool {
    let c = communities(n, log);
    let (winner, loser) = merge;
    &&& c[p.0 as int] != c[p.1 as int]
    &&& winner > loser
    &&& (c[winner as int] == c[p.0 as int] && c[loser as int] == c[p.1 as int]) || (c[winner as int]
        == c[p.1 as int] && c[loser as int] == c[p.0 as int])
    &&& is_largest(c, winner)
    &&& is_largest(c, loser)
}

/// No node in the community of `x` is larger.
spec fn is_largest(c: Seq<Seq<u32>>, x: u32) -> bool {
    forall|k: int| 0 <= k < c[x as int].len() ==> #[trigger] c[x as int][k] <= x
}

proof fn lemma_merge_places(n: nat, all: Seq<(u32, u32)>) -> (places: Seq<int>)
    requires
        n <= u32::MAX,
        merges_in_range(n, all),
    ensures
        merge_places(n, all, places),
    decreases all.len(),
{
    if all.len() == 0 {
        Seq::empty()
    } else {
        let prev = all.drop_last();
        lemma_in_range_prefix(n, all);
        let before = lemma_merge_places(n, prev);
        lemma_forest_communities(n, prev);
        let f0 = grow(n, prev);
        let c0 = communities(n, f0.log);
        let p = all.last();
        let ra = f0.roots[p.0 as int];
        let rb = f0.roots[p.1 as int];
        let log = grow(n, all).log;
        assert(f0.log.take(f0.log.len() as int) =~= f0.log);
        assert(ra == rb <==> c0[p.0 as int] == c0[p.1 as int]);
        let places = if ra == rb {
            before
        } else {
            before.push(all.len() - 1)
        };
        assert forall|i: int| 0 <= i <= f0.log.len() implies #[trigger] log.take(i) == f0.log.take(
            i,
        ) by {
            assert(log.take(i) =~= f0.log.take(i));
        }
        if ra != rb {
            lemma_roots_join(n, prev, p);
            assert(log.take(f0.log.len() as int) == f0.log);
        }
        assert forall|i: int| #![trigger places[i]] 0 <= i < places.len() implies joins(
            n,
            log.take(i),
            all[places[i]],
            log[i],
        ) by {
            if i < before.len() {
                assert(places[i] == before[i]);
                assert(all[places[i]] == prev[before[i]]);
                assert(log.take(i) == f0.log.take(i));
                assert(log[i] == f0.log[i]);
            } else {
                assert(log.take(i) == f0.log);
            }
        }
        assert forall|k: int, i: int|
            #![trigger all[k], log.take(i)]
            0 <= k < all.len() && 0 <= i <= log.len() && (i == 0 || places[i - 1] < k) && (i
                == log.len() || k < places[i]) implies communities(n, log.take(i))[all[k].0 as int]
            == communities(n, log.take(i))[all[k].1 as int] by {
            if k < prev.len() {
                assert(all[k] == prev[k]);
                assert(i <= f0.log.len());
                assert(log.take(i) == f0.log.take(i));
                if i > 0 {
                    assert(places[i - 1] == before[i - 1]);
                }
                if i < f0.log.len() {
                    assert(places[i] == before[i]);
                }
            } else {
                if i < before.len() {
                    assert(places[i] == before[i]);
                }
                assert(i == f0.log.len());
                assert(ra == rb);
                assert(log.take(i) == f0.log);
            }
        }
        places
    }
}

/// What a proposal between two roots merges.
proof fn lemma_roots_join(n: nat, prev: Seq<(u32, u32)>, p: (u32, u32))
    requires
        n <= u32::MAX,
        merges_in_range(n, prev),
        p.0 < n,
        p.1 < n,
        grow(n, prev).roots[p.0 as int] != grow(n, prev).roots[p.1 as int],
    ensures
        propose(grow(n, prev), p).log.len() == grow(n, prev).log.len() + 1,
        joins(n, grow(n, prev).log, p, propose(grow(n, prev), p).log.last()),
{
    lemma_forest_communities(n, prev);
    let f = grow(n, prev);
    let c = communities(n, f.log);
    let (winner, loser) = propose(f, p).log.last();
    assert(f.roots[f.roots[p.0 as int] as int] == f.roots[p.0 as int]);
    assert(f.roots[f.roots[p.1 as int] as int] == f.roots[p.1 as int]);
    assert(f.roots[winner as int] == winner && f.roots[loser as int] == loser);
    lemma_communities_partition(n, f.log);
    assert forall|k: int| 0 <= k < c[winner as int].len() implies #[trigger] c[winner as int][k]
        <= winner by {
        let x = c[winner as int][k];
        assert(c[x as int] == c[winner as int]);
        assert(f.roots[x as int] == f.roots[winner as int]);
    }
    assert forall|k: int| 0 <= k < c[loser as int].len() implies #[trigger] c[loser as int][k]
        <= loser by {
        let x = c[loser as int][k];
        assert(c[x as int] == c[loser as int]);
        assert(f.roots[x as int] == f.roots[loser as int]);
    }
}

/// Without two nodes, or without edges, nothing is merged.
pub proof fn law_nothing_to_merge(g: GraphView)
    requires
        g.num_nodes <= 1 || g.num_edges == 0,
    ensures
        rabbit_log(g) == Seq::<(u32, u32)>::empty(),
{
}

} // verus!
