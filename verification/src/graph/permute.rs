//! Renumbering the nodes of a graph.
use vstd::prelude::*;
use super::csr::{
    ascending, law_neighbors_match_degree, lemma_degree_prefix, Graph, GraphView, NodeId,
};
use super::error::GraphError;
use super::permutation::{
    identity, is_permutation, lemma_sum_permuted, lemma_sum_prefix, sum_below, sum_over,
};

verus! {

/// Entry `k` of the list is a node that no earlier entry named.
pub open spec fn fresh_at(perm: Seq<u32>, n: nat, k: int) -> bool {
    perm[k] < n && forall|m: int| 0 <= m < k ==> #[trigger] perm[m] != perm[k]
}

/// The first entry that keeps the list from being a permutation.
pub open spec fn first_bad_entry(perm: Seq<u32>, n: nat, i: int) -> bool {
    &&& 0 <= i < perm.len()
    &&& !fresh_at(perm, n, i)
    &&& forall|k: int| 0 <= k < i ==> #[trigger] fresh_at(perm, n, k)
}

/// `h` is `g` with its nodes renumbered: node `i` of `h` is node `perm[i]` of
/// `g`, with the same edges in the same order, their ends renumbered, and with
/// the same weights and timestamps.
pub open spec fn renumbered(g: GraphView, perm: Seq<u32>, h: GraphView) -> bool {
    &&& h.num_nodes == g.num_nodes
    &&& h.num_edges == g.num_edges
    &&& forall|i: int|
        0 <= i < g.num_nodes ==> {
            &&& (#[trigger] h.neighbors(i)).len() == g.neighbors(perm[i] as int).len()
            &&& forall|j: int|
                0 <= j < h.neighbors(i).len() ==> (#[trigger] h.neighbors(i)[j]) < g.num_nodes
                    && perm[h.neighbors(i)[j] as int] == g.neighbors(perm[i] as int)[j]
        }
    &&& h.weights is Some <==> g.weights is Some
    &&& h.timestamps is Some <==> g.timestamps is Some
    &&& forall|i: int|
        0 <= i < g.num_nodes ==> #[trigger] h.neighbor_weights(i) == g.neighbor_weights(
            perm[i] as int,
        )
    &&& forall|i: int|
        0 <= i < g.num_nodes ==> #[trigger] h.neighbor_timestamps(i) == g.neighbor_timestamps(
            perm[i] as int,
        )
}

/// The positions that a permutation gives to the ids.
spec fn inverts(inv: Seq<u32>, perm: Seq<u32>) -> bool {
    &&& inv.len() == perm.len()
    &&& forall|x: int|
        0 <= x < inv.len() ==> (#[trigger] inv[x]) < perm.len() && perm[inv[x] as int] == x
}

/// Inverts a permutation, or says why the list is none.
fn invert(perm: &[NodeId]) -> (r: Result<Vec<u32>, GraphError>)
    requires
        perm@.len() <= u32::MAX,
    ensures
        match r {
            Ok(inv) => is_permutation(perm@, perm@.len()) && inverts(inv@, perm@),
            Err(e) => !is_permutation(perm@, perm@.len()) && exists|i: int| #[trigger]
                first_bad_entry(perm@, perm@.len(), i) && e == (if perm@[i] >= perm@.len() {
                    GraphError::PermutationOutOfRange { node: perm@[i] }
                } else {
                    GraphError::PermutationDuplicate { node: perm@[i] }
                }),
        },
{
    let n = perm.len();
    let mut inv: Vec<u32> = vec![u32::MAX; n];
    let mut i: usize = 0;
    while i < n
        invariant
            i <= n == perm@.len() <= u32::MAX,
            inv@.len() == n,
            forall|k: int| 0 <= k < i ==> #[trigger] fresh_at(perm@, n as nat, k),
            forall|k: int| 0 <= k < i ==> inv@[perm@[k] as int] == k && (#[trigger] perm@[k]) < n,
            forall|x: int|
                0 <= x < n ==> (#[trigger] inv@[x] == u32::MAX || (inv@[x] < i
                    && perm@[inv@[x] as int] == x)),
        decreases n - i,
    {
        let old_id: u32 = perm[i];
        if old_id as usize >= n {
            assert(first_bad_entry(perm@, n as nat, i as int));
            assert(!(perm@[i as int] < n));
            return Err(GraphError::PermutationOutOfRange { node: old_id });
        }
        if inv[old_id as usize] != u32::MAX {
            assert(perm@[inv@[old_id as int] as int] == old_id);
            assert(!fresh_at(perm@, n as nat, i as int));
            assert(first_bad_entry(perm@, n as nat, i as int));
            return Err(GraphError::PermutationDuplicate { node: old_id });
        }
        assert forall|m: int| 0 <= m < i implies #[trigger] perm@[m] != perm@[i as int] by {
            assert(inv@[perm@[m] as int] == m);
        }
        assert(fresh_at(perm@, n as nat, i as int));
        inv[old_id as usize] = i as u32;
        i += 1;
    }
    assert(is_permutation(perm@, n as nat)) by {
        assert forall|a: int, b: int| 0 <= a < n && 0 <= b < n && a != b implies perm@[a]
            != perm@[b] by {
            assert(inv@[perm@[a] as int] == a);
            assert(inv@[perm@[b] as int] == b);
        }
    }
    assert forall|x: int| 0 <= x < n implies (#[trigger] inv@[x]) < n && perm@[inv@[x] as int]
        == x by {
        let k = super::permutation::lemma_permutation_covers(perm@, n as nat, x as u32);
        assert(inv@[perm@[k] as int] == k);
    }
    Ok(inv)
}

/// Degree of a node as a natural number.
spec fn degree_of(g: GraphView) -> spec_fn(int) -> nat {
    |v: int| g.degree(v) as nat
}

/// The degrees of a CSR graph sum to its number of edges.
proof fn lemma_degree_total(g: GraphView, n: nat)
    requires
        g.csr(),
        n <= g.num_nodes,
    ensures
        sum_below(degree_of(g), n) == g.degree_sum(n),
    decreases n,
{
    if n > 0 {
        lemma_degree_total(g, (n - 1) as nat);
    }
}

/// The runs of the first `k` renumbered nodes have been copied.
spec fn copied<T>(
    g: GraphView,
    perm: Seq<u32>,
    k: int,
    offsets: Seq<u64>,
    out: Seq<T>,
    run_of: spec_fn(int) -> Seq<T>,
) -> bool {
    &&& offsets.len() == k + 1
    &&& offsets[0] == 0
    &&& out.len() == offsets[k]
    &&& ascending(offsets)
    &&& forall|i: int|
        0 <= i < k ==> #[trigger] offsets[i + 1] - offsets[i] == g.degree(perm[i] as int)
    &&& forall|i: int|
        #![trigger run_of(perm[i] as int)]
        0 <= i < k ==> out.subrange(offsets[i] as int, offsets[i + 1] as int) == run_of(
            perm[i] as int,
        )
}

/// Copying one more run keeps the earlier ones where they are.
proof fn lemma_copy_step<T>(
    g: GraphView,
    perm: Seq<u32>,
    k: int,
    offsets: Seq<u64>,
    out: Seq<T>,
    run_of: spec_fn(int) -> Seq<T>,
    next: u64,
)
    requires
        copied(g, perm, k, offsets, out, run_of),
        0 <= k < perm.len(),
        next == offsets[k] + g.degree(perm[k] as int),
        run_of(perm[k] as int).len() == g.degree(perm[k] as int),
    ensures
        copied(g, perm, k + 1, offsets.push(next), out + run_of(perm[k] as int), run_of),
{
    let more = offsets.push(next);
    let all = out + run_of(perm[k] as int);
    assert forall|i: int| 0 <= i < k + 1 implies #[trigger] more[i + 1] - more[i] == g.degree(
        perm[i] as int,
    ) by {
        if i < k {
            assert(offsets[i + 1] - offsets[i] == g.degree(perm[i] as int));
        }
    }
    assert forall|i: int|
        #![trigger run_of(perm[i] as int)]
        0 <= i < k + 1 implies all.subrange(more[i] as int, more[i + 1] as int) == run_of(
        perm[i] as int,
    ) by {
        if i < k {
            assert(offsets[i + 1] <= offsets[k]);
            assert(all.subrange(more[i] as int, more[i + 1] as int) =~= out.subrange(
                offsets[i] as int,
                offsets[i + 1] as int,
            ));
        } else {
            assert(all.subrange(more[i] as int, more[i + 1] as int) =~= run_of(perm[k] as int));
        }
    }
}

/// The relabelled neighbours of an old node.
spec fn relabelled(g: GraphView, inv: Seq<u32>) -> spec_fn(int) -> Seq<u32> {
    |v: int| g.neighbors(v).map_values(|x: u32| inv[x as int])
}

/// The weights on the edges of an old node.
spec fn weight_runs(g: GraphView) -> spec_fn(int) -> Seq<u32> {
    |v: int| g.neighbor_weights(v)->0
}

/// The timestamps on the edges of an old node.
spec fn timestamp_runs(g: GraphView) -> spec_fn(int) -> Seq<u64> {
    |v: int| g.neighbor_timestamps(v)->0
}

/// Appends every word of `part`.
fn append_u32(out: &mut Vec<u32>, part: &[u32])
    ensures
        final(out)@ == old(out)@ + part@,
{
    let mut i: usize = 0;
    while i < part.len()
        invariant
            i <= part@.len(),
            out@ == old(out)@ + part@.take(i as int),
        decreases part@.len() - i,
    {
        out.push(part[i]);
        i += 1;
        assert(part@.take(i as int) =~= part@.take(i - 1).push(part@[i - 1]));
    }
    assert(part@.take(i as int) =~= part@);
}

/// Appends every word of `part`.
fn append_u64(out: &mut Vec<u64>, part: &[u64])
    ensures
        final(out)@ == old(out)@ + part@,
{
    let mut i: usize = 0;
    while i < part.len()
        invariant
            i <= part@.len(),
            out@ == old(out)@ + part@.take(i as int),
        decreases part@.len() - i,
    {
        out.push(part[i]);
        i += 1;
        assert(part@.take(i as int) =~= part@.take(i - 1).push(part@[i - 1]));
    }
    assert(part@.take(i as int) =~= part@);
}

/// Appends the new ids of a run of neighbours.
fn append_relabelled(out: &mut Vec<u32>, part: &[u32], inv: &Vec<u32>)
    requires
        forall|i: int| 0 <= i < part@.len() ==> (#[trigger] part@[i]) < inv@.len(),
    ensures
        final(out)@ == old(out)@ + part@.map_values(|x: u32| inv@[x as int]),
{
    let ghost whole = part@.map_values(|x: u32| inv@[x as int]);
    let mut i: usize = 0;
    while i < part.len()
        invariant
            i <= part@.len(),
            forall|i: int| 0 <= i < part@.len() ==> (#[trigger] part@[i]) < inv@.len(),
            whole == part@.map_values(|x: u32| inv@[x as int]),
            out@ == old(out)@ + whole.take(i as int),
        decreases part@.len() - i,
    {
        out.push(inv[part[i] as usize]);
        i += 1;
        assert(whole.take(i as int) =~= whole.take(i - 1).push(whole[i - 1]));
    }
    assert(whole.take(i as int) =~= whole);
}

impl Graph {
    /// Applies a node permutation to produce a new reordered graph, in which
    /// node `i` is the node that had the id `perm[i]`.
    pub fn permute(&self, perm: &[NodeId]) -> (r: Result<Graph, GraphError>)
        requires
            self@.valid(),
            self@.num_nodes <= u32::MAX,
        ensures
            match r {
                Err(e) => if perm@.len() != self@.num_nodes {
                    e == GraphError::PermutationLength
                } else {
                    !is_permutation(perm@, self@.num_nodes) && exists|i: int| #[trigger]
                        first_bad_entry(perm@, self@.num_nodes, i) && e == (if perm@[i]
                            >= self@.num_nodes {
                            GraphError::PermutationOutOfRange { node: perm@[i] }
                        } else {
                            GraphError::PermutationDuplicate { node: perm@[i] }
                        })
                },
                Ok(h) => {
                    &&& is_permutation(perm@, self@.num_nodes)
                    &&& h@.valid()
                    &&& self@.num_nodes > 0 ==> renumbered(self@, perm@, h@)
                    &&& self@.num_nodes == 0 ==> h@ == (GraphView {
                        num_nodes: 0,
                        num_edges: 0,
                        offsets: seq![0u64],
                        edges: Seq::empty(),
                        weights: None,
                        timestamps: None,
                    })
                    &&& h@.num_nodes == self@.num_nodes
                    &&& h@.num_edges == self@.num_edges
                    &&& forall|i: int, j: int|
                        0 <= i < self@.num_nodes && 0 <= j < self@.neighbors(perm@[i] as int).len()
                            ==> j < h@.neighbors(i).len() && perm@[(
                        #[trigger] h@.neighbors(i)[j]) as int] == self@.neighbors(
                            perm@[i] as int,
                        )[j]
                    &&& forall|i: int|
                        0 <= i < self@.num_nodes ==> (#[trigger] h@.neighbors(i)).len()
                            == self@.neighbors(perm@[i] as int).len()
                    &&& forall|i: int|
                        0 <= i < self@.num_nodes ==> #[trigger] h@.neighbor_weights(i)
                            == self@.neighbor_weights(perm@[i] as int)
                    &&& forall|i: int|
                        0 <= i < self@.num_nodes ==> #[trigger] h@.neighbor_timestamps(i)
                            == self@.neighbor_timestamps(perm@[i] as int)
                },
            },
            r is Ok <==> (perm@.len() == self@.num_nodes && forall|i: int|
                0 <= i < perm@.len() ==> (#[trigger] perm@[i]) < self@.num_nodes && forall|j: int|
                    0 <= j < i ==> #[trigger] perm@[j] != perm@[i]),
    {
        let n = self.num_nodes();
        if perm.len() != n {
            return Err(GraphError::PermutationLength);
        }
        if n == 0 {
            return Ok(Graph::empty());
        }
        let inv = match invert(perm) {
            Ok(inv) => inv,
            Err(e) => {
                return Err(e);
            },
        };
        let ghost g = self@;
        let ghost p = perm@;
        let ghost nbr_runs = relabelled(g, inv@);
        let has_weights = self.weights().is_some();
        let has_timestamps = self.has_timestamps();
        let num_edges = self.num_edges();
        let mut offsets: Vec<u64> = Vec::with_capacity(n);
        offsets.push(0);
        let mut edges: Vec<u32> = Vec::with_capacity(num_edges);
        let mut weights: Vec<u32> = Vec::new();
        let mut timestamps: Vec<u64> = Vec::new();
        let mut i: usize = 0;
        proof {
            lemma_sum_permuted(degree_of(g), p, n as nat);
            lemma_degree_total(g, n as nat);
            lemma_degree_prefix(g, n as nat);
            assert(p.take(0) =~= Seq::empty());
        }
        while i < n
            invariant
                i <= n == p.len() == g.num_nodes <= u32::MAX,
                g == self@,
                p == perm@,
                g.valid(),
                is_permutation(p, n as nat),
                inverts(inv@, p),
                nbr_runs == relabelled(g, inv@),
                has_weights == (g.weights is Some),
                has_timestamps == (g.timestamps is Some),
                copied(g, p, i as int, offsets@, edges@, nbr_runs),
                has_weights ==> copied(g, p, i as int, offsets@, weights@, weight_runs(g)),
                has_timestamps ==> copied(g, p, i as int, offsets@, timestamps@, timestamp_runs(g)),
                sum_over(degree_of(g), p) == g.num_edges,
                g.num_edges <= usize::MAX,
                offsets@[i as int] == sum_over(degree_of(g), p.take(i as int)),
            decreases n - i,
        {
            let old_id = perm[i];
            let ghost v = old_id as int;
            proof {
                law_neighbors_match_degree(g, v);
                assert(g.offsets[v + 1] <= g.offsets[g.num_nodes as int]);
                assert(g.offsets[v] <= g.offsets[v + 1]);
                assert(p.take(i + 1).drop_last() =~= p.take(i as int));
                lemma_sum_prefix(degree_of(g), p, i + 1);
            }
            let next: u64 = offsets[i] + self.degree(old_id) as u64;
            let ghost offsets_before = offsets@;
            let ghost edges_before = edges@;
            let ghost weights_before = weights@;
            let ghost timestamps_before = timestamps@;
            let nbrs = self.neighbors(old_id);
            append_relabelled(&mut edges, nbrs, &inv);
            if has_weights {
                append_u32(&mut weights, self.neighbor_weights(old_id).unwrap());
            }
            if has_timestamps {
                append_u64(&mut timestamps, self.neighbor_timestamps(old_id).unwrap());
            }
            offsets.push(next);
            proof {
                assert(nbr_runs(v).len() == g.degree(v));
                lemma_copy_step(g, p, i as int, offsets_before, edges_before, nbr_runs, next);
                if has_weights {
                    assert(weight_runs(g)(v).len() == g.degree(v));
                    lemma_copy_step(
                        g,
                        p,
                        i as int,
                        offsets_before,
                        weights_before,
                        weight_runs(g),
                        next,
                    );
                }
                if has_timestamps {
                    assert(timestamp_runs(g)(v).len() == g.degree(v));
                    lemma_copy_step(
                        g,
                        p,
                        i as int,
                        offsets_before,
                        timestamps_before,
                        timestamp_runs(g),
                        next,
                    );
                }
            }
            i += 1;
        }
        assert(p.take(n as int) =~= p);
        let ghost offs = offsets@;
        let ghost edgs = edges@;
        let ghost ws = weights@;
        let ghost ts = timestamps@;
        let new_weights: Option<Vec<u32>> = if has_weights {
            Some(weights)
        } else {
            None
        };
        let mut h = Graph::from_owned_parts(n, num_edges, offsets, edges, new_weights);
        if has_timestamps {
            let _ = h.set_timestamps(timestamps);
        }
        proof {
            lemma_renumbered(g, p, inv@, h@);
        }
        Ok(h)
    }
}

/// Arrays copied run by run are the renumbered graph.
proof fn lemma_renumbered(g: GraphView, p: Seq<u32>, inv: Seq<u32>, h: GraphView)
    requires
        g.valid(),
        is_permutation(p, g.num_nodes),
        inverts(inv, p),
        h.num_nodes == g.num_nodes,
        h.num_edges == g.num_edges,
        h.offsets.len() == g.num_nodes + 1,
        h.offsets[g.num_nodes as int] == g.num_edges,
        copied(g, p, g.num_nodes as int, h.offsets, h.edges, relabelled(g, inv)),
        h.weights is Some <==> g.weights is Some,
        h.timestamps is Some <==> g.timestamps is Some,
        g.weights is Some ==> copied(
            g,
            p,
            g.num_nodes as int,
            h.offsets,
            h.weights->0,
            weight_runs(g),
        ),
        g.timestamps is Some ==> copied(
            g,
            p,
            g.num_nodes as int,
            h.offsets,
            h.timestamps->0,
            timestamp_runs(g),
        ),
    ensures
        h.valid(),
        renumbered(g, p, h),
{
    let n = g.num_nodes as int;
    assert(h.csr());
    assert forall|i: int| 0 <= i < n implies h.run_start(i) == h.offsets[i] && h.run_end(i)
        == #[trigger] h.offsets[i + 1] by {
        assert(h.offsets[i] <= h.offsets[i + 1]);
        assert(h.offsets[i + 1] <= h.offsets[n]);
    }
    assert forall|i: int| 0 <= i < n implies {
        &&& (#[trigger] h.neighbors(i)).len() == g.neighbors(p[i] as int).len()
        &&& forall|j: int|
            0 <= j < h.neighbors(i).len() ==> (#[trigger] h.neighbors(i)[j]) < g.num_nodes
                && p[h.neighbors(i)[j] as int] == g.neighbors(p[i] as int)[j]
    } by {
        let v = p[i] as int;
        assert(h.run_end(i) == h.offsets[i + 1]);
        assert(h.neighbors(i) == relabelled(g, inv)(v));
        assert(g.offsets[v + 1] <= g.offsets[n]);
        assert(g.offsets[v] <= g.offsets[v + 1]);
        assert forall|j: int| 0 <= j < h.neighbors(i).len() implies (#[trigger] h.neighbors(i)[j])
            < g.num_nodes && p[h.neighbors(i)[j] as int] == g.neighbors(v)[j] by {
            let x = g.neighbors(v)[j];
            assert(x == g.edges[g.run_start(v) + j]);
            assert(inv[x as int] < n);
        }
    }
    assert forall|i: int| 0 <= i < n implies #[trigger] h.neighbor_weights(i)
        == g.neighbor_weights(p[i] as int) by {
        assert(h.run_end(i) == h.offsets[i + 1]);
        if g.weights is Some {
            assert(weight_runs(g)(p[i] as int) == g.neighbor_weights(p[i] as int)->0);
        }
    }
    assert forall|i: int| 0 <= i < n implies #[trigger] h.neighbor_timestamps(i)
        == g.neighbor_timestamps(p[i] as int) by {
        assert(h.run_end(i) == h.offsets[i + 1]);
        if g.timestamps is Some {
            assert(timestamp_runs(g)(p[i] as int) == g.neighbor_timestamps(p[i] as int)->0);
        }
    }
    assert forall|e: int| 0 <= e < h.edges.len() implies (#[trigger] h.edges[e]) < n by {
        let i = lemma_run_of_edge(h, n as nat, e);
        assert(h.run_end(i) == h.offsets[i + 1]);
        assert(h.neighbors(i)[e - h.offsets[i]] == h.edges[e]);
    }
}

/// Every edge of a CSR graph lies in the run of some node.
pub proof fn lemma_run_of_edge(h: GraphView, n: nat, e: int) -> (i: int)
    requires
        h.csr(),
        n <= h.num_nodes,
        0 <= e < h.offsets[n as int],
    ensures
        0 <= i < n,
        h.offsets[i] <= e < h.offsets[i + 1],
    decreases n,
{
    if e >= h.offsets[n - 1] {
        n - 1
    } else {
        lemma_run_of_edge(h, (n - 1) as nat, e)
    }
}

/// Renumbering by the identity changes nothing that a node sees.
pub proof fn law_identity_renumbering(g: GraphView, h: GraphView)
    requires
        g.valid(),
        h.valid(),
        g.num_nodes <= u32::MAX,
        renumbered(g, identity(g.num_nodes), h),
    ensures
        forall|i: int| 0 <= i < g.num_nodes ==> #[trigger] h.neighbors(i) == g.neighbors(i),
        forall|i: int|
            0 <= i < g.num_nodes ==> #[trigger] h.neighbor_weights(i) == g.neighbor_weights(i),
        forall|i: int|
            0 <= i < g.num_nodes ==> #[trigger] h.neighbor_timestamps(i) == g.neighbor_timestamps(i),
{
    let p = identity(g.num_nodes);
    assert forall|i: int| 0 <= i < g.num_nodes implies #[trigger] h.neighbors(i) == g.neighbors(
        i,
    ) by {
        assert(p[i] == i);
        assert(h.neighbors(i) =~= g.neighbors(i)) by {
            assert forall|j: int| 0 <= j < h.neighbors(i).len() implies h.neighbors(i)[j]
                == g.neighbors(i)[j] by {
                assert(p[h.neighbors(i)[j] as int] == h.neighbors(i)[j]);
            }
        }
    }
    assert forall|i: int| 0 <= i < g.num_nodes implies #[trigger] h.neighbor_weights(i)
        == g.neighbor_weights(i) by {
        assert(p[i] == i);
    }
    assert forall|i: int| 0 <= i < g.num_nodes implies #[trigger] h.neighbor_timestamps(i)
        == g.neighbor_timestamps(i) by {
        assert(p[i] == i);
    }
}

/// Renumbering by a permutation and then by its inverse gives every node its
/// own neighbours, weights and timestamps back.
pub proof fn law_inverse_renumbering_restores(
    g: GraphView,
    p: Seq<u32>,
    h: GraphView,
    q: Seq<u32>,
    k: GraphView,
)
    requires
        g.valid(),
        is_permutation(p, g.num_nodes),
        is_permutation(q, g.num_nodes),
        forall|i: int| 0 <= i < g.num_nodes ==> p[#[trigger] q[i] as int] == i,
        renumbered(g, p, h),
        renumbered(h, q, k),
    ensures
        forall|i: int| 0 <= i < g.num_nodes ==> #[trigger] k.neighbors(i) == g.neighbors(i),
        forall|i: int|
            0 <= i < g.num_nodes ==> #[trigger] k.neighbor_weights(i) == g.neighbor_weights(i),
        forall|i: int|
            0 <= i < g.num_nodes ==> #[trigger] k.neighbor_timestamps(i) == g.neighbor_timestamps(i),
{
    assert forall|i: int| 0 <= i < g.num_nodes implies #[trigger] k.neighbors(i) == g.neighbors(
        i,
    ) by {
        let m = q[i] as int;
        assert(p[m] == i);
        assert(h.neighbors(m).len() == g.neighbors(i).len());
        assert forall|j: int| 0 <= j < k.neighbors(i).len() implies k.neighbors(i)[j]
            == g.neighbors(i)[j] by {
            let x = k.neighbors(i)[j] as int;
            assert(q[x] == h.neighbors(m)[j]);
            assert(p[h.neighbors(m)[j] as int] == g.neighbors(i)[j]);
            assert(p[q[x] as int] == x);
        }
        assert(k.neighbors(i) =~= g.neighbors(i));
    }
    assert forall|i: int| 0 <= i < g.num_nodes implies #[trigger] k.neighbor_weights(i)
        == g.neighbor_weights(i) by {
        assert(p[q[i] as int] == i);
        assert(k.neighbor_weights(i) == h.neighbor_weights(q[i] as int));
    }
    assert forall|i: int| 0 <= i < g.num_nodes implies #[trigger] k.neighbor_timestamps(i)
        == g.neighbor_timestamps(i) by {
        assert(p[q[i] as int] == i);
        assert(k.neighbor_timestamps(i) == h.neighbor_timestamps(q[i] as int));
    }
}

/// The first bad entry of a would-be permutation is the first that is no node or
/// repeats an earlier one.
pub proof fn law_first_bad_entry(perm: Seq<u32>, n: nat, i: int)
    ensures
        first_bad_entry(perm, n, i) <==> {
            &&& 0 <= i < perm.len()
            &&& perm[i] >= n || exists|m: int| 0 <= m < i && #[trigger] perm[m] == perm[i]
            &&& forall|k: int| 0 <= k < i ==> (#[trigger] perm[k]) < n
            &&& forall|k: int, m: int| 0 <= m < k < i ==> #[trigger] perm[m] != #[trigger] perm[k]
        },
{
    if first_bad_entry(perm, n, i) {
        assert forall|k: int| 0 <= k < i implies (#[trigger] perm[k]) < n by {
            assert(fresh_at(perm, n, k));
        }
        assert forall|k: int, m: int| 0 <= m < k < i implies #[trigger] perm[m]
            != #[trigger] perm[k] by {
            assert(fresh_at(perm, n, k));
        }
    }
}

} // verus!
