//! Placement of workers on memory nodes.
use vstd::prelude::*;

verus! {

/// The memory node that worker `index` of a pool goes to: workers go round the nodes
/// that are online. With fewer than two nodes there is nothing to decide.
pub fn pin_worker(index: usize, nodes: &[u32]) -> (node: Option<u32>)
    ensures
        node == (if nodes@.len() < 2 {
            None::<u32>
        } else {
            Some(nodes@[index as int % nodes@.len() as int])
        }),
        node matches Some(n) ==> nodes@.contains(n),
{
    let count: usize = nodes.len();
    if count < 2 {
        return None;
    }
    let node: u32 = nodes[index % count];
    assert(nodes@[index as int % nodes@.len() as int] == node);
    Some(node)
}

/// Workers that follow one another go to different nodes, if there are several and
/// the nodes are distinct.
pub proof fn law_neighbors_part(nodes: Seq<u32>, index: int)
    requires
        nodes.len() >= 2,
        nodes.no_duplicates(),
        0 <= index,
    ensures
        nodes[index % nodes.len() as int] != nodes[(index + 1) % nodes.len() as int],
{
    let n = nodes.len() as int;
    let a = index % n;
    let b = (index + 1) % n;
    vstd::arithmetic::div_mod::lemma_mod_bound(index, n);
    vstd::arithmetic::div_mod::lemma_mod_bound(index + 1, n);
    vstd::arithmetic::div_mod::lemma_add_mod_noop(index, 1, n);
    vstd::arithmetic::div_mod::lemma_small_mod(1, n as nat);
    if a + 1 < n {
        vstd::arithmetic::div_mod::lemma_small_mod((a + 1) as nat, n as nat);
    } else {
        vstd::arithmetic::div_mod::lemma_mod_self_0(n);
    }
    assert(a != b);
}

} // verus!
