//! Communities that a log of merges forms, the order in which their members
//! come, and their numbering.
//!
//! A community is modelled by the sequence of its members. Merging puts the
//! members of the losing community behind those of the winning one.
use vstd::prelude::*;
use vstd::set_lib::*;
use rustc_hash::FxHashMap;
use crate::collections::{fx_get, fx_insert, fx_len};
use super::permutation::{identity, is_permutation};
use super::union_find::{is_root_map, relink, singletons, RankUnionFind};

verus! {

/// Every node in a community of its own.
pub open spec fn alone(n: nat) -> Seq<Seq<u32>> {
    Seq::new(n, |i: int| seq![i as u32])
}

/// The communities after one merge: `groups[i]` is the community of node `i`.
pub open spec fn joined(groups: Seq<Seq<u32>>, winner: u32, loser: u32) -> Seq<Seq<u32>> {
    let w = groups[winner as int];
    let l = groups[loser as int];
    if w == l {
        groups
    } else {
        Seq::new(
            groups.len(),
            |i: int|
                if groups[i] == w || groups[i] == l {
                    w + l
                } else {
                    groups[i]
                },
        )
    }
}

/// The communities that a log of merges forms on `n` nodes.
pub open spec fn communities(n: nat, merges: Seq<(u32, u32)>) -> Seq<Seq<u32>>
    decreases merges.len(),
{
    if merges.len() == 0 {
        alone(n)
    } else {
        joined(communities(n, merges.drop_last()), merges.last().0, merges.last().1)
    }
}

/// Both ends of every merge are nodes.
pub open spec fn merges_in_range(n: nat, merges: Seq<(u32, u32)>) -> bool {
    forall|i: int|
        0 <= i < merges.len() ==> (#[trigger] merges[i]).0 < n && merges[i].1 < n
}

/// No node below `i` is in the community of `i`.
pub open spec fn first_of_group(groups: Seq<Seq<u32>>, i: int) -> bool {
    forall|j: int| 0 <= j < i ==> #[trigger] groups[j] != groups[i]
}

/// The members of the communities of the nodes below `k`, community by
/// community, each where its smallest node stands.
pub open spec fn visit_order(groups: Seq<Seq<u32>>, k: int) -> Seq<u32>
    decreases k,
{
    if k <= 0 {
        Seq::empty()
    } else if first_of_group(groups, k - 1) {
        visit_order(groups, k - 1) + groups[k - 1]
    } else {
        visit_order(groups, k - 1)
    }
}

/// How many communities have a node below `k`.
pub open spec fn groups_below(groups: Seq<Seq<u32>>, k: int) -> nat
    decreases k,
{
    if k <= 0 {
        0
    } else {
        groups_below(groups, k - 1) + if first_of_group(groups, k - 1) {
            1nat
        } else {
            0nat
        }
    }
}

/// `ids` numbers the communities densely, by their smallest nodes.
pub open spec fn dense_ids(groups: Seq<Seq<u32>>, k: int, ids: Seq<u32>) -> bool {
    &&& ids.len() == k
    &&& forall|i: int|
        #![trigger ids[i]]
        0 <= i < k && first_of_group(groups, i) ==> ids[i] == groups_below(groups, i)
    &&& forall|i: int, j: int|
        #![trigger ids[i], ids[j]]
        0 <= i < k && 0 <= j < k && groups[i] == groups[j] ==> ids[i] == ids[j]
}

/// Each node is in its community, communities have no member twice, and the
/// members of a community share it.
pub open spec fn is_partition(groups: Seq<Seq<u32>>) -> bool {
    &&& forall|i: int| 0 <= i < groups.len() ==> (#[trigger] groups[i]).contains(i as u32)
    &&& forall|i: int| 0 <= i < groups.len() ==> (#[trigger] groups[i]).no_duplicates()
    &&& forall|i: int, k: int|
        0 <= i < groups.len() && 0 <= k < groups[i].len() ==> (#[trigger] groups[i][k])
            < groups.len() && groups[groups[i][k] as int] == groups[i]
}

/// Merging keeps the communities a partition.
proof fn lemma_joined_partition(groups: Seq<Seq<u32>>, winner: u32, loser: u32)
    requires
        is_partition(groups),
        groups.len() <= u32::MAX,
        winner < groups.len(),
        loser < groups.len(),
    ensures
        is_partition(joined(groups, winner, loser)),
        joined(groups, winner, loser).len() == groups.len(),
{
    let w = groups[winner as int];
    let l = groups[loser as int];
    let after = joined(groups, winner, loser);
    if w != l {
        let m = w + l;
        assert forall|i: int| 0 <= i < after.len() implies (#[trigger] after[i]).contains(
            i as u32,
        ) by {
            assert(groups[i].contains(i as u32));
            let k = choose|k: int| 0 <= k < groups[i].len() && groups[i][k] == i as u32;
            if groups[i] == w {
                assert(m[k] == i as u32);
            } else if groups[i] == l {
                assert(m[w.len() + k] == i as u32);
            }
        }
        assert(m.no_duplicates()) by {
            assert(w.no_duplicates() && l.no_duplicates());
            assert forall|a: int, b: int| 0 <= a < m.len() && 0 <= b < m.len() && a != b implies m[a]
                != m[b] by {
                if a < w.len() && b >= w.len() {
                    assert(groups[groups[winner as int][a] as int] == w);
                    assert(groups[groups[loser as int][b - w.len()] as int] == l);
                } else if b < w.len() && a >= w.len() {
                    assert(groups[groups[winner as int][b] as int] == w);
                    assert(groups[groups[loser as int][a - w.len()] as int] == l);
                }
            }
        }
        assert forall|i: int, k: int|
            0 <= i < after.len() && 0 <= k < after[i].len() implies (#[trigger] after[i][k])
            < after.len() && after[after[i][k] as int] == after[i] by {
            if groups[i] == w || groups[i] == l {
                if k < w.len() {
                    assert(groups[groups[winner as int][k] as int] == w);
                } else {
                    assert(groups[groups[loser as int][k - w.len()] as int] == l);
                }
            } else {
                assert(groups[groups[i][k] as int] == groups[i]);
            }
        }
    }
}

/// Communities partition the nodes.
pub proof fn lemma_communities_partition(n: nat, merges: Seq<(u32, u32)>)
    requires
        n <= u32::MAX,
        merges_in_range(n, merges),
    ensures
        is_partition(communities(n, merges)),
        communities(n, merges).len() == n,
    decreases merges.len(),
{
    if merges.len() == 0 {
        assert forall|i: int| 0 <= i < n implies (#[trigger] alone(n)[i]).contains(i as u32) by {
            assert(alone(n)[i][0] == i as u32);
        }
    } else {
        assert(merges_in_range(n, merges.drop_last())) by {
            assert forall|i: int| 0 <= i < merges.len() - 1 implies (
            #[trigger] merges.drop_last()[i]).0 < n && merges.drop_last()[i].1 < n by {
                assert(merges[i].0 < n);
            }
        }
        lemma_communities_partition(n, merges.drop_last());
        assert(merges[merges.len() - 1].0 < n);
        lemma_joined_partition(
            communities(n, merges.drop_last()),
            merges.last().0,
            merges.last().1,
        );
    }
}

/// What the visit order lists belongs to communities met so far.
proof fn lemma_visit_order_members(groups: Seq<Seq<u32>>, k: int)
    requires
        is_partition(groups),
        0 <= k <= groups.len(),
    ensures
        forall|x: int|
            0 <= x < visit_order(groups, k).len() ==> (#[trigger] visit_order(groups, k)[x])
                < groups.len() && exists|j: int|
                0 <= j < k && #[trigger] groups[j] == groups[visit_order(groups, k)[x] as int],
    decreases k,
{
    if k > 0 {
        lemma_visit_order_members(groups, k - 1);
        let before = visit_order(groups, k - 1);
        let after = visit_order(groups, k);
        assert forall|x: int| 0 <= x < after.len() implies (#[trigger] after[x]) < groups.len()
            && exists|j: int| 0 <= j < k && #[trigger] groups[j] == groups[after[x] as int] by {
            if x < before.len() {
                assert(after[x] == before[x]);
                let j = choose|j: int|
                    0 <= j < k - 1 && #[trigger] groups[j] == groups[before[x] as int];
                assert(groups[j] == groups[after[x] as int]);
            } else {
                assert(groups[k - 1][x - before.len()] == after[x]);
                assert(groups[k - 1] == groups[after[x] as int]);
            }
        }
    }
}

/// The visit order names no node twice.
proof fn lemma_visit_order_distinct(groups: Seq<Seq<u32>>, k: int)
    requires
        is_partition(groups),
        0 <= k <= groups.len(),
    ensures
        visit_order(groups, k).no_duplicates(),
    decreases k,
{
    if k > 0 {
        lemma_visit_order_distinct(groups, k - 1);
        lemma_visit_order_members(groups, k - 1);
        let before = visit_order(groups, k - 1);
        let after = visit_order(groups, k);
        let g = groups[k - 1];
        assert(g.no_duplicates());
        if first_of_group(groups, k - 1) {
            assert forall|a: int, b: int|
                0 <= a < before.len() && before.len() <= b < after.len() implies after[a]
                != after[b] by {
                assert(before[a] == after[a]);
                let j = choose|j: int|
                    0 <= j < k - 1 && #[trigger] groups[j] == groups[before[a] as int];
                assert(groups[k - 1][b - before.len()] == after[b]);
                assert(groups[j] != groups[k - 1]);
            }
            assert forall|a: int, b: int|
                0 <= a < after.len() && 0 <= b < after.len() && a != b implies after[a]
                != after[b] by {
                if a >= before.len() && b >= before.len() {
                    assert(after[a] == g[a - before.len()]);
                    assert(after[b] == g[b - before.len()]);
                } else if a < before.len() && b < before.len() {
                    assert(after[a] == before[a] && after[b] == before[b]);
                }
            }
        }
    }
}

/// Every node met so far is in the visit order.
proof fn lemma_visit_order_covers(groups: Seq<Seq<u32>>, k: int)
    requires
        is_partition(groups),
        groups.len() <= u32::MAX,
        0 <= k <= groups.len(),
    ensures
        forall|j: u32| j < k ==> #[trigger] visit_order(groups, k).contains(j),
{
    assert forall|j: u32| j < k implies #[trigger] visit_order(groups, k).contains(j) by {
        let g = groups[j as int];
        lemma_visit_order_has_group(groups, k, j as int);
        assert(groups[j as int].contains(j));
        let x = choose|x: int| 0 <= x < g.len() && g[x] == j;
        assert(visit_order(groups, k).contains(groups[j as int][x]));
    }
}

/// The whole community of a node met so far is in the visit order.
proof fn lemma_visit_order_has_group(groups: Seq<Seq<u32>>, k: int, j: int)
    requires
        is_partition(groups),
        0 <= j < k <= groups.len(),
    ensures
        forall|x: int|
            0 <= x < groups[j].len() ==> visit_order(groups, k).contains(#[trigger] groups[j][x]),
    decreases k,
{
    let before = visit_order(groups, k - 1);
    let after = visit_order(groups, k);
    if j < k - 1 {
        lemma_visit_order_has_group(groups, k - 1, j);
        assert forall|x: int| 0 <= x < groups[j].len() implies after.contains(
            #[trigger] groups[j][x],
        ) by {
            assert(before.contains(groups[j][x]));
            let y = choose|y: int| 0 <= y < before.len() && before[y] == groups[j][x];
            assert(after[y] == groups[j][x]);
        }
    } else if first_of_group(groups, j) {
        assert forall|x: int| 0 <= x < groups[j].len() implies after.contains(
            #[trigger] groups[j][x],
        ) by {
            assert(after[before.len() + x] == groups[j][x]);
        }
    } else {
        let j0 = choose|j0: int| 0 <= j0 < j && #[trigger] groups[j0] == groups[j];
        lemma_visit_order_has_group(groups, k - 1, j0);
        assert forall|x: int| 0 <= x < groups[j].len() implies after.contains(
            #[trigger] groups[j][x],
        ) by {
            assert(after.contains(groups[j0][x]));
        }
    }
}

/// The visit order of all communities names every node exactly once.
pub proof fn law_visit_order_is_permutation(n: nat, merges: Seq<(u32, u32)>)
    requires
        n <= u32::MAX,
        merges_in_range(n, merges),
    ensures
        is_permutation(visit_order(communities(n, merges), n as int), n),
{
    let groups = communities(n, merges);
    lemma_communities_partition(n, merges);
    lemma_visit_order_members(groups, n as int);
    lemma_visit_order_distinct(groups, n as int);
    lemma_visit_order_covers(groups, n as int);
    let order = visit_order(groups, n as int);
    let ids = order.map_values(|x: u32| x as int);
    assert(ids.no_duplicates());
    ids.unique_seq_to_set();
    lemma_int_range(0, n as int);
    assert(ids.to_set() =~= set_int_range(0, n as int)) by {
        assert forall|v: int| set_int_range(0, n as int).contains(v) implies ids.to_set().contains(
            v,
        ) by {
            assert(order.contains(v as u32));
            let x = choose|x: int| 0 <= x < order.len() && order[x] == v as u32;
            assert(ids[x] == v);
        }
        assert forall|v: int| ids.to_set().contains(v) implies set_int_range(0, n as int).contains(
            v,
        ) by {
            let x = choose|x: int| 0 <= x < ids.len() && ids[x] == v;
            assert(order[x] < n);
        }
    }
}

/// Without merges the visit order is the identity.
pub proof fn law_no_merges_keep_the_order(n: nat, k: int)
    requires
        n <= u32::MAX,
        0 <= k <= n,
    ensures
        visit_order(communities(n, Seq::empty()), k) == identity(k as nat),
    decreases k,
{
    if k > 0 {
        law_no_merges_keep_the_order(n, k - 1);
        let groups = alone(n);
        assert(first_of_group(groups, k - 1)) by {
            assert forall|j: int| 0 <= j < k - 1 implies #[trigger] groups[j] != groups[k - 1] by {
                assert(groups[j][0] == j as u32);
                assert(groups[k - 1][0] == (k - 1) as u32);
            }
        }
        assert(visit_order(groups, k) =~= identity(k as nat));
    } else {
        assert(visit_order(communities(n, Seq::empty()), k) =~= identity(0));
    }
}

/// Dense numbering gives two nodes one number exactly when they are in one
/// community.
pub proof fn law_same_id_means_same_community(
    groups: Seq<Seq<u32>>,
    ids: Seq<u32>,
    i: int,
    j: int,
)
    requires
        dense_ids(groups, groups.len() as int, ids),
        0 <= i < groups.len(),
        0 <= j < groups.len(),
    ensures
        ids[i] == ids[j] <==> groups[i] == groups[j],
{
    let a = lemma_first_member(groups, i);
    let b = lemma_first_member(groups, j);
    assert(ids[a] == groups_below(groups, a) && ids[b] == groups_below(groups, b));
    assert(ids[i] == ids[a] && ids[j] == ids[b]);
    if a < b {
        lemma_groups_below_grow(groups, a, b);
    } else if b < a {
        lemma_groups_below_grow(groups, b, a);
    }
}

/// Dense numbering uses every number below the number of communities.
pub proof fn law_ids_are_dense(groups: Seq<Seq<u32>>, ids: Seq<u32>, k: int, p: nat) -> (i: int)
    requires
        dense_ids(groups, groups.len() as int, ids),
        0 <= k <= groups.len(),
        p < groups_below(groups, k),
    ensures
        0 <= i < k,
        ids[i] == p,
    decreases k,
{
    if p < groups_below(groups, k - 1) {
        law_ids_are_dense(groups, ids, k - 1, p)
    } else {
        assert(ids[k - 1] == groups_below(groups, k - 1));
        k - 1
    }
}

/// Without merges every node is alone. A merge puts the members of the losing
/// community behind those of the winning one, for the members of both, and
/// leaves every other community as it was; a merge inside a community changes
/// nothing.
pub proof fn law_merge_joins_two_communities(
    n: nat,
    merges: Seq<(u32, u32)>,
    winner: u32,
    loser: u32,
    i: int,
)
    requires
        n <= u32::MAX,
        merges_in_range(n, merges),
        0 <= i < n,
    ensures
        communities(n, Seq::empty())[i] == seq![i as u32],
        ({
            let c = communities(n, merges);
            let after = communities(n, merges.push((winner, loser)))[i];
            let w = c[winner as int];
            let l = c[loser as int];
            if w != l && (c[i] == w || c[i] == l) {
                after == w + l
            } else {
                after == c[i]
            }
        }),
{
    assert(merges.push((winner, loser)).drop_last() =~= merges);
    lemma_communities_partition(n, merges);
}

/// Numbers are given in the order of the nodes: a node has the number of an
/// earlier node of its community, or else the least number that no earlier node
/// has.
pub proof fn law_ids_count_up(groups: Seq<Seq<u32>>, ids: Seq<u32>, i: int)
    requires
        dense_ids(groups, groups.len() as int, ids),
        0 <= i < groups.len(),
    ensures
        (exists|j: int| 0 <= j < i && #[trigger] ids[j] == ids[i] && groups[j] == groups[i]) || {
            &&& forall|j: int| 0 <= j < i ==> #[trigger] ids[j] < ids[i]
            &&& forall|p: u32| p < ids[i] ==> #[trigger] ids.take(i).contains(p)
        },
{
    if first_of_group(groups, i) {
        assert forall|j: int| 0 <= j < i implies #[trigger] ids[j] < ids[i] by {
            let a = lemma_first_member(groups, j);
            assert(ids[a] == ids[j]);
            lemma_groups_below_grow(groups, a, i);
        }
        assert forall|p: u32| p < ids[i] implies #[trigger] ids.take(i).contains(p) by {
            let j = law_ids_are_dense(groups, ids, i, p as nat);
            assert(ids.take(i)[j] == p);
        }
    } else {
        let j = choose|j: int| 0 <= j < i && #[trigger] groups[j] == groups[i];
        assert(ids[j] == ids[i]);
    }
}

/// In the visit order the members of a community stand together, in the
/// community's own order, and every node that comes before them is in a community
/// with a smaller smallest node. The place where the community starts is
/// returned.
pub proof fn law_community_stands_together(groups: Seq<Seq<u32>>, i: int) -> (start: int)
    requires
        is_partition(groups),
        0 <= i < groups.len() <= u32::MAX,
    ensures
        ({
            let order = visit_order(groups, groups.len() as int);
            &&& 0 <= start <= start + groups[i].len() <= order.len()
            &&& order.subrange(start, start + groups[i].len()) == groups[i]
            &&& forall|p: int|
                0 <= p < start ==> (#[trigger] order[p]) < groups.len() && exists|m: u32|
                    #[trigger] groups[order[p] as int].contains(m) && forall|x: u32|
                        groups[i].contains(x) ==> m < x
        }),
{
    let a = lemma_first_member(groups, i);
    let start = visit_order(groups, a).len() as int;
    lemma_visit_order_prefix(groups, a + 1, groups.len() as int);
    lemma_visit_order_prefix(groups, a, groups.len() as int);
    let order = visit_order(groups, groups.len() as int);
    let head = visit_order(groups, a + 1);
    assert(head.subrange(start, start + groups[i].len()) =~= groups[i]);
    assert(order.subrange(start, start + groups[i].len()) =~= groups[i]) by {
        assert forall|k: int| 0 <= k < groups[i].len() implies order[start + k] == groups[i][k] by {
            assert(order[start + k] == head[start + k]);
        }
    }
    assert forall|p: int| 0 <= p < start implies (#[trigger] order[p]) < groups.len() && exists|
        m: u32,
    | #[trigger] groups[order[p] as int].contains(m) && forall|x: u32| groups[i].contains(x) ==> m
        < x by {
        assert(order[p] == visit_order(groups, a)[p]);
        let m = lemma_visited_first(groups, a, p);
        assert forall|x: u32| groups[i].contains(x) implies m < x by {
            let k = choose|k: int| 0 <= k < groups[i].len() && groups[i][k] == x;
            assert(groups[groups[i][k] as int] == groups[i]);
            if x < a {
                assert(groups[x as int] == groups[a]);
            }
        }
        assert(groups[m as int].contains(m as u32));
        assert(groups[order[p] as int].contains(m as u32));
    }
    start
}

proof fn lemma_visit_order_prefix(groups: Seq<Seq<u32>>, a: int, b: int)
    requires
        0 <= a <= b,
    ensures
        visit_order(groups, a).len() <= visit_order(groups, b).len(),
        forall|p: int|
            0 <= p < visit_order(groups, a).len() ==> visit_order(groups, a)[p]
                == #[trigger] visit_order(groups, b)[p],
    decreases b - a,
{
    if a < b {
        lemma_visit_order_prefix(groups, a, b - 1);
    }
}

/// What has been visited before node `a` is in the community of an earlier node.
proof fn lemma_visited_first(groups: Seq<Seq<u32>>, a: int, p: int) -> (m: int)
    requires
        is_partition(groups),
        0 <= a <= groups.len() <= u32::MAX,
        0 <= p < visit_order(groups, a).len(),
    ensures
        0 <= m < a,
        visit_order(groups, a)[p] < groups.len(),
        groups[visit_order(groups, a)[p] as int] == groups[m],
    decreases a,
{
    let before = visit_order(groups, a - 1);
    if p < before.len() {
        lemma_visited_first(groups, a - 1, p)
    } else {
        let k = p - before.len();
        assert(visit_order(groups, a)[p] == groups[a - 1][k]);
        a - 1
    }
}

/// The smallest node of a community.
proof fn lemma_first_member(groups: Seq<Seq<u32>>, i: int) -> (a: int)
    requires
        0 <= i < groups.len(),
    ensures
        0 <= a <= i,
        groups[a] == groups[i],
        first_of_group(groups, a),
    decreases i,
{
    if first_of_group(groups, i) {
        i
    } else {
        let j = choose|j: int| 0 <= j < i && #[trigger] groups[j] == groups[i];
        lemma_first_member(groups, j)
    }
}

proof fn lemma_groups_below_grow(groups: Seq<Seq<u32>>, a: int, b: int)
    requires
        0 <= a < b,
        first_of_group(groups, a),
    ensures
        groups_below(groups, a) < groups_below(groups, b),
    decreases b - a,
{
    if b > a + 1 {
        lemma_groups_below_grow(groups, a, b - 1);
    }
}

proof fn lemma_groups_below_bound(groups: Seq<Seq<u32>>, k: int)
    requires
        0 <= k,
    ensures
        groups_below(groups, k) <= k,
    decreases k,
{
    if k > 0 {
        lemma_groups_below_bound(groups, k - 1);
    }
}

/// Numbering one more node: a new number for a new community, else the number
/// that the community has.
proof fn lemma_number_step(groups: Seq<Seq<u32>>, k: int, ids: Seq<u32>, id: u32)
    requires
        0 <= k,
        dense_ids(groups, k, ids),
        first_of_group(groups, k) ==> id == groups_below(groups, k),
        !first_of_group(groups, k) ==> exists|j: int|
            0 <= j < k && #[trigger] groups[j] == groups[k] && ids[j] == id,
    ensures
        dense_ids(groups, k + 1, ids.push(id)),
{
    let all = ids.push(id);
    assert forall|i: int, j: int|
        #![trigger all[i], all[j]]
        0 <= i < k + 1 && 0 <= j < k + 1 && groups[i] == groups[j] implies all[i] == all[j] by {
        if i < k && j < k {
            assert(ids[i] == ids[j]);
        } else if i < k || j < k {
            let m = if i < k {
                i
            } else {
                j
            };
            assert(groups[m] == groups[k]);
            let h = choose|h: int| 0 <= h < k && #[trigger] groups[h] == groups[k] && ids[h] == id;
            assert(ids[m] == ids[h]);
        }
    }
    assert forall|i: int|
        #![trigger all[i]]
        0 <= i < k + 1 && first_of_group(groups, i) implies all[i] == groups_below(groups, i) by {
        if i < k {
            assert(ids[i] == groups_below(groups, i));
        }
    }
}

/// An inner node of the merge tree.
#[derive(Clone, Copy)]
pub struct DendrogramNode {
    pub left: u32,
    pub right: u32,
}

/// The leaves below index `idx`, left to right. Indices below `n` are leaves,
/// the others inner nodes, whose children have smaller indices.
spec fn leaves(n: nat, tree: Seq<DendrogramNode>, idx: int) -> Seq<u32>
    decreases idx,
{
    if idx < n {
        seq![idx as u32]
    } else if idx - n < tree.len() && tree[idx - n].left < idx && tree[idx - n].right < idx {
        leaves(n, tree, tree[idx - n].left as int) + leaves(n, tree, tree[idx - n].right as int)
    } else {
        Seq::empty()
    }
}

/// How many steps a traversal of the tree below `idx` takes.
spec fn steps(n: nat, tree: Seq<DendrogramNode>, idx: int) -> nat
    decreases idx,
{
    if idx < n {
        1
    } else if idx - n < tree.len() && tree[idx - n].left < idx && tree[idx - n].right < idx {
        1 + steps(n, tree, tree[idx - n].left as int) + steps(
            n,
            tree,
            tree[idx - n].right as int,
        )
    } else {
        1
    }
}

/// Children come before their parents.
spec fn tree_ok(n: nat, tree: Seq<DendrogramNode>) -> bool {
    forall|k: int|
        0 <= k < tree.len() ==> (#[trigger] tree[k]).left < n + k && tree[k].right < n + k
}

/// A new inner node leaves the trees below the others as they are.
proof fn lemma_leaves_push(n: nat, tree: Seq<DendrogramNode>, node: DendrogramNode, idx: int)
    requires
        0 <= idx < n + tree.len(),
        tree_ok(n, tree),
    ensures
        leaves(n, tree.push(node), idx) == leaves(n, tree, idx),
    decreases idx,
{
    if idx >= n {
        let t = tree[idx - n];
        assert(tree.push(node)[idx - n] == t);
        lemma_leaves_push(n, tree, node, t.left as int);
        lemma_leaves_push(n, tree, node, t.right as int);
    }
}

/// The leaves of the trees on a stack, from the top down.
spec fn stack_leaves(n: nat, tree: Seq<DendrogramNode>, stack: Seq<u32>) -> Seq<u32>
    decreases stack.len(),
{
    if stack.len() == 0 {
        Seq::empty()
    } else {
        leaves(n, tree, stack.last() as int) + stack_leaves(n, tree, stack.drop_last())
    }
}

spec fn stack_steps(n: nat, tree: Seq<DendrogramNode>, stack: Seq<u32>) -> nat
    decreases stack.len(),
{
    if stack.len() == 0 {
        0
    } else {
        steps(n, tree, stack.last() as int) + stack_steps(n, tree, stack.drop_last())
    }
}

/// A tree on top of the stack comes first.
proof fn lemma_stack_push(n: nat, tree: Seq<DendrogramNode>, stack: Seq<u32>, idx: u32)
    ensures
        stack_leaves(n, tree, stack.push(idx)) == leaves(n, tree, idx as int) + stack_leaves(
            n,
            tree,
            stack,
        ),
        stack_steps(n, tree, stack.push(idx)) == steps(n, tree, idx as int) + stack_steps(
            n,
            tree,
            stack,
        ),
{
    assert(stack.push(idx).drop_last() =~= stack);
}

/// The merge log replayed: who is in which community, and the tree of each.
struct Replay {
    uf: RankUnionFind,
    /// Tree of the community, by its root.
    community: Vec<u32>,
    tree: Vec<DendrogramNode>,
    groups: Ghost<Seq<Seq<u32>>>,
}

/// The union-find and the model agree on who is together.
spec fn agrees(roots: Seq<u32>, groups: Seq<Seq<u32>>) -> bool {
    &&& roots.len() == groups.len()
    &&& forall|i: int, j: int|
        0 <= i < roots.len() && 0 <= j < roots.len() ==> (roots[i] == roots[j] <==> groups[i]
            == groups[j])
}

impl Replay {
    spec fn wf(&self, n: nat) -> bool {
        let groups = self.groups@;
        &&& n <= u32::MAX
        &&& self.uf.wf()
        &&& self.uf@.len() == n
        &&& is_root_map(self.uf@)
        &&& groups.len() == n
        &&& is_partition(groups)
        &&& agrees(self.uf@, groups)
        &&& self.community@.len() == n
        &&& tree_ok(n, self.tree@)
        &&& n + self.tree@.len() <= u32::MAX
        &&& forall|i: int|
            0 <= i < n ==> {
                let idx = self.community@[(#[trigger] self.uf@[i]) as int];
                &&& idx < n + self.tree@.len()
                &&& leaves(n, self.tree@, idx as int) == groups[i]
            }
    }

    /// Replays the merge log in order.
    fn run(n: usize, merges: &[(u32, u32)]) -> (r: Replay)
        requires
            n + merges@.len() <= u32::MAX,
            merges_in_range(n as nat, merges@),
        ensures
            r.wf(n as nat),
            r.groups@ == communities(n as nat, merges@),
    {
        let mut uf = RankUnionFind::new(n);
        let mut community: Vec<u32> = Vec::with_capacity(n);
        let mut i: usize = 0;
        while i < n
            invariant
                i <= n <= u32::MAX,
                community@ == identity(i as nat),
            decreases n - i,
        {
            community.push(i as u32);
            i += 1;
            assert(community@ =~= identity(i as nat));
        }
        let tree: Vec<DendrogramNode> = Vec::new();
        let ghost groups = alone(n as nat);
        proof {
            lemma_communities_partition(n as nat, Seq::empty());
            lemma_alone_agrees(n as nat);
        }
        let mut r = Replay { uf, community, tree, groups: Ghost(groups) };
        assert(merges@.take(0) =~= Seq::empty());
        let mut k: usize = 0;
        while k < merges.len()
            invariant
                k <= merges@.len(),
                n + merges@.len() <= u32::MAX,
                merges_in_range(n as nat, merges@),
                r.wf(n as nat),
                r.groups@ == communities(n as nat, merges@.take(k as int)),
                r.tree@.len() <= k,
            decreases merges@.len() - k,
        {
            let (winner, loser) = merges[k];
            assert(merges@[k as int].0 < n);
            r.merge(n, winner, loser);
            assert(merges@.take(k + 1).drop_last() =~= merges@.take(k as int));
            k += 1;
        }
        assert(merges@.take(k as int) =~= merges@);
        r
    }

    /// Replays one merge.
    fn merge(&mut self, n: usize, winner: u32, loser: u32)
        requires
            old(self).wf(n as nat),
            winner < n,
            loser < n,
            n + old(self).tree@.len() < u32::MAX,
        ensures
            final(self).wf(n as nat),
            final(self).groups@ == joined(old(self).groups@, winner, loser),
            final(self).tree@.len() <= old(self).tree@.len() + 1,
    {
        let ghost groups = self.groups@;
        let ghost roots = self.uf@;
        let rw = self.uf.find(winner);
        let rl = self.uf.find(loser);
        if rw == rl {
            assert(roots[winner as int] == roots[loser as int]);
            return;
        }
        assert(roots[rw as int] == rw && roots[rl as int] == rl);
        assert(groups[winner as int] != groups[loser as int]);
        assert(groups[rw as int] == groups[winner as int]);
        assert(groups[rl as int] == groups[loser as int]);
        let idx: u32 = n as u32 + self.tree.len() as u32;
        let left = self.community[rw as usize];
        let right = self.community[rl as usize];
        let ghost tree = self.tree@;
        let ghost node = DendrogramNode { left, right };
        let ghost comm = self.community@;
        proof {
            assert(left < n + tree.len()) by {
                assert(self.uf@[winner as int] == rw);
            }
            assert(right < n + tree.len()) by {
                assert(self.uf@[loser as int] == rl);
            }
        }
        self.tree.push(DendrogramNode { left, right });
        let root = self.uf.union(rw, rl);
        self.community[root as usize] = idx;
        let ghost after = joined(groups, winner, loser);
        self.groups = Ghost(after);
        proof {
            lemma_joined_partition(groups, winner, loser);
            let to = root;
            let from = if root == rw {
                rl
            } else {
                rw
            };
            assert(self.uf@ == relink(roots, from, to));
            assert(tree_ok(n as nat, self.tree@)) by {
                assert forall|k: int| 0 <= k < self.tree@.len() implies (
                #[trigger] self.tree@[k]).left < n + k && self.tree@[k].right < n + k by {
                    if k < tree.len() {
                        assert(self.tree@[k] == tree[k]);
                    }
                }
            }
            lemma_agrees_joined(roots, groups, winner, loser, from, to);
            assert(is_root_map(self.uf@)) by {
                assert forall|i: int| 0 <= i < n implies (#[trigger] self.uf@[i]) < n
                    && self.uf@[self.uf@[i] as int] == self.uf@[i] by {
                    assert(roots[roots[i] as int] == roots[i]);
                }
            }
            assert forall|i: int| 0 <= i < n implies {
                let c = self.community@[(#[trigger] self.uf@[i]) as int];
                &&& c < n + self.tree@.len()
                &&& leaves(n as nat, self.tree@, c as int) == after[i]
            } by {
                let g = groups[i];
                if g == groups[winner as int] || g == groups[loser as int] {
                    assert(self.uf@[i] == to);
                    assert(self.community@[to as int] == idx);
                    lemma_leaves_push(n as nat, tree, node, left as int);
                    lemma_leaves_push(n as nat, tree, node, right as int);
                    assert(self.tree@[idx - n] == node);
                    assert(leaves(n as nat, tree, left as int) == groups[winner as int]) by {
                        assert(roots[winner as int] == rw);
                    }
                    assert(leaves(n as nat, tree, right as int) == groups[loser as int]) by {
                        assert(roots[loser as int] == rl);
                    }
                } else {
                    assert(roots[i] != rw && roots[i] != rl);
                    assert(self.uf@[i] == roots[i]);
                    let c = comm[roots[i] as int];
                    assert(self.community@[roots[i] as int] == c);
                    lemma_leaves_push(n as nat, tree, node, c as int);
                }
            }
        }
    }

    /// Lists the nodes community by community.
    fn order(&mut self, n: usize) -> (perm: Vec<u32>)
        requires
            old(self).wf(n as nat),
        ensures
            final(self).wf(n as nat),
            final(self).groups@ == old(self).groups@,
            perm@ == visit_order(old(self).groups@, n as int),
    {
        let ghost groups = self.groups@;
        let mut perm: Vec<u32> = Vec::with_capacity(n);
        let mut root_seen: Vec<bool> = vec![false; n];
        let mut stack: Vec<u32> = Vec::new();
        let mut i: usize = 0;
        while i < n
            invariant
                i <= n,
                self.wf(n as nat),
                self.groups@ == groups,
                groups == old(self).groups@,
                root_seen@.len() == n,
                perm@ == visit_order(groups, i as int),
                forall|r: int|
                    0 <= r < n ==> (#[trigger] root_seen@[r] <==> exists|j: int|
                        0 <= j < i && #[trigger] self.uf@[j] == r),
            decreases n - i,
        {
            let root = self.uf.find(i as u32);
            let ghost roots = self.uf@;
            if !root_seen[root as usize] {
                proof {
                    assert forall|j: int| 0 <= j < i implies #[trigger] groups[j]
                        != groups[i as int] by {
                        assert(roots[j] != root);
                    }
                    assert(first_of_group(groups, i as int));
                }
                let start = self.community[root as usize];
                assert(leaves(n as nat, self.tree@, start as int) == groups[i as int]) by {
                    assert(self.uf@[i as int] == root);
                }
                self.list(n, start, &mut stack, &mut perm);
            } else {
                let ghost j = choose|j: int| 0 <= j < i && #[trigger] roots[j] == root;
                assert(groups[j] == groups[i as int]);
                assert(!first_of_group(groups, i as int));
            }
            root_seen[root as usize] = true;
            proof {
                assert forall|r: int| 0 <= r < n implies (#[trigger] root_seen@[r] <==> exists|j: int|
                    0 <= j < i + 1 && #[trigger] self.uf@[j] == r) by {
                    if r == root {
                        assert(self.uf@[i as int] == r);
                    }
                }
            }
            i += 1;
        }
        perm
    }

    /// Appends the leaves below `start` to `perm`.
    fn list(&self, n: usize, start: u32, stack: &mut Vec<u32>, perm: &mut Vec<u32>)
        requires
            self.wf(n as nat),
            start < n + self.tree@.len(),
        ensures
            final(perm)@ == old(perm)@ + leaves(n as nat, self.tree@, start as int),
    {
        let ghost t = self.tree@;
        let ghost target = perm@ + leaves(n as nat, t, start as int);
        stack.clear();
        stack.push(start);
        proof {
            lemma_stack_push(n as nat, t, Seq::empty(), start);
            assert(Seq::<u32>::empty().push(start) =~= stack@);
            assert(stack_leaves(n as nat, t, stack@) =~= leaves(n as nat, t, start as int));
        }
        loop
            invariant
                self.wf(n as nat),
                t == self.tree@,
                target == old(perm)@ + leaves(n as nat, t, start as int),
                perm@ + stack_leaves(n as nat, t, stack@) == target,
                forall|k: int| 0 <= k < stack@.len() ==> (#[trigger] stack@[k]) < n + t.len(),
            ensures
                perm@ == target,
            decreases stack_steps(n as nat, t, stack@),
        {
            let ghost before = stack@;
            match stack.pop() {
                None => {
                    assert(perm@ =~= target);
                    break ;
                },
                Some(idx) => {
                    assert(stack@ =~= before.drop_last());
                    assert(idx == before[before.len() - 1]);
                    if (idx as usize) < n {
                        let ghost done = perm@;
                        perm.push(idx);
                        assert(perm@ + stack_leaves(n as nat, t, stack@) =~= done + stack_leaves(
                            n as nat,
                            t,
                            before,
                        ));
                    } else {
                        let slot: usize = idx as usize - n;
                        let node = self.tree[slot];
                        let ghost rest = stack@;
                        stack.push(node.right);
                        let ghost mid = stack@;
                        stack.push(node.left);
                        proof {
                            assert(t[slot as int].left < n + slot);
                            lemma_stack_push(n as nat, t, rest, node.right);
                            lemma_stack_push(n as nat, t, mid, node.left);
                            assert(stack_leaves(n as nat, t, stack@) =~= leaves(
                                n as nat,
                                t,
                                idx as int,
                            ) + stack_leaves(n as nat, t, rest));
                        }
                    }
                },
            }
        }
    }
}

/// Numbers the communities densely, by their smallest nodes.
fn number(uf: &mut RankUnionFind, n: usize, Ghost(groups): Ghost<Seq<Seq<u32>>>) -> (ids: Vec<u32>)
    requires
        old(uf).wf(),
        agrees(old(uf)@, groups),
        groups.len() == n <= u32::MAX,
    ensures
        final(uf).wf(),
        final(uf)@ == old(uf)@,
        dense_ids(groups, n as int, ids@),
{
    let mut root_to_id: FxHashMap<u32, u32> = FxHashMap::default();
    let mut ids: Vec<u32> = Vec::with_capacity(n);
    let mut i: usize = 0;
    while i < n
        invariant
            i <= n == groups.len() <= u32::MAX,
            uf.wf(),
            uf@ == old(uf)@,
            agrees(uf@, groups),
            dense_ids(groups, i as int, ids@),
            root_to_id@.dom().finite(),
            root_to_id@.len() == groups_below(groups, i as int),
            forall|r: u32|
                #[trigger] root_to_id@.contains_key(r) ==> exists|j: int|
                    0 <= j < i && #[trigger] uf@[j] == r,
            forall|j: int|
                0 <= j < i ==> root_to_id@.contains_key(#[trigger] uf@[j]) && root_to_id@[uf@[j]]
                    == ids@[j],
        decreases n - i,
    {
        let root = uf.find(i as u32);
        let ghost roots = uf@;
        proof {
            lemma_groups_below_bound(groups, i as int);
        }
        let next_id: u32 = fx_len(&root_to_id) as u32;
        let id: u32 = match fx_get(&root_to_id, root) {
            Some(id) => {
                let ghost j = choose|j: int| 0 <= j < i && #[trigger] roots[j] == root;
                assert(groups[j] == groups[i as int]);
                assert(!first_of_group(groups, i as int));
                assert(ids@[j] == id);
                id
            },
            None => {
                assert forall|j: int| 0 <= j < i implies #[trigger] groups[j] != groups[i as int] by {
                    assert(root_to_id@.contains_key(roots[j]));
                }
                assert(first_of_group(groups, i as int));
                fx_insert(&mut root_to_id, root, next_id);
                next_id
            },
        };
        proof {
            lemma_number_step(groups, i as int, ids@, id);
            assert forall|r: u32| #[trigger] root_to_id@.contains_key(r) implies exists|j: int|
                0 <= j < i + 1 && #[trigger] uf@[j] == r by {
                if r == root {
                    assert(uf@[i as int] == r);
                }
            }
        }
        ids.push(id);
        i += 1;
    }
    ids
}

/// Who is together after the merge log, without the trees.
fn replay_sets(n: usize, merges: &[(u32, u32)]) -> (uf: RankUnionFind)
    requires
        n <= u32::MAX,
        merges_in_range(n as nat, merges@),
    ensures
        uf.wf(),
        uf@.len() == n,
        agrees(uf@, communities(n as nat, merges@)),
{
    let mut uf = RankUnionFind::new(n);
    proof {
        lemma_communities_partition(n as nat, Seq::empty());
        lemma_alone_agrees(n as nat);
        assert(merges@.take(0) =~= Seq::empty());
    }
    let mut k: usize = 0;
    while k < merges.len()
        invariant
            k <= merges@.len(),
            n <= u32::MAX,
            merges_in_range(n as nat, merges@),
            uf.wf(),
            uf@.len() == n,
            agrees(uf@, communities(n as nat, merges@.take(k as int))),
        decreases merges@.len() - k,
    {
        let (winner, loser) = merges[k];
        let ghost groups = communities(n as nat, merges@.take(k as int));
        let ghost roots = uf@;
        proof {
            assert(merges@[k as int].0 < n);
            assert(merges_in_range(n as nat, merges@.take(k as int))) by {
                assert forall|i: int| 0 <= i < k implies (#[trigger] merges@.take(k as int)[i]).0 < n
                    && merges@.take(k as int)[i].1 < n by {
                    assert(merges@[i].0 < n);
                }
            }
            lemma_communities_partition(n as nat, merges@.take(k as int));
            assert(merges@.take(k + 1).drop_last() =~= merges@.take(k as int));
        }
        let rw = uf.find(winner);
        let rl = uf.find(loser);
        if rw != rl {
            let root = uf.union(winner, loser);
            proof {
                let from = if root == rw {
                    rl
                } else {
                    rw
                };
                lemma_agrees_joined(roots, groups, winner, loser, from, root);
            }
        } else {
            assert(roots[winner as int] == roots[loser as int]);
        }
        k += 1;
    }
    assert(merges@.take(k as int) =~= merges@);
    uf
}

/// Alone in the union-find is alone in the model.
proof fn lemma_alone_agrees(n: nat)
    requires
        n <= u32::MAX,
    ensures
        agrees(singletons(n), alone(n)),
{
    let groups = alone(n);
    assert forall|i: int, j: int| 0 <= i < n && 0 <= j < n implies (singletons(n)[i]
        == singletons(n)[j] <==> groups[i] == groups[j]) by {
        assert(groups[i][0] == i as u32);
        assert(groups[j][0] == j as u32);
    }
}

/// Merging in the union-find is merging in the model.
proof fn lemma_agrees_joined(
    roots: Seq<u32>,
    groups: Seq<Seq<u32>>,
    winner: u32,
    loser: u32,
    from: u32,
    to: u32,
)
    requires
        agrees(roots, groups),
        is_partition(groups),
        groups.len() <= u32::MAX,
        winner < groups.len(),
        loser < groups.len(),
        from != to,
        (from == roots[winner as int] && to == roots[loser as int]) || (from == roots[loser as int]
            && to == roots[winner as int]),
    ensures
        agrees(relink(roots, from, to), joined(groups, winner, loser)),
{
    let after = joined(groups, winner, loser);
    let linked = relink(roots, from, to);
    assert(groups[winner as int] != groups[loser as int]);
    assert forall|i: int, j: int| 0 <= i < roots.len() && 0 <= j < roots.len() implies (linked[i]
        == linked[j] <==> after[i] == after[j]) by {
        lemma_merged_distinct(groups, winner, loser, i);
        lemma_merged_distinct(groups, winner, loser, j);
        assert(roots[i] == roots[winner as int] <==> groups[i] == groups[winner as int]);
        assert(roots[i] == roots[loser as int] <==> groups[i] == groups[loser as int]);
        assert(roots[j] == roots[winner as int] <==> groups[j] == groups[winner as int]);
        assert(roots[j] == roots[loser as int] <==> groups[j] == groups[loser as int]);
        assert(roots[i] == roots[j] <==> groups[i] == groups[j]);
    }
}

/// A community outside a merge keeps a sequence of its own.
proof fn lemma_merged_distinct(groups: Seq<Seq<u32>>, winner: u32, loser: u32, i: int)
    requires
        is_partition(groups),
        groups.len() <= u32::MAX,
        winner < groups.len(),
        loser < groups.len(),
        groups[winner as int] != groups[loser as int],
        0 <= i < groups.len(),
    ensures
        joined(groups, winner, loser)[i] == groups[winner as int] + groups[loser as int]
            <==> groups[i] == groups[winner as int] || groups[i] == groups[loser as int],
{
    let w = groups[winner as int];
    let l = groups[loser as int];
    if groups[i] != w && groups[i] != l && groups[i] == w + l {
        assert(groups[winner as int].contains(winner));
        let k = choose|k: int| 0 <= k < w.len() && w[k] == winner;
        assert(groups[i][k] == winner);
        assert(groups[groups[i][k] as int] == groups[i]);
    }
}

/// Lists the nodes community by community, as a merge log formed them.
pub fn community_order(n: usize, merges: &[(u32, u32)]) -> (perm: Vec<u32>)
    requires
        n + merges@.len() <= u32::MAX,
        merges_in_range(n as nat, merges@),
    ensures
        perm@ == visit_order(communities(n as nat, merges@), n as int),
        is_permutation(perm@, n as nat),
{
    proof {
        law_visit_order_is_permutation(n as nat, merges@);
    }
    let mut replay = Replay::run(n, merges);
    replay.order(n)
}

/// Numbers the communities that a merge log formed.
pub fn community_ids(n: usize, merges: &[(u32, u32)]) -> (ids: Vec<u32>)
    requires
        n <= u32::MAX,
        merges_in_range(n as nat, merges@),
    ensures
        dense_ids(communities(n as nat, merges@), n as int, ids@),
{
    let mut uf = replay_sets(n, merges);
    number(&mut uf, n, Ghost(communities(n as nat, merges@)))
}

/// Both of the above from one replay of the log.
pub fn community_order_and_ids(n: usize, merges: &[(u32, u32)]) -> (r: (Vec<u32>, Vec<u32>))
    requires
        n + merges@.len() <= u32::MAX,
        merges_in_range(n as nat, merges@),
    ensures
        r.0@ == visit_order(communities(n as nat, merges@), n as int),
        is_permutation(r.0@, n as nat),
        dense_ids(communities(n as nat, merges@), n as int, r.1@),
{
    proof {
        law_visit_order_is_permutation(n as nat, merges@);
    }
    let mut replay = Replay::run(n, merges);
    let ids = number(&mut replay.uf, n, Ghost(communities(n as nat, merges@)));
    let perm = replay.order(n);
    (perm, ids)
}

} // verus!
