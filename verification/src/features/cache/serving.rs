//! What a batch request serves: the same rows that single requests would.
use vstd::prelude::*;
use super::batch::{
    asked, asked_batch, assembled, by_node, cold_rows, finish_does, hot_hits, hot_part,
    hot_promoted, hot_spills, lemma_cold_by_node, lemma_parts, lemma_warm_parts, listed,
    load_start, loads, missing_part, rest_part, spills_view, warm_hits, warm_part, warm_promoted,
    warm_spills, BatchEnd, BatchView, LoadView,
};
use super::error::CacheError;
use super::freq::law_insert_keeps_valid;
use super::tiers::{
    law_hot_promotion_keeps_content, law_warm_promotion_keeps_content, written, CacheStats,
    FeatureVector, TiersView,
};

verus! {

/// The spill file after rows were written to it, one after the other.
pub open spec fn applied(disk: Map<u32, Seq<u32>>, spills: Seq<(u32, Seq<u32>)>) -> Map<
    u32,
    Seq<u32>,
>
    decreases spills.len(),
{
    if spills.len() == 0 {
        disk
    } else {
        applied(disk, spills.drop_last()).insert(spills.last().0, spills.last().1)
    }
}

/// Writing one more row.
proof fn lemma_applied_listed(
    disk: Map<u32, Seq<u32>>,
    spills: Seq<(u32, Seq<u32>)>,
    more: Option<(u32, Seq<u32>)>,
)
    ensures
        applied(disk, spills + listed(more)) == written(applied(disk, spills), more),
{
    match more {
        Some(s) => {
            let all = spills + listed(more);
            assert(all.drop_last() =~= spills);
            assert(all.last() == s);
        },
        None => {
            assert(spills + listed(more) =~= spills);
        },
    }
}

/// Writing rows in two parts.
proof fn lemma_applied_concat(
    disk: Map<u32, Seq<u32>>,
    a: Seq<(u32, Seq<u32>)>,
    b: Seq<(u32, Seq<u32>)>,
)
    ensures
        applied(disk, a + b) == applied(applied(disk, a), b),
    decreases b.len(),
{
    if b.len() == 0 {
        assert(a + b =~= a);
    } else {
        lemma_applied_concat(disk, a, b.drop_last());
        assert((a + b).drop_last() =~= a + b.drop_last());
    }
}

/// Promotion keeps the tiers valid.
proof fn lemma_promoted_valid(t: TiersView, node: u32, row: Seq<u32>)
    requires
        t.valid(),
        row.len() == t.gpu.dim,
    ensures
        t.cpu_promoted(node, row).valid(),
        t.gpu_promoted(node, row).valid(),
        t.gpu_promoted(node, row).gpu.dim == t.gpu.dim,
        t.gpu_promoted(node, row).cold == t.cold,
        t.gpu_promoted(node, row).nvme == t.nvme,
        forall|n: u32| #[trigger]
            t.gpu_promoted(node, row).gpu.rows.contains_key(n) ==> n == node
                || t.gpu.rows.contains_key(n),
        forall|n: u32| #[trigger]
            t.gpu_promoted(node, row).cpu.rows.contains_key(n) ==> n == node
                || t.gpu.rows.contains_key(n) || t.cpu.rows.contains_key(n),
{
    law_insert_keeps_valid(t.gpu, node, row);
    law_insert_keeps_valid(t.cpu, node, row);
    match t.gpu.displaced(node, row) {
        Some((n, r)) => {
            law_insert_keeps_valid(t.cpu, n, r);
        },
        None => {},
    }
}

/// One of the rows is the node's.
spec fn among(found: Seq<(u32, Seq<u32>)>, n: u32) -> bool {
    exists|i: int| 0 <= i < found.len() && (#[trigger] found[i]).0 == n
}

/// Rows that the tiers serve already can go up without a change.
proof fn lemma_hot_promoted_keeps(
    t: TiersView,
    disk: Map<u32, Seq<u32>>,
    found: Seq<(u32, Seq<u32>)>,
)
    requires
        t.valid(),
        forall|i: int|
            0 <= i < found.len() ==> t.content(disk).contains_key((#[trigger] found[i]).0)
                && t.content(disk)[found[i].0] == found[i].1 && found[i].1.len() == t.gpu.dim,
    ensures
        hot_promoted(t, found).valid(),
        hot_promoted(t, found).gpu.dim == t.gpu.dim,
        hot_promoted(t, found).cold == t.cold,
        hot_promoted(t, found).content(applied(disk, hot_spills(t, found))) == t.content(disk),
        forall|n: u32| #[trigger]
            hot_promoted(t, found).gpu.rows.contains_key(n) ==> t.gpu.rows.contains_key(n)
                || among(found, n),
        forall|n: u32| #[trigger]
            hot_promoted(t, found).cpu.rows.contains_key(n) ==> t.gpu.rows.contains_key(n)
                || t.cpu.rows.contains_key(n) || among(found, n),
    decreases found.len(),
{
    if found.len() > 0 {
        let before = found.drop_last();
        let (n, row) = found.last();
        assert forall|i: int| 0 <= i < before.len() implies t.content(disk).contains_key(
            (#[trigger] before[i]).0,
        ) && t.content(disk)[before[i].0] == before[i].1 && before[i].1.len() == t.gpu.dim by {
            assert(before[i] == found[i]);
        }
        lemma_hot_promoted_keeps(t, disk, before);
        assert(found[found.len() - 1] == (n, row));
        let mid = hot_promoted(t, before);
        let mid_disk = applied(disk, hot_spills(t, before));
        lemma_promoted_valid(mid, n, row);
        law_hot_promotion_keeps_content(mid, mid_disk, n, row);
        lemma_applied_listed(disk, hot_spills(t, before), mid.gpu_spill(n, row));
        assert(t.content(disk).insert(n, row) =~= t.content(disk));
        let after = hot_promoted(t, found);
        assert forall|m: u32| among(before, m) || m == n implies #[trigger] among(found, m) by {
            if m == n {
                assert(found[found.len() - 1].0 == m);
            } else {
                let i = choose|i: int| 0 <= i < before.len() && (#[trigger] before[i]).0 == m;
                assert(found[i].0 == m);
            }
        }
        assert forall|m: u32| #[trigger] after.gpu.rows.contains_key(m) implies t.gpu.rows.contains_key(
            m,
        ) || among(found, m) by {
            if m != n {
                assert(mid.gpu.rows.contains_key(m));
            }
        }
        assert forall|m: u32| #[trigger] after.cpu.rows.contains_key(m) implies t.gpu.rows.contains_key(
            m,
        ) || t.cpu.rows.contains_key(m) || among(found, m) by {
            if m != n {
                assert(mid.gpu.rows.contains_key(m) || mid.cpu.rows.contains_key(m));
            }
        }
    }
}

/// Hits change no row.
proof fn lemma_hits_keep(t: TiersView, hot: Seq<u32>, found: Seq<(u32, Seq<u32>)>)
    requires
        t.valid(),
        forall|i: int| 0 <= i < hot.len() ==> t.gpu.rows.contains_key(#[trigger] hot[i]),
        forall|i: int| 0 <= i < found.len() ==> t.cpu.rows.contains_key((#[trigger] found[i]).0),
    ensures
        warm_hits(hot_hits(t, hot), found).valid(),
        warm_hits(hot_hits(t, hot), found).gpu.rows == t.gpu.rows,
        warm_hits(hot_hits(t, hot), found).gpu.dim == t.gpu.dim,
        warm_hits(hot_hits(t, hot), found).cpu.rows == t.cpu.rows,
        warm_hits(hot_hits(t, hot), found).cold == t.cold,
    decreases found.len(), hot.len(),
{
    if found.len() > 0 {
        let before = found.drop_last();
        assert forall|i: int| 0 <= i < before.len() implies t.cpu.rows.contains_key(
            (#[trigger] before[i]).0,
        ) by {
            assert(before[i] == found[i]);
        }
        lemma_hits_keep(t, hot, before);
        let mid = warm_hits(hot_hits(t, hot), before);
        assert(t.cpu.rows.contains_key(found[found.len() - 1].0));
        assert(mid.cpu_hit(found.last().0).cpu.hits.dom() =~= mid.cpu.hits.dom());
    } else if hot.len() > 0 {
        let before = hot.drop_last();
        assert forall|i: int| 0 <= i < before.len() implies t.gpu.rows.contains_key(
            #[trigger] before[i],
        ) by {
            assert(before[i] == hot[i]);
        }
        lemma_hits_keep(t, before, found);
        let mid = hot_hits(t, before);
        assert(warm_hits(mid, found) == mid);
        assert(t.gpu.rows.contains_key(hot[hot.len() - 1]));
        assert(mid.gpu_hit(hot.last()).gpu.hits.dom() =~= mid.gpu.hits.dom());
    }
}

/// Records agree with the spill file, and their nodes are not in the hot tier.
spec fn agree(
    t: TiersView,
    disk: Map<u32, Seq<u32>>,
    found: Seq<(u32, Option<Seq<u32>>)>,
) -> bool {
    forall|i: int|
        0 <= i < found.len() ==> !t.gpu.rows.contains_key((#[trigger] found[i]).0)
            && match found[i].1 {
            Some(row) => t.content(disk).contains_key(found[i].0) && t.content(disk)[found[i].0]
                == row && row.len() == t.gpu.dim,
            None => !t.content(disk).contains_key(found[i].0),
        }
}

/// What taking in records resolves, and that it changes no row.
proof fn lemma_loads_keep(
    t: TiersView,
    resolved: Map<u32, Seq<u32>>,
    disk: Map<u32, Seq<u32>>,
    found: Seq<(u32, Option<Seq<u32>>)>,
)
    requires
        t.valid(),
        agree(t, disk, found),
    ensures
        ({
            let l = loads(load_start(t, resolved), found);
            &&& l.tiers.valid()
            &&& l.tiers.gpu == t.gpu
            &&& l.tiers.cold == t.cold
            &&& l.tiers.content(applied(disk, l.spills)) == t.content(disk)
            &&& forall|n: u32| #[trigger]
                l.resolved.contains_key(n) ==> (resolved.contains_key(n) && l.resolved[n]
                    == resolved[n]) || (t.content(disk).contains_key(n) && l.resolved[n]
                    == t.content(disk)[n])
            &&& forall|i: int|
                0 <= i < l.cold.len() ==> !t.content(disk).contains_key(#[trigger] l.cold[i])
                    && !t.gpu.rows.contains_key(l.cold[i]) && exists|k: int|
                    0 <= k < found.len() && (#[trigger] found[k]).0 == l.cold[i]
            &&& l.cold.len() > 0 ==> t.cold is Some
            &&& l.failed matches Some(n) ==> t.cold is None && !t.content(disk).contains_key(n)
                && exists|k: int| 0 <= k < found.len() && (#[trigger] found[k]).0 == n
            &&& l.failed is None ==> forall|n: u32| #[trigger]
                resolved.contains_key(n) ==> l.resolved.contains_key(n)
            &&& l.failed is None ==> forall|k: int|
                0 <= k < found.len() ==> l.resolved.contains_key((#[trigger] found[k]).0)
                    || l.cold.contains(found[k].0)
        }),
    decreases found.len(),
{
    let start = load_start(t, resolved);
    if found.len() > 0 {
        let before = found.drop_last();
        assert(agree(t, disk, before)) by {
            assert forall|i: int| 0 <= i < before.len() implies !t.gpu.rows.contains_key(
                (#[trigger] before[i]).0,
            ) && match before[i].1 {
                Some(row) => t.content(disk).contains_key(before[i].0)
                    && t.content(disk)[before[i].0] == row && row.len() == t.gpu.dim,
                None => !t.content(disk).contains_key(before[i].0),
            } by {
                assert(before[i] == found[i]);
            }
        }
        lemma_loads_keep(t, resolved, disk, before);
        let l = loads(start, before);
        let after = loads(start, found);
        let last = found[found.len() - 1];
        let n = last.0;
        assert(found.last() == last);
        if l.failed is Some {
            let k = choose|k: int| 0 <= k < before.len() && (#[trigger] before[k]).0 == l.failed->0;
            assert(found[k].0 == l.failed->0);
        } else {
            match last.1 {
                Some(row) => {
                    let hit = l.tiers.nvme_hit();
                    lemma_promoted_valid(hit, n, row);
                    law_warm_promotion_keeps_content(hit, applied(disk, l.spills), n, row);
                    lemma_applied_listed(disk, l.spills, hit.cpu_spill(n, row));
                    assert(hit.content(applied(disk, l.spills)) =~= l.tiers.content(
                        applied(disk, l.spills),
                    ));
                    assert(t.content(disk).insert(n, row) =~= t.content(disk));
                },
                None => {
                    if l.tiers.cold is Some {
                        assert(after.cold[after.cold.len() - 1] == n);
                        assert forall|k: int| 0 <= k < found.len() implies after.resolved.contains_key(
                            (#[trigger] found[k]).0,
                        ) || after.cold.contains(found[k].0) by {
                            if k < before.len() {
                                assert(before[k] == found[k]);
                                if l.cold.contains(found[k].0) {
                                    let j = choose|j: int|
                                        0 <= j < l.cold.len() && l.cold[j] == found[k].0;
                                    assert(after.cold[j] == found[k].0);
                                }
                            }
                        }
                    } else {
                        assert(l.tiers.missed().content(applied(disk, l.spills))
                            =~= l.tiers.content(applied(disk, l.spills)));
                    }
                },
            }
        }
        assert forall|i: int| 0 <= i < after.cold.len() implies !t.content(disk).contains_key(
            #[trigger] after.cold[i],
        ) && !t.gpu.rows.contains_key(after.cold[i]) && exists|k: int|
            0 <= k < found.len() && (#[trigger] found[k]).0 == after.cold[i] by {
            if i < l.cold.len() {
                assert(after.cold[i] == l.cold[i]);
                let k = choose|k: int| 0 <= k < before.len() && (#[trigger] before[k]).0 == l.cold[i];
                assert(found[k].0 == l.cold[i]);
            } else {
                assert(found[found.len() - 1].0 == after.cold[i]);
            }
        }
        if after.failed is None {
            assert forall|k: int| 0 <= k < found.len() implies after.resolved.contains_key(
                (#[trigger] found[k]).0,
            ) || after.cold.contains(found[k].0) by {
                if k < before.len() {
                    assert(before[k] == found[k]);
                }
            }
        } else if l.failed is None {
            assert(found[found.len() - 1].0 == after.failed->0);
        }
    }
}

/// Rows of the backing tier can go up without changing what is served.
proof fn lemma_cold_promoted_keeps(t: TiersView, disk: Map<u32, Seq<u32>>, list: Seq<u32>)
    requires
        t.valid(),
        t.cold is Some,
        t.cold->0.has_all(list),
        forall|i: int|
            0 <= i < list.len() ==> !t.gpu.rows.contains_key(#[trigger] list[i])
                && !t.content(disk).contains_key(list[i]),
    ensures
        ({
            let served = cold_rows(t.cold->0, list);
            let after = warm_promoted(t, served);
            &&& after.valid()
            &&& after.gpu == t.gpu
            &&& after.cold == t.cold
            &&& after.content(applied(disk, warm_spills(t, served))) == t.content(
                disk,
            ).union_prefer_right(by_node(served))
        }),
    decreases list.len(),
{
    let store = t.cold->0;
    let served = cold_rows(store, list);
    if list.len() > 0 {
        let before = list.drop_last();
        let n = list[list.len() - 1];
        assert forall|i: int| 0 <= i < before.len() implies !t.gpu.rows.contains_key(
            #[trigger] before[i],
        ) && !t.content(disk).contains_key(before[i]) && before[i] < store.num_nodes by {
            assert(before[i] == list[i]);
        }
        lemma_cold_promoted_keeps(t, disk, before);
        let part = cold_rows(store, before);
        assert(served.drop_last() =~= part);
        let row = store.row(n as int);
        assert(served.last() == (n, row));
        let mid = warm_promoted(t, part);
        let mid_disk = applied(disk, warm_spills(t, part));
        lemma_promoted_valid(mid, n, row);
        law_warm_promotion_keeps_content(mid, mid_disk, n, row);
        lemma_applied_listed(disk, warm_spills(t, part), mid.cpu_spill(n, row));
        assert(by_node(served) == by_node(part).insert(n, row));
        assert(t.content(disk).union_prefer_right(by_node(part)).insert(n, row) =~= t.content(
            disk,
        ).union_prefer_right(by_node(served)));
    } else {
        assert(t.content(disk) =~= t.content(disk).union_prefer_right(by_node(served)));
    }
}

/// What asking the tiers in memory resolves, and that it changes no row.
proof fn lemma_asked_keeps(t: TiersView, disk: Map<u32, Seq<u32>>, nodes: Seq<u32>)
    requires
        t.valid(),
    ensures
        ({
            let b = asked_batch(t, nodes);
            let after = asked(t, nodes);
            &&& after.valid()
            &&& after.gpu.dim == t.gpu.dim
            &&& after.cold == t.cold
            &&& after.content(applied(disk, b.spills)) == t.content(disk)
            &&& forall|n: u32| #[trigger]
                b.resolved.contains_key(n) ==> t.content(disk).contains_key(n) && b.resolved[n]
                    == t.content(disk)[n]
            &&& forall|i: int|
                0 <= i < b.missing.len() ==> nodes.contains(#[trigger] b.missing[i])
                    && !after.gpu.rows.contains_key(b.missing[i])
                    && !after.cpu.rows.contains_key(b.missing[i])
                    && !t.gpu.rows.contains_key(b.missing[i])
                    && !t.cpu.rows.contains_key(b.missing[i])
            &&& forall|i: int|
                0 <= i < nodes.len() ==> b.resolved.contains_key(#[trigger] nodes[i])
                    || b.missing.contains(nodes[i])
        }),
{
    lemma_parts(t, nodes);
    lemma_warm_parts(t, rest_part(t, nodes));
    let hot = hot_part(t, nodes);
    let rest = rest_part(t, nodes);
    let found = warm_part(t, rest);
    let b = asked_batch(t, nodes);
    let hits = warm_hits(hot_hits(t, hot), found);
    assert forall|i: int| 0 <= i < hot.len() implies t.gpu.rows.contains_key(#[trigger] hot[i]) by {
        assert(hot.contains(hot[i]));
    }
    lemma_hits_keep(t, hot, found);
    assert(hits.content(disk) =~= t.content(disk));
    assert forall|i: int| 0 <= i < found.len() implies hits.content(disk).contains_key(
        (#[trigger] found[i]).0,
    ) && hits.content(disk)[found[i].0] == found[i].1 && found[i].1.len() == hits.gpu.dim by {
        assert(rest.contains(found[i].0));
        assert(!t.gpu.rows.contains_key(found[i].0));
        assert(t.cpu.rows.contains_key(found[i].0));
    }
    lemma_hot_promoted_keeps(hits, disk, found);
    assert forall|n: u32| #[trigger] b.resolved.contains_key(n) implies t.content(
        disk,
    ).contains_key(n) && b.resolved[n] == t.content(disk)[n] by {
        if by_node(found).contains_key(n) {
            assert(rest.contains(n));
        } else {
            assert(hot.contains(n));
        }
    }
    let after = asked(t, nodes);
    assert forall|i: int| 0 <= i < b.missing.len() implies nodes.contains(#[trigger] b.missing[i])
        && !after.gpu.rows.contains_key(b.missing[i]) && !after.cpu.rows.contains_key(b.missing[i])
        && !t.gpu.rows.contains_key(b.missing[i]) && !t.cpu.rows.contains_key(b.missing[i]) by {
        let n = b.missing[i];
        assert(b.missing.contains(n));
        assert(rest.contains(n));
        if among(found, n) {
            let k = choose|k: int| 0 <= k < found.len() && (#[trigger] found[k]).0 == n;
            assert(t.cpu.rows.contains_key(found[k].0));
        }
    }
    assert forall|i: int| 0 <= i < nodes.len() implies b.resolved.contains_key(#[trigger] nodes[i])
        || b.missing.contains(nodes[i]) by {
        let n = nodes[i];
        assert(nodes.contains(n));
        if t.gpu.rows.contains_key(n) {
            assert(hot.contains(n));
        } else {
            assert(rest.contains(n));
            if t.cpu.rows.contains_key(n) {
                assert(by_node(found).contains_key(n));
            } else {
                assert(missing_part(t, rest).contains(n));
            }
        }
    }
}

/// The rows of a batch are those that can be served, or there are none because no
/// tier has a node of it.
pub open spec fn answers(
    served: Map<u32, Seq<u32>>,
    nodes: Seq<u32>,
    rows: Result<Vec<FeatureVector>, CacheError>,
) -> bool {
    match rows {
        Ok(rows) => {
            &&& rows@.len() == nodes.len()
            &&& forall|i: int|
                0 <= i < rows@.len() ==> served.contains_key(nodes[i]) && (#[trigger] rows@[i])@
                    == served[nodes[i]]
        },
        Err(CacheError::NotCached { node }) => nodes.contains(node) && !served.contains_key(node),
        Err(_) => false,
    }
}

/// Rows put together from what can be served are an answer.
proof fn lemma_answers(
    served: Map<u32, Seq<u32>>,
    nodes: Seq<u32>,
    resolved: Map<u32, Seq<u32>>,
    rows: Vec<FeatureVector>,
)
    requires
        assembled(rows@, nodes, resolved),
        forall|i: int|
            0 <= i < nodes.len() ==> served.contains_key(#[trigger] nodes[i])
                && resolved[nodes[i]] == served[nodes[i]],
    ensures
        answers(served, nodes, Ok(rows)),
{
    assert forall|i: int| 0 <= i < rows@.len() implies served.contains_key(nodes[i]) && (
    #[trigger] rows@[i])@ == served[nodes[i]] by {
        assert(served.contains_key(nodes[i]));
    }
}

/// A batch request serves for every node what the cache holds of it, and leaves
/// every row that can be served as it was, once all that was pushed out is written.
/// It fails only on a node that no tier has. `disk` is the spill
/// file; the records are read after what the first part pushed out is written.
pub proof fn law_batch_serves_content(
    t: TiersView,
    disk: Map<u32, Seq<u32>>,
    nodes: Seq<u32>,
    found: Seq<(u32, Option<Seq<u32>>)>,
    end: BatchEnd,
    after: TiersView,
)
    requires
        t.valid(),
        forall|n: u32| #[trigger] disk.contains_key(n) ==> disk[n].len() == t.gpu.dim,
        found.len() == asked_batch(t, nodes).missing.len(),
        forall|i: int|
            0 <= i < found.len() ==> (#[trigger] found[i]).0 == asked_batch(t, nodes).missing[i]
                && found[i].1 == (if applied(disk, asked_batch(t, nodes).spills).contains_key(
                found[i].0,
            ) {
                Some(applied(disk, asked_batch(t, nodes).spills)[found[i].0])
            } else {
                None
            }),
        finish_does(asked(t, nodes), asked_batch(t, nodes), found, end, after),
    ensures
        after.served(
            applied(applied(disk, asked_batch(t, nodes).spills), spills_view(end.spills@)),
        ) == t.served(disk),
        answers(t.served(disk), nodes, end.rows),
{
    lemma_asked_keeps(t, disk, nodes);
    let b = asked_batch(t, nodes);
    let mid = asked(t, nodes);
    let mid_disk = applied(disk, b.spills);
    let content = t.content(disk);
    assert(agree(mid, mid_disk, found)) by {
        assert forall|i: int| 0 <= i < found.len() implies !mid.gpu.rows.contains_key(
            (#[trigger] found[i]).0,
        ) && match found[i].1 {
            Some(row) => mid.content(mid_disk).contains_key(found[i].0)
                && mid.content(mid_disk)[found[i].0] == row && row.len() == mid.gpu.dim,
            None => !mid.content(mid_disk).contains_key(found[i].0),
        } by {
            let n = found[i].0;
            assert(b.missing[i] == n);
            assert(b.missing.contains(n));
            assert(!mid.cpu.rows.contains_key(b.missing[i]));
        }
    }
    lemma_loads_keep(mid, b.resolved, mid_disk, found);
    let l = loads(load_start(mid, b.resolved), found);
    let disk_l = applied(mid_disk, l.spills);
    assert(l.tiers.served(disk_l) =~= t.served(disk));
    if l.failed is Some {
        let n = l.failed->0;
        let k = choose|k: int| 0 <= k < found.len() && (#[trigger] found[k]).0 == n;
        assert(b.missing[k] == n);
        assert(!t.served(disk).contains_key(n));
        assert(answers(t.served(disk), nodes, end.rows));
    } else if l.cold.len() == 0 {
        let rows = end.rows->Ok_0;
        assert forall|i: int| 0 <= i < nodes.len() implies t.served(disk).contains_key(
            #[trigger] nodes[i],
        ) && l.resolved[nodes[i]] == t.served(disk)[nodes[i]] by {
            let n = nodes[i];
            if !b.resolved.contains_key(n) {
                assert(b.missing.contains(n));
                let k = choose|k: int| 0 <= k < b.missing.len() && b.missing[k] == n;
                assert(found[k].0 == n);
            }
            assert(l.resolved.contains_key(n));
        }
        lemma_answers(t.served(disk), nodes, l.resolved, rows);
        assert(answers(t.served(disk), nodes, end.rows));
    } else {
        let store = t.cold->0;
        if !store.has_all(l.cold) {
            let i = choose|i: int|
                store.first_missing(l.cold, i) && end.rows == Err::<Vec<Vec<u32>>, CacheError>(
                    CacheError::NotCached { node: #[trigger] l.cold[i] },
                );
            let n = l.cold[i];
            assert(l.tiers.missed().served(disk_l) =~= t.served(disk));
            let k = choose|k: int| 0 <= k < found.len() && (#[trigger] found[k]).0 == n;
            assert(b.missing[k] == n);
            assert(!t.served(disk).contains_key(n));
            assert(answers(t.served(disk), nodes, end.rows));
        } else {
            let hit = l.tiers.cold_hit(l.cold.len() as u64);
            let served = cold_rows(store, l.cold);
            assert(hit.content(disk_l) =~= l.tiers.content(disk_l));
            let rows = end.rows->Ok_0;
            lemma_cold_promoted_keeps(hit, disk_l, l.cold);
            lemma_cold_by_node(store, l.cold);
            lemma_applied_concat(mid_disk, l.spills, warm_spills(hit, served));
            let final_disk = applied(mid_disk, spills_view(end.spills@));
            assert(after.served(final_disk) =~= t.served(disk)) by {
                assert forall|n: u32| #[trigger] by_node(served).contains_key(n) implies n
                    < store.num_nodes && !content.contains_key(n) by {
                    assert(l.cold.contains(n));
                }
            }
            let all = l.resolved.union_prefer_right(by_node(served));
            assert forall|i: int| 0 <= i < nodes.len() implies t.served(
                disk,
            ).contains_key(#[trigger] nodes[i]) && all[nodes[i]] == t.served(
                disk,
            )[nodes[i]] by {
                let n = nodes[i];
                if by_node(served).contains_key(n) {
                    assert(l.cold.contains(n));
                } else {
                    if !b.resolved.contains_key(n) {
                        assert(b.missing.contains(n));
                        let k = choose|k: int|
                            0 <= k < b.missing.len() && b.missing[k] == n;
                        assert(found[k].0 == n);
                    }
                    assert(!l.cold.contains(n));
                    assert(l.resolved.contains_key(n));
                }
            }
            lemma_answers(t.served(disk), nodes, all, rows);
            assert(answers(t.served(disk), nodes, end.rows));
        }
    }
}

/// A batch looks at every distinct node once, in the order in which the nodes
/// first occur: those in the hot tier, and the others. The places of the first
/// occurrences are returned, hot and others.
pub proof fn law_batch_takes_each_node_once(t: TiersView, nodes: Seq<u32>) -> (places: (
    Seq<int>,
    Seq<int>,
))
    ensures
        ({
            let first = |p: int|
                0 <= p < nodes.len() && forall|q: int| 0 <= q < p ==> nodes[q] != nodes[p];
            let hot = hot_part(t, nodes);
            let rest = rest_part(t, nodes);
            &&& hot == places.0.map_values(|p: int| nodes[p])
            &&& rest == places.1.map_values(|p: int| nodes[p])
            &&& forall|i: int, j: int| 0 <= i < j < places.0.len() ==> places.0[i] < places.0[j]
            &&& forall|i: int, j: int| 0 <= i < j < places.1.len() ==> places.1[i] < places.1[j]
            &&& forall|p: int| #[trigger]
                places.0.contains(p) <==> first(p) && t.gpu.rows.contains_key(nodes[p])
            &&& forall|p: int| #[trigger]
                places.1.contains(p) <==> first(p) && !t.gpu.rows.contains_key(nodes[p])
        }),
{
    let places = lemma_first_places(t, nodes);
    let first = |p: int|
        0 <= p < nodes.len() && forall|q: int| 0 <= q < p ==> nodes[q] != nodes[p];
    assert forall|p: int| first(p) == #[trigger] first_at(nodes, p) by {}
    assert forall|p: int| #[trigger]
        places.0.contains(p) <==> first(p) && t.gpu.rows.contains_key(nodes[p]) by {
        assert(first(p) == first_at(nodes, p));
    }
    assert forall|p: int| #[trigger]
        places.1.contains(p) <==> first(p) && !t.gpu.rows.contains_key(nodes[p]) by {
        assert(first(p) == first_at(nodes, p));
    }
    places
}

/// Place `p` is the first of its node.
spec fn first_at(nodes: Seq<u32>, p: int) -> bool {
    0 <= p < nodes.len() && forall|q: int| 0 <= q < p ==> nodes[q] != nodes[p]
}

proof fn lemma_first_at(nodes: Seq<u32>, p: int)
    requires
        nodes.len() > 0,
        0 <= p < nodes.len(),
    ensures
        p < nodes.len() - 1 ==> first_at(nodes, p) == first_at(nodes.drop_last(), p),
        p == nodes.len() - 1 ==> first_at(nodes, p) == !nodes.drop_last().contains(nodes.last()),
{
    let prev = nodes.drop_last();
    if p < nodes.len() - 1 {
        if first_at(prev, p) {
            assert forall|q: int| 0 <= q < p implies nodes[q] != nodes[p] by {
                assert(prev[q] != prev[p]);
            }
        }
        if first_at(nodes, p) {
            assert forall|q: int| 0 <= q < p implies prev[q] != prev[p] by {
                assert(nodes[q] != nodes[p]);
            }
        }
    } else {
        if prev.contains(nodes.last()) {
            let q = choose|q: int| 0 <= q < prev.len() && prev[q] == nodes.last();
            assert(nodes[q] == nodes[p]);
        } else {
            assert forall|q: int| 0 <= q < p implies nodes[q] != nodes[p] by {
                assert(prev[q] == nodes[q]);
                assert(prev.contains(prev[q]));
            }
        }
    }
}

proof fn lemma_first_places(t: TiersView, nodes: Seq<u32>) -> (places: (Seq<int>, Seq<int>))
    ensures
        hot_part(t, nodes) == places.0.map_values(|p: int| nodes[p]),
        rest_part(t, nodes) == places.1.map_values(|p: int| nodes[p]),
        forall|i: int, j: int| 0 <= i < j < places.0.len() ==> places.0[i] < places.0[j],
        forall|i: int, j: int| 0 <= i < j < places.1.len() ==> places.1[i] < places.1[j],
        forall|p: int| #[trigger]
            places.0.contains(p) <==> first_at(nodes, p) && t.gpu.rows.contains_key(nodes[p]),
        forall|p: int| #[trigger]
            places.1.contains(p) <==> first_at(nodes, p) && !t.gpu.rows.contains_key(nodes[p]),
    decreases nodes.len(),
{
    if nodes.len() == 0 {
        let none = (Seq::<int>::empty(), Seq::<int>::empty());
        assert(hot_part(t, nodes) =~= none.0.map_values(|p: int| nodes[p]));
        assert(rest_part(t, nodes) =~= none.1.map_values(|p: int| nodes[p]));
        none
    } else {
        let prev = nodes.drop_last();
        let last = nodes.len() - 1;
        let before = lemma_first_places(t, prev);
        let hot = lemma_place_added(
            nodes,
            before.0,
            !prev.contains(nodes.last()) && t.gpu.rows.contains_key(nodes.last()),
            |n: u32| t.gpu.rows.contains_key(n),
        );
        let rest = lemma_place_added(
            nodes,
            before.1,
            !prev.contains(nodes.last()) && !t.gpu.rows.contains_key(nodes.last()),
            |n: u32| !t.gpu.rows.contains_key(n),
        );
        assert(hot_part(t, nodes) =~= hot.map_values(|p: int| nodes[p]));
        assert(rest_part(t, nodes) =~= rest.map_values(|p: int| nodes[p]));
        (hot, rest)
    }
}

/// One more place, where the last node is new and meets the condition.
proof fn lemma_place_added(
    nodes: Seq<u32>,
    before: Seq<int>,
    taken: bool,
    keep: spec_fn(u32) -> bool,
) -> (places: Seq<int>)
    requires
        nodes.len() > 0,
        forall|i: int, j: int| 0 <= i < j < before.len() ==> before[i] < before[j],
        forall|p: int| #[trigger]
            before.contains(p) <==> first_at(nodes.drop_last(), p) && keep(nodes.drop_last()[p]),
        taken <==> !nodes.drop_last().contains(nodes.last()) && keep(nodes.last()),
    ensures
        places == (if taken {
            before.push(nodes.len() - 1)
        } else {
            before
        }),
        forall|i: int| 0 <= i < before.len() ==> 0 <= #[trigger] before[i] < nodes.len() - 1,
        forall|i: int, j: int| 0 <= i < j < places.len() ==> places[i] < places[j],
        forall|p: int| #[trigger] places.contains(p) <==> first_at(nodes, p) && keep(nodes[p]),
{
    let last = nodes.len() - 1;
    let places = if taken {
        before.push(last)
    } else {
        before
    };
    assert forall|i: int| 0 <= i < before.len() implies 0 <= #[trigger] before[i] < last by {
        assert(before.contains(before[i]));
    }
    lemma_pushed_place(before, last);
    assert forall|p: int| #[trigger] places.contains(p) <==> first_at(nodes, p) && keep(
        nodes[p],
    ) by {
        assert(places.contains(p) <==> before.contains(p) || (taken && p == last));
        if 0 <= p < nodes.len() {
            lemma_first_at(nodes, p);
        }
        if 0 <= p < last {
            assert(nodes.drop_last()[p] == nodes[p]);
        }
    }
    places
}

proof fn lemma_pushed_place(s: Seq<int>, x: int)
    ensures
        forall|p: int| #[trigger] s.push(x).contains(p) <==> s.contains(p) || p == x,
{
    assert forall|p: int| #[trigger] s.push(x).contains(p) <==> s.contains(p) || p == x by {
        if s.contains(p) {
            let i = choose|i: int| 0 <= i < s.len() && s[i] == p;
            assert(s.push(x)[i] == p);
        }
        assert(s.push(x)[s.len() as int] == x);
    }
}

/// Of a list, the nodes that the warm tier holds are found with their rows, and
/// the others are missing, both in the order of the list.
pub proof fn law_warm_nodes_are_found(t: TiersView, list: Seq<u32>)
    ensures
        warm_part(t, list) == list.filter(|n: u32| t.cpu.rows.contains_key(n)).map_values(
            |n: u32| (n, t.cpu.rows[n]),
        ),
        missing_part(t, list) == list.filter(|n: u32| !t.cpu.rows.contains_key(n)),
    decreases list.len(),
{
    reveal(Seq::filter);
    if list.len() > 0 {
        law_warm_nodes_are_found(t, list.drop_last());
        assert(warm_part(t, list) =~= list.filter(
            |n: u32| t.cpu.rows.contains_key(n),
        ).map_values(|n: u32| (n, t.cpu.rows[n])));
    } else {
        assert(warm_part(t, list) =~= list.filter(
            |n: u32| t.cpu.rows.contains_key(n),
        ).map_values(|n: u32| (n, t.cpu.rows[n])));
    }
}

proof fn lemma_hit_counts(t: TiersView, hot: Seq<u32>, found: Seq<(u32, Seq<u32>)>)
    requires
        t.stats.gpu_hits + hot.len() <= u64::MAX,
        t.stats.cpu_hits + found.len() <= u64::MAX,
        t.stats.pinned_hits + hot.len() <= u64::MAX,
    ensures
        ({
            let after = warm_hits(hot_hits(t, hot), found);
            let pinned = hot.filter(|n: u32| t.gpu.pinned.contains(n)).len();
            &&& pinned <= hot.len()
            &&& after.gpu.pinned == t.gpu.pinned
            &&& after.stats == (CacheStats {
                gpu_hits: (t.stats.gpu_hits + hot.len()) as u64,
                cpu_hits: (t.stats.cpu_hits + found.len()) as u64,
                pinned_hits: (t.stats.pinned_hits + pinned) as u64,
                ..t.stats
            })
        }),
    decreases found.len(), hot.len(),
{
    reveal(Seq::filter);
    if found.len() > 0 {
        lemma_hit_counts(t, hot, found.drop_last());
    } else if hot.len() > 0 {
        lemma_hit_counts(t, hot.drop_last(), found);
        assert(warm_hits(hot_hits(t, hot.drop_last()), found) == hot_hits(t, hot.drop_last()));
        assert(warm_hits(hot_hits(t, hot), found) == hot_hits(t, hot));
    }
}

proof fn lemma_promotions_count_evictions(t: TiersView, found: Seq<(u32, Seq<u32>)>)
    ensures
        ({
            let after = hot_promoted(t, found);
            after.stats == (CacheStats { evictions: after.stats.evictions, ..t.stats })
        }),
        ({
            let after = warm_promoted(t, found);
            after.stats == (CacheStats { evictions: after.stats.evictions, ..t.stats })
        }),
    decreases found.len(),
{
    if found.len() > 0 {
        lemma_promotions_count_evictions(t, found.drop_last());
    }
}

/// Asking for a batch counts a hit per distinct node that a tier in memory holds:
/// in the hot tier, where pinned ones count as such too, or in the warm tier.
/// Nothing else is counted but evictions.
pub proof fn law_batch_counts_distinct_hits(t: TiersView, nodes: Seq<u32>)
    requires
        t.stats.gpu_hits + hot_part(t, nodes).len() <= u64::MAX,
        t.stats.pinned_hits + hot_part(t, nodes).len() <= u64::MAX,
        t.stats.cpu_hits + warm_part(t, rest_part(t, nodes)).len() <= u64::MAX,
    ensures
        ({
            let hot = hot_part(t, nodes);
            let after = asked(t, nodes).stats;
            &&& after.gpu_hits == t.stats.gpu_hits + hot.len()
            &&& after.pinned_hits == t.stats.pinned_hits + hot.filter(
                |n: u32| t.gpu.pinned.contains(n),
            ).len()
            &&& after.cpu_hits == t.stats.cpu_hits + warm_part(t, rest_part(t, nodes)).len()
            &&& after.nvme_hits == t.stats.nvme_hits
            &&& after.cold_hits == t.stats.cold_hits
            &&& after.misses == t.stats.misses
        }),
{
    let hot = hot_part(t, nodes);
    let found = warm_part(t, rest_part(t, nodes));
    lemma_hit_counts(t, hot, found);
    lemma_promotions_count_evictions(warm_hits(hot_hits(t, hot), found), found);
}

/// Where the hot tier has room for them, all rows that a batch finds in the warm
/// tier become hot, nothing leaves either tier, and nothing is spilled.
pub proof fn law_batch_promotes_warm_rows(t: TiersView, nodes: Seq<u32>)
    requires
        t.valid(),
        t.gpu.rows.len() + warm_part(t, rest_part(t, nodes)).len() <= t.gpu.capacity,
    ensures
        ({
            let found = warm_part(t, rest_part(t, nodes));
            let after = asked(t, nodes);
            &&& forall|i: int|
                0 <= i < found.len() ==> after.gpu.rows.contains_key((#[trigger] found[i]).0)
                    && after.gpu.rows[found[i].0] == found[i].1
            &&& forall|n: u32| #[trigger]
                t.gpu.rows.contains_key(n) ==> after.gpu.rows.contains_key(n) && after.gpu.rows[n]
                    == t.gpu.rows[n]
            &&& after.cpu.rows == t.cpu.rows
            &&& after.stats.evictions == t.stats.evictions
            &&& asked_batch(t, nodes).spills == Seq::<(u32, Seq<u32>)>::empty()
        }),
{
    let hot = hot_part(t, nodes);
    let rest = rest_part(t, nodes);
    let found = warm_part(t, rest);
    lemma_parts(t, nodes);
    lemma_warm_parts(t, rest);
    lemma_evictions_of_hits(t, hot, found);
    assert forall|i: int| 0 <= i < hot.len() implies t.gpu.rows.contains_key(#[trigger] hot[i]) by {
        assert(hot.contains(hot[i]));
    }
    lemma_hits_keep(t, hot, found);
    let mid = warm_hits(hot_hits(t, hot), found);
    lemma_found_once(t, rest);
    lemma_room_for_all(mid, found);
}

proof fn lemma_found_once(t: TiersView, list: Seq<u32>)
    requires
        list.no_duplicates(),
    ensures
        ({
            let found = warm_part(t, list);
            forall|i: int, j: int|
                0 <= i < j < found.len() ==> (#[trigger] found[i]).0 != (#[trigger] found[j]).0
        }),
    decreases list.len(),
{
    if list.len() > 0 {
        let prev = list.drop_last();
        let before = warm_part(t, prev);
        let found = warm_part(t, list);
        lemma_found_once(t, prev);
        lemma_warm_parts(t, prev);
        assert forall|i: int, j: int| 0 <= i < j < found.len() implies (#[trigger] found[i]).0 != (
        #[trigger] found[j]).0 by {
            assert(found[i] == before[i]);
            if j < before.len() {
                assert(found[j] == before[j]);
            } else {
                assert(prev.contains(before[i].0));
                let k = choose|k: int| 0 <= k < prev.len() && prev[k] == before[i].0;
                assert(list[k] != list[list.len() - 1]);
            }
        }
    }
}

proof fn lemma_evictions_of_hits(t: TiersView, hot: Seq<u32>, found: Seq<(u32, Seq<u32>)>)
    ensures
        warm_hits(hot_hits(t, hot), found).stats.evictions == t.stats.evictions,
        warm_hits(hot_hits(t, hot), found).gpu.capacity == t.gpu.capacity,
    decreases found.len(), hot.len(),
{
    if found.len() > 0 {
        lemma_evictions_of_hits(t, hot, found.drop_last());
    } else if hot.len() > 0 {
        lemma_evictions_of_hits(t, hot.drop_last(), found);
        assert(warm_hits(hot_hits(t, hot.drop_last()), found) == hot_hits(t, hot.drop_last()));
        assert(warm_hits(hot_hits(t, hot), found) == hot_hits(t, hot));
    }
}

proof fn lemma_room_for_all(t: TiersView, found: Seq<(u32, Seq<u32>)>)
    requires
        t.gpu.rows.dom().finite(),
        t.gpu.rows.len() + found.len() <= t.gpu.capacity,
        forall|i: int, j: int|
            0 <= i < j < found.len() ==> (#[trigger] found[i]).0 != (#[trigger] found[j]).0,
        forall|i: int| 0 <= i < found.len() ==> !t.gpu.rows.contains_key((#[trigger] found[i]).0),
    ensures
        ({
            let after = hot_promoted(t, found);
            &&& after.gpu.rows.dom().finite()
            &&& after.gpu.rows.len() == t.gpu.rows.len() + found.len()
            &&& after.gpu.capacity == t.gpu.capacity
            &&& forall|i: int|
                0 <= i < found.len() ==> after.gpu.rows.contains_key((#[trigger] found[i]).0)
                    && after.gpu.rows[found[i].0] == found[i].1
            &&& forall|n: u32| #[trigger]
                after.gpu.rows.contains_key(n) ==> t.gpu.rows.contains_key(n) || exists|i: int|
                    0 <= i < found.len() && (#[trigger] found[i]).0 == n
            &&& forall|n: u32| #[trigger]
                t.gpu.rows.contains_key(n) ==> after.gpu.rows.contains_key(n) && after.gpu.rows[n]
                    == t.gpu.rows[n]
            &&& after.cpu == t.cpu
            &&& after.stats == t.stats
            &&& hot_spills(t, found).len() == 0
        }),
    decreases found.len(),
{
    if found.len() > 0 {
        let before = found.drop_last();
        assert forall|i: int, j: int| 0 <= i < j < before.len() implies (#[trigger] before[i]).0 != (
        #[trigger] before[j]).0 by {
            assert(found[i].0 != found[j].0);
        }
        assert forall|i: int| 0 <= i < before.len() implies !t.gpu.rows.contains_key(
            (#[trigger] before[i]).0,
        ) by {
            assert(!t.gpu.rows.contains_key(found[i].0));
        }
        lemma_room_for_all(t, before);
        let mid = hot_promoted(t, before);
        let (n, row) = found.last();
        assert(!t.gpu.rows.contains_key(found[found.len() - 1].0));
        assert(!mid.gpu.rows.contains_key(n)) by {
            if mid.gpu.rows.contains_key(n) {
                let i = choose|i: int| 0 <= i < before.len() && (#[trigger] before[i]).0 == n;
                assert(found[i].0 != found[found.len() - 1].0);
            }
        }
        let after = hot_promoted(t, found);
        assert(after.gpu.rows =~= mid.gpu.rows.insert(n, row));
        assert forall|i: int| 0 <= i < found.len() implies after.gpu.rows.contains_key(
            (#[trigger] found[i]).0,
        ) && after.gpu.rows[found[i].0] == found[i].1 by {
            if i < before.len() {
                assert(before[i] == found[i]);
                assert(found[i].0 != found[found.len() - 1].0);
            }
        }
        assert forall|m: u32| #[trigger] after.gpu.rows.contains_key(m) implies t.gpu.rows.contains_key(
            m,
        ) || exists|i: int| 0 <= i < found.len() && (#[trigger] found[i]).0 == m by {
            if m == n {
                assert(found[found.len() - 1].0 == m);
            } else if !t.gpu.rows.contains_key(m) {
                assert(mid.gpu.rows.contains_key(m));
                let i = choose|i: int| 0 <= i < before.len() && (#[trigger] before[i]).0 == m;
                assert(found[i].0 == m);
            }
        }
        assert(hot_spills(t, found) =~= hot_spills(t, before) + listed(mid.gpu_spill(n, row)));
    }
}

/// What one more record of a batch does. A row that was read counts as a hit of
/// the spill file, is resolved, and is promoted to the warm tier. A node without a
/// record waits for the backing tier, or fails the batch as a miss where there is
/// none. Behind a failure nothing more is done.
pub proof fn law_one_more_record(
    start: LoadView,
    found: Seq<(u32, Option<Seq<u32>>)>,
    node: u32,
    record: Option<Seq<u32>>,
)
    ensures
        loads(start, Seq::empty()) == start,
        ({
            let l = loads(start, found);
            let after = loads(start, found.push((node, record)));
            if l.failed is Some {
                after == l
            } else {
                match record {
                    Some(row) => {
                        &&& after.tiers.stats.nvme_hits == (if l.tiers.stats.nvme_hits == u64::MAX {
                            0
                        } else {
                            l.tiers.stats.nvme_hits + 1
                        })
                        &&& after.tiers.stats == (CacheStats {
                            nvme_hits: after.tiers.stats.nvme_hits,
                            evictions: after.tiers.stats.evictions,
                            ..l.tiers.stats
                        })
                        &&& after.tiers == (TiersView {
                            stats: CacheStats {
                                nvme_hits: after.tiers.stats.nvme_hits,
                                ..l.tiers.stats
                            },
                            ..l.tiers
                        }).cpu_promoted(node, row)
                        &&& after.resolved == l.resolved.insert(node, row)
                        &&& after.cold == l.cold
                        &&& after.failed is None
                    },
                    None => if l.tiers.cold is Some {
                        &&& after.cold == l.cold.push(node)
                        &&& after.tiers == l.tiers
                        &&& after.resolved == l.resolved
                        &&& after.spills == l.spills
                        &&& after.failed is None
                    } else {
                        &&& after.failed == Some(node)
                        &&& after.tiers.stats.misses == (if l.tiers.stats.misses == u64::MAX {
                            0
                        } else {
                            l.tiers.stats.misses + 1
                        })
                        &&& after.tiers == (TiersView {
                            stats: CacheStats {
                                misses: after.tiers.stats.misses,
                                ..l.tiers.stats
                            },
                            ..l.tiers
                        })
                        &&& after.resolved == l.resolved
                        &&& after.spills == l.spills
                    },
                }
            }
        }),
{
    assert(found.push((node, record)).drop_last() =~= found);
}

/// What finishing a batch counts: a hit of the spill file per record that was
/// read, and, where the batch succeeds, a hit of the backing tier per node without
/// a record; where it fails, one miss.
pub proof fn law_finished_batch_counts(
    before: TiersView,
    batch: BatchView,
    found: Seq<(u32, Option<Seq<u32>>)>,
    end: BatchEnd,
    after: TiersView,
)
    requires
        finish_does(before, batch, found, end, after),
        before.stats.nvme_hits + found.len() <= u64::MAX,
        before.stats.cold_hits + found.len() <= u64::MAX,
        before.stats.misses < u64::MAX,
    ensures
        ({
            let read = found.filter(|p: (u32, Option<Seq<u32>>)| p.1 is Some).len();
            &&& after.stats.gpu_hits == before.stats.gpu_hits
            &&& after.stats.cpu_hits == before.stats.cpu_hits
            &&& after.stats.pinned_hits == before.stats.pinned_hits
            &&& end.rows is Ok ==> {
                &&& after.stats.nvme_hits == before.stats.nvme_hits + read
                &&& after.stats.cold_hits == before.stats.cold_hits + found.len() - read
                &&& after.stats.misses == before.stats.misses
                &&& found.len() > read ==> before.cold is Some
            }
            &&& end.rows is Err ==> {
                &&& after.stats.nvme_hits <= before.stats.nvme_hits + read
                &&& after.stats.cold_hits == before.stats.cold_hits
                &&& after.stats.misses == before.stats.misses + 1
            }
            &&& end.rows is Err && before.cold is Some ==> after.stats.nvme_hits
                == before.stats.nvme_hits + read
        }),
{
    let start = load_start(before, batch.resolved);
    lemma_load_counts(start, found);
    let l = loads(start, found);
    if l.failed is None && l.cold.len() > 0 && l.tiers.cold->0.has_all(l.cold) {
        let served = cold_rows(l.tiers.cold->0, l.cold);
        lemma_promotions_count_evictions(l.tiers.cold_hit(l.cold.len() as u64), served);
    }
}

proof fn lemma_load_counts(start: LoadView, found: Seq<(u32, Option<Seq<u32>>)>)
    requires
        start.failed is None,
        start.cold.len() == 0,
        start.tiers.stats.nvme_hits + found.len() <= u64::MAX,
        start.tiers.stats.misses < u64::MAX,
    ensures
        ({
            let read = found.filter(|p: (u32, Option<Seq<u32>>)| p.1 is Some).len();
            let l = loads(start, found);
            &&& read <= found.len()
            &&& l.tiers.cold == start.tiers.cold
            &&& l.tiers.stats == (CacheStats {
                nvme_hits: l.tiers.stats.nvme_hits,
                misses: l.tiers.stats.misses,
                evictions: l.tiers.stats.evictions,
                ..start.tiers.stats
            })
            &&& l.tiers.stats.nvme_hits <= start.tiers.stats.nvme_hits + read
            &&& l.failed is None ==> {
                &&& l.tiers.stats.nvme_hits == start.tiers.stats.nvme_hits + read
                &&& l.cold.len() == found.len() - read
                &&& l.tiers.stats.misses == start.tiers.stats.misses
                &&& l.cold.len() > 0 ==> start.tiers.cold is Some
            }
            &&& l.failed is Some ==> start.tiers.cold is None && l.tiers.stats.misses
                == start.tiers.stats.misses + 1
        }),
    decreases found.len(),
{
    reveal(Seq::filter);
    if found.len() > 0 {
        lemma_load_counts(start, found.drop_last());
    }
}

/// Where the hot tier has room for what is promoted, every node of a batch that
/// was hot has one hit more there, and every one that was warm one hit more in the
/// warm tier; no other node's hits change.
pub proof fn law_batch_hits_every_tier_once(t: TiersView, nodes: Seq<u32>, n: u32)
    requires
        t.valid(),
        t.gpu.rows.len() + warm_part(t, rest_part(t, nodes)).len() <= t.gpu.capacity,
        t.gpu.hits[n] < u64::MAX,
        t.cpu.hits[n] < u64::MAX,
    ensures
        ({
            let after = asked(t, nodes);
            &&& t.gpu.rows.contains_key(n) ==> after.gpu.hits[n] == t.gpu.hits[n] + if nodes.contains(
                n,
            ) {
                1int
            } else {
                0int
            }
            &&& t.cpu.rows.contains_key(n) ==> after.cpu.hits[n] == t.cpu.hits[n] + if nodes.contains(
                n,
            ) && !t.gpu.rows.contains_key(n) {
                1int
            } else {
                0int
            }
        }),
{
    let hot = hot_part(t, nodes);
    let rest = rest_part(t, nodes);
    let found = warm_part(t, rest);
    lemma_parts(t, nodes);
    lemma_warm_parts(t, rest);
    lemma_found_once(t, rest);
    lemma_evictions_of_hits(t, hot, found);
    assert forall|i: int| 0 <= i < hot.len() implies t.gpu.rows.contains_key(#[trigger] hot[i]) by {
        assert(hot.contains(hot[i]));
    }
    lemma_hits_keep(t, hot, found);
    lemma_hits_of(t, hot, found, n);
    let mid = warm_hits(hot_hits(t, hot), found);
    lemma_room_for_all(mid, found);
    lemma_room_keeps_hits(mid, found, n);
    lemma_found_names(t, rest, n);
}

/// A node is found exactly if it is listed and warm.
proof fn lemma_found_names(t: TiersView, list: Seq<u32>, n: u32)
    ensures
        among(warm_part(t, list), n) <==> list.contains(n) && t.cpu.rows.contains_key(n),
    decreases list.len(),
{
    let found = warm_part(t, list);
    if list.len() > 0 {
        let prev = list.drop_last();
        let before = warm_part(t, prev);
        lemma_found_names(t, prev, n);
        if among(before, n) {
            let i = choose|i: int| 0 <= i < before.len() && (#[trigger] before[i]).0 == n;
            assert(found[i].0 == n);
        }
        if among(found, n) {
            let i = choose|i: int| 0 <= i < found.len() && (#[trigger] found[i]).0 == n;
            if i < before.len() {
                assert(before[i].0 == n);
                let k = choose|k: int| 0 <= k < prev.len() && prev[k] == n;
                assert(list[k] == n);
            } else {
                assert(list[list.len() - 1] == n);
            }
        }
        if list.contains(n) && t.cpu.rows.contains_key(n) {
            let k = choose|k: int| 0 <= k < list.len() && list[k] == n;
            if k < prev.len() {
                assert(prev[k] == n);
            } else {
                assert(found[found.len() - 1].0 == n);
            }
        }
    }
}

proof fn lemma_hits_of(t: TiersView, hot: Seq<u32>, found: Seq<(u32, Seq<u32>)>, n: u32)
    requires
        hot.no_duplicates(),
        forall|i: int, j: int|
            0 <= i < j < found.len() ==> (#[trigger] found[i]).0 != (#[trigger] found[j]).0,
        t.gpu.hits[n] < u64::MAX,
        t.cpu.hits[n] < u64::MAX,
    ensures
        ({
            let after = warm_hits(hot_hits(t, hot), found);
            &&& after.gpu.hits[n] == t.gpu.hits[n] + if hot.contains(n) {
                1int
            } else {
                0int
            }
            &&& after.cpu.hits[n] == t.cpu.hits[n] + if among(found, n) {
                1int
            } else {
                0int
            }
        }),
    decreases found.len(), hot.len(),
{
    if found.len() > 0 {
        let before = found.drop_last();
        assert forall|i: int, j: int| 0 <= i < j < before.len() implies (#[trigger] before[i]).0 != (
        #[trigger] before[j]).0 by {
            assert(found[i].0 != found[j].0);
        }
        lemma_hits_of(t, hot, before, n);
        if among(before, n) {
            let i = choose|i: int| 0 <= i < before.len() && (#[trigger] before[i]).0 == n;
            assert(found[i].0 == n);
            assert(found[i].0 != found[found.len() - 1].0);
        }
        if among(found, n) && found.last().0 != n {
            let i = choose|i: int| 0 <= i < found.len() && (#[trigger] found[i]).0 == n;
            assert(before[i].0 == n);
        }
        if found.last().0 == n {
            assert(found[found.len() - 1].0 == n);
        }
    } else if hot.len() > 0 {
        let before = hot.drop_last();
        lemma_hits_of(t, before, found, n);
        assert(warm_hits(hot_hits(t, before), found) == hot_hits(t, before));
        assert(warm_hits(hot_hits(t, hot), found) == hot_hits(t, hot));
        if before.contains(n) {
            let i = choose|i: int| 0 <= i < before.len() && before[i] == n;
            assert(hot[i] == n);
            assert(hot[i] != hot[hot.len() - 1]);
        }
        if hot.contains(n) && hot.last() != n {
            let i = choose|i: int| 0 <= i < hot.len() && hot[i] == n;
            assert(before[i] == n);
        }
        if hot.last() == n {
            assert(hot[hot.len() - 1] == n);
        }
    }
}

proof fn lemma_room_keeps_hits(t: TiersView, found: Seq<(u32, Seq<u32>)>, n: u32)
    requires
        t.gpu.rows.dom().finite(),
        t.gpu.rows.len() + found.len() <= t.gpu.capacity,
        forall|i: int, j: int|
            0 <= i < j < found.len() ==> (#[trigger] found[i]).0 != (#[trigger] found[j]).0,
        forall|i: int| 0 <= i < found.len() ==> !t.gpu.rows.contains_key((#[trigger] found[i]).0),
    ensures
        t.gpu.rows.contains_key(n) ==> hot_promoted(t, found).gpu.hits[n] == t.gpu.hits[n],
        hot_promoted(t, found).cpu == t.cpu,
    decreases found.len(),
{
    if found.len() > 0 {
        let before = found.drop_last();
        assert forall|i: int, j: int| 0 <= i < j < before.len() implies (#[trigger] before[i]).0 != (
        #[trigger] before[j]).0 by {
            assert(found[i].0 != found[j].0);
        }
        assert forall|i: int| 0 <= i < before.len() implies !t.gpu.rows.contains_key(
            (#[trigger] before[i]).0,
        ) by {
            assert(!t.gpu.rows.contains_key(found[i].0));
        }
        lemma_room_keeps_hits(t, before, n);
        lemma_room_for_all(t, before);
        lemma_room_for_all(t, found);
        let mid = hot_promoted(t, before);
        assert(!t.gpu.rows.contains_key(found[found.len() - 1].0));
        if mid.gpu.rows.contains_key(found.last().0) {
            let i = choose|i: int| 0 <= i < before.len() && (#[trigger] before[i]).0
                == found.last().0;
            assert(found[i].0 != found[found.len() - 1].0);
        }
    }
}

/// Where the warm tier has room for them, all rows that finishing a batch brings,
/// from the spill file and from the backing tier, become warm, and nothing leaves
/// the tiers.
pub proof fn law_finished_batch_warms_its_rows(
    before: TiersView,
    batch: BatchView,
    found: Seq<(u32, Option<Seq<u32>>)>,
    end: BatchEnd,
    after: TiersView,
)
    requires
        finish_does(before, batch, found, end, after),
        end.rows is Ok,
        before.cpu.rows.dom().finite(),
        before.cpu.rows.len() + found.len() <= before.cpu.capacity,
        forall|i: int, j: int|
            0 <= i < j < found.len() ==> (#[trigger] found[i]).0 != (#[trigger] found[j]).0,
        forall|i: int|
            0 <= i < found.len() ==> !before.cpu.rows.contains_key((#[trigger] found[i]).0),
    ensures
        forall|i: int|
            0 <= i < found.len() ==> after.cpu.rows.contains_key((#[trigger] found[i]).0)
                && after.cpu.rows[found[i].0] == (match found[i].1 {
                Some(row) => row,
                None => before.cold->0.row(found[i].0 as int),
            }),
        forall|n: u32| #[trigger]
            before.cpu.rows.contains_key(n) ==> after.cpu.rows.contains_key(n) && after.cpu.rows[n]
                == before.cpu.rows[n],
        after.gpu == before.gpu,
        after.stats.evictions == before.stats.evictions,
        end.spills@.len() == 0,
{
    let start = load_start(before, batch.resolved);
    lemma_loads_with_room(start, found);
    let l = loads(start, found);
    if l.cold.len() > 0 {
        let served = cold_rows(l.tiers.cold->0, l.cold);
        let hit = l.tiers.cold_hit(l.cold.len() as u64);
        assert forall|i: int, j: int| 0 <= i < j < served.len() implies (#[trigger] served[i]).0 != (
        #[trigger] served[j]).0 by {
            assert(l.cold[i] != l.cold[j]);
        }
        assert forall|i: int| 0 <= i < served.len() implies !hit.cpu.rows.contains_key(
            (#[trigger] served[i]).0,
        ) by {
            assert(!l.tiers.cpu.rows.contains_key(l.cold[i]));
        }
        lemma_warm_room_for_all(hit, served);
        assert forall|i: int| 0 <= i < found.len() implies after.cpu.rows.contains_key(
            (#[trigger] found[i]).0,
        ) && after.cpu.rows[found[i].0] == (match found[i].1 {
            Some(row) => row,
            None => before.cold->0.row(found[i].0 as int),
        }) by {
            if found[i].1 is None {
                assert(l.cold.contains(found[i].0));
                let k = choose|k: int| 0 <= k < l.cold.len() && l.cold[k] == found[i].0;
                assert(served[k].0 == found[i].0);
            }
        }
        assert(spills_view(end.spills@).len() == 0);
    } else {
        assert forall|i: int| 0 <= i < found.len() implies (#[trigger] found[i]).1 is Some by {
            if found[i].1 is None {
                assert(l.cold.contains(found[i].0));
            }
        }
        assert(spills_view(end.spills@).len() == 0);
    }
}

proof fn lemma_loads_with_room(start: LoadView, found: Seq<(u32, Option<Seq<u32>>)>)
    requires
        start.failed is None,
        start.cold.len() == 0,
        start.spills.len() == 0,
        start.tiers.cpu.rows.dom().finite(),
        start.tiers.cpu.rows.len() + found.len() <= start.tiers.cpu.capacity,
        forall|i: int, j: int|
            0 <= i < j < found.len() ==> (#[trigger] found[i]).0 != (#[trigger] found[j]).0,
        forall|i: int|
            0 <= i < found.len() ==> !start.tiers.cpu.rows.contains_key((#[trigger] found[i]).0),
    ensures
        ({
            let l = loads(start, found);
            let rows = l.tiers.cpu.rows;
            &&& rows.dom().finite()
            &&& rows.len() + l.cold.len() <= start.tiers.cpu.rows.len() + found.len()
            &&& l.tiers.cpu.capacity == start.tiers.cpu.capacity
            &&& l.tiers.gpu == start.tiers.gpu
            &&& l.tiers.cold == start.tiers.cold
            &&& l.tiers.stats.evictions == start.tiers.stats.evictions
            &&& l.spills.len() == 0
            &&& l.cold.no_duplicates()
            &&& forall|n: u32| #[trigger]
                start.tiers.cpu.rows.contains_key(n) ==> rows.contains_key(n) && rows[n]
                    == start.tiers.cpu.rows[n]
            &&& forall|n: u32| #[trigger]
                rows.contains_key(n) ==> start.tiers.cpu.rows.contains_key(n) || exists|i: int|
                    0 <= i < found.len() && (#[trigger] found[i]).0 == n && found[i].1 is Some
            &&& forall|k: int| 0 <= k < l.cold.len() ==> !rows.contains_key(#[trigger] l.cold[k])
                && exists|i: int|
                0 <= i < found.len() && (#[trigger] found[i]).0 == l.cold[k] && found[i].1 is None
            &&& l.failed is None ==> forall|i: int|
                0 <= i < found.len() ==> match (#[trigger] found[i]).1 {
                    Some(row) => rows.contains_key(found[i].0) && rows[found[i].0] == row,
                    None => l.cold.contains(found[i].0),
                }
        }),
    decreases found.len(),
{
    if found.len() > 0 {
        let prev = found.drop_last();
        let last = found.len() - 1;
        assert forall|i: int, j: int| 0 <= i < j < prev.len() implies (#[trigger] prev[i]).0 != (
        #[trigger] prev[j]).0 by {
            assert(found[i].0 != found[j].0);
        }
        assert forall|i: int| 0 <= i < prev.len() implies !start.tiers.cpu.rows.contains_key(
            (#[trigger] prev[i]).0,
        ) by {
            assert(!start.tiers.cpu.rows.contains_key(found[i].0));
        }
        lemma_loads_with_room(start, prev);
        let m = loads(start, prev);
        let l = loads(start, found);
        let n = found.last().0;
        assert(!start.tiers.cpu.rows.contains_key(found[last].0));
        assert(!m.tiers.cpu.rows.contains_key(n)) by {
            if m.tiers.cpu.rows.contains_key(n) {
                let i = choose|i: int|
                    0 <= i < prev.len() && (#[trigger] prev[i]).0 == n && prev[i].1 is Some;
                assert(found[i].0 != found[last].0);
            }
        }
        assert(!m.cold.contains(n)) by {
            if m.cold.contains(n) {
                let k = choose|k: int| 0 <= k < m.cold.len() && m.cold[k] == n;
                let i = choose|i: int|
                    0 <= i < prev.len() && (#[trigger] prev[i]).0 == m.cold[k] && prev[i].1 is None;
                assert(found[i].0 != found[last].0);
            }
        }
        if m.failed is None && found.last().1 is Some {
            assert(l.tiers.cpu.rows =~= m.tiers.cpu.rows.insert(n, found.last().1->0));
        }
        assert forall|x: u32| #[trigger]
            l.tiers.cpu.rows.contains_key(x) implies start.tiers.cpu.rows.contains_key(x) || exists|
            i: int,
        | 0 <= i < found.len() && (#[trigger] found[i]).0 == x && found[i].1 is Some by {
            if !start.tiers.cpu.rows.contains_key(x) {
                if m.tiers.cpu.rows.contains_key(x) {
                    let i = choose|i: int|
                        0 <= i < prev.len() && (#[trigger] prev[i]).0 == x && prev[i].1 is Some;
                    assert(found[i].0 == x && found[i].1 is Some);
                } else {
                    assert(found[last].0 == x && found[last].1 is Some);
                }
            }
        }
        assert forall|k: int| 0 <= k < l.cold.len() implies !l.tiers.cpu.rows.contains_key(
            #[trigger] l.cold[k],
        ) && exists|i: int|
            0 <= i < found.len() && (#[trigger] found[i]).0 == l.cold[k] && found[i].1 is None by {
            if k < m.cold.len() {
                assert(l.cold[k] == m.cold[k]);
                let i = choose|i: int|
                    0 <= i < prev.len() && (#[trigger] prev[i]).0 == m.cold[k] && prev[i].1 is None;
                assert(found[i].0 == l.cold[k] && found[i].1 is None);
                assert(m.cold.contains(m.cold[k]));
            } else {
                assert(found[last].0 == l.cold[k] && found[last].1 is None);
            }
        }
        assert(l.cold.no_duplicates()) by {
            assert forall|i: int, j: int|
                0 <= i < l.cold.len() && 0 <= j < l.cold.len() && i != j implies l.cold[i]
                != l.cold[j] by {
                if i < m.cold.len() {
                    assert(m.cold.contains(m.cold[i]));
                }
                if j < m.cold.len() {
                    assert(m.cold.contains(m.cold[j]));
                }
            }
        }
        if l.failed is None {
            assert forall|i: int| 0 <= i < found.len() implies match (#[trigger] found[i]).1 {
                Some(row) => l.tiers.cpu.rows.contains_key(found[i].0)
                    && l.tiers.cpu.rows[found[i].0] == row,
                None => l.cold.contains(found[i].0),
            } by {
                if i < prev.len() {
                    assert(prev[i] == found[i]);
                    assert(found[i].0 != found[last].0);
                    if found[i].1 is None {
                        let k = choose|k: int| 0 <= k < m.cold.len() && m.cold[k] == found[i].0;
                        assert(l.cold[k] == found[i].0);
                    }
                } else if found[i].1 is None {
                    assert(l.cold[l.cold.len() - 1] == found[i].0);
                }
            }
        }
    }
}

proof fn lemma_warm_room_for_all(t: TiersView, found: Seq<(u32, Seq<u32>)>)
    requires
        t.cpu.rows.dom().finite(),
        t.cpu.rows.len() + found.len() <= t.cpu.capacity,
        forall|i: int, j: int|
            0 <= i < j < found.len() ==> (#[trigger] found[i]).0 != (#[trigger] found[j]).0,
        forall|i: int| 0 <= i < found.len() ==> !t.cpu.rows.contains_key((#[trigger] found[i]).0),
    ensures
        ({
            let after = warm_promoted(t, found);
            &&& after.cpu.rows.dom().finite()
            &&& after.cpu.rows.len() == t.cpu.rows.len() + found.len()
            &&& after.cpu.capacity == t.cpu.capacity
            &&& forall|i: int|
                0 <= i < found.len() ==> after.cpu.rows.contains_key((#[trigger] found[i]).0)
                    && after.cpu.rows[found[i].0] == found[i].1
            &&& forall|n: u32| #[trigger]
                after.cpu.rows.contains_key(n) ==> t.cpu.rows.contains_key(n) || among(found, n)
            &&& forall|n: u32| #[trigger]
                t.cpu.rows.contains_key(n) ==> after.cpu.rows.contains_key(n) && after.cpu.rows[n]
                    == t.cpu.rows[n]
            &&& after.gpu == t.gpu
            &&& after.stats == t.stats
            &&& warm_spills(t, found).len() == 0
        }),
    decreases found.len(),
{
    if found.len() > 0 {
        let before = found.drop_last();
        let last = found.len() - 1;
        assert forall|i: int, j: int| 0 <= i < j < before.len() implies (#[trigger] before[i]).0 != (
        #[trigger] before[j]).0 by {
            assert(found[i].0 != found[j].0);
        }
        assert forall|i: int| 0 <= i < before.len() implies !t.cpu.rows.contains_key(
            (#[trigger] before[i]).0,
        ) by {
            assert(!t.cpu.rows.contains_key(found[i].0));
        }
        lemma_warm_room_for_all(t, before);
        let mid = warm_promoted(t, before);
        let after = warm_promoted(t, found);
        let (n, row) = found.last();
        assert(!t.cpu.rows.contains_key(found[last].0));
        assert(!mid.cpu.rows.contains_key(n)) by {
            if mid.cpu.rows.contains_key(n) {
                let i = choose|i: int| 0 <= i < before.len() && (#[trigger] before[i]).0 == n;
                assert(found[i].0 != found[last].0);
            }
        }
        assert(after.cpu.rows =~= mid.cpu.rows.insert(n, row));
        assert forall|i: int| 0 <= i < found.len() implies after.cpu.rows.contains_key(
            (#[trigger] found[i]).0,
        ) && after.cpu.rows[found[i].0] == found[i].1 by {
            if i < before.len() {
                assert(before[i] == found[i]);
                assert(found[i].0 != found[last].0);
            }
        }
        assert forall|m: u32| #[trigger] after.cpu.rows.contains_key(m) implies t.cpu.rows.contains_key(
            m,
        ) || among(found, m) by {
            if m == n {
                assert(found[last].0 == m);
            } else if !t.cpu.rows.contains_key(m) {
                assert(mid.cpu.rows.contains_key(m));
                let i = choose|i: int| 0 <= i < before.len() && (#[trigger] before[i]).0 == m;
                assert(found[i].0 == m);
            }
        }
        assert(warm_spills(t, found) =~= warm_spills(t, before) + listed(mid.cpu_spill(n, row)));
    }
}

} // verus!
