//! Requests for many rows at once.
//!
//! A batch goes through the tiers once. Nodes that occur more than once are
//! resolved once, and only the distinct nodes that no tier in memory holds are read
//! from the spill file. What the spill file lacks comes out of the backing tier in
//! one gather.
use vstd::prelude::*;
use vstd::set_lib::{lemma_len_subset, range_set_properties};
use vstd::slice::slice_to_vec;
use vstd::slice::slice_subrange;
use ahash::AHashMap;
use rustc_hash::FxHashSet;
use crate::collections::{ahash_entries, ahash_get, ahash_insert, ahash_new, fx_set_insert};
use crate::graph::csr::NodeId;
use super::super::header::lemma_row_inside;
use super::super::store::StoreView;
use super::error::CacheError;
use super::freq::FreqView;
use super::tiers::{spilled, FeatureCache, FeatureVector, Spill, TiersView};

verus! {

/// Most reads that are under way at once.
pub const NVME_FANOUT: usize = 64;

/// The nodes of a batch that the hot tier holds, each once, in order.
pub open spec fn hot_part(t: TiersView, nodes: Seq<u32>) -> Seq<u32>
    decreases nodes.len(),
{
    if nodes.len() == 0 {
        Seq::empty()
    } else {
        let part = hot_part(t, nodes.drop_last());
        let n = nodes.last();
        if t.gpu.rows.contains_key(n) && !nodes.drop_last().contains(n) {
            part.push(n)
        } else {
            part
        }
    }
}

/// The nodes of a batch that the hot tier lacks, each once, in order.
pub open spec fn rest_part(t: TiersView, nodes: Seq<u32>) -> Seq<u32>
    decreases nodes.len(),
{
    if nodes.len() == 0 {
        Seq::empty()
    } else {
        let part = rest_part(t, nodes.drop_last());
        let n = nodes.last();
        if !t.gpu.rows.contains_key(n) && !nodes.drop_last().contains(n) {
            part.push(n)
        } else {
            part
        }
    }
}

/// The nodes of a list that the warm tier holds, with their rows.
pub open spec fn warm_part(t: TiersView, list: Seq<u32>) -> Seq<(u32, Seq<u32>)>
    decreases list.len(),
{
    if list.len() == 0 {
        Seq::empty()
    } else {
        let part = warm_part(t, list.drop_last());
        let n = list.last();
        if t.cpu.rows.contains_key(n) {
            part.push((n, t.cpu.rows[n]))
        } else {
            part
        }
    }
}

/// The nodes of a list that the warm tier lacks.
pub open spec fn missing_part(t: TiersView, list: Seq<u32>) -> Seq<u32>
    decreases list.len(),
{
    if list.len() == 0 {
        Seq::empty()
    } else {
        let part = missing_part(t, list.drop_last());
        let n = list.last();
        if t.cpu.rows.contains_key(n) {
            part
        } else {
            part.push(n)
        }
    }
}

/// The tiers after hits in the hot tier.
pub open spec fn hot_hits(t: TiersView, list: Seq<u32>) -> TiersView
    decreases list.len(),
{
    if list.len() == 0 {
        t
    } else {
        hot_hits(t, list.drop_last()).gpu_hit(list.last())
    }
}

/// The tiers after hits in the warm tier.
pub open spec fn warm_hits(t: TiersView, found: Seq<(u32, Seq<u32>)>) -> TiersView
    decreases found.len(),
{
    if found.len() == 0 {
        t
    } else {
        warm_hits(t, found.drop_last()).cpu_hit(found.last().0)
    }
}

/// A spilled row as a list.
pub open spec fn listed(spill: Option<(u32, Seq<u32>)>) -> Seq<(u32, Seq<u32>)> {
    match spill {
        Some(s) => seq![s],
        None => Seq::empty(),
    }
}

/// The tiers after rows went to the hot tier, one after the other.
pub open spec fn hot_promoted(t: TiersView, found: Seq<(u32, Seq<u32>)>) -> TiersView
    decreases found.len(),
{
    if found.len() == 0 {
        t
    } else {
        hot_promoted(t, found.drop_last()).gpu_promoted(found.last().0, found.last().1)
    }
}

/// What that pushes out to the spill file.
pub open spec fn hot_spills(t: TiersView, found: Seq<(u32, Seq<u32>)>) -> Seq<(u32, Seq<u32>)>
    decreases found.len(),
{
    if found.len() == 0 {
        Seq::empty()
    } else {
        hot_spills(t, found.drop_last()) + listed(
            hot_promoted(t, found.drop_last()).gpu_spill(found.last().0, found.last().1),
        )
    }
}

/// The tiers after rows went to the warm tier, one after the other.
pub open spec fn warm_promoted(t: TiersView, found: Seq<(u32, Seq<u32>)>) -> TiersView
    decreases found.len(),
{
    if found.len() == 0 {
        t
    } else {
        warm_promoted(t, found.drop_last()).cpu_promoted(found.last().0, found.last().1)
    }
}

/// What that pushes out to the spill file.
pub open spec fn warm_spills(t: TiersView, found: Seq<(u32, Seq<u32>)>) -> Seq<(u32, Seq<u32>)>
    decreases found.len(),
{
    if found.len() == 0 {
        Seq::empty()
    } else {
        warm_spills(t, found.drop_last()) + listed(
            warm_promoted(t, found.drop_last()).cpu_spill(found.last().0, found.last().1),
        )
    }
}

/// Rows by node.
pub open spec fn by_node(found: Seq<(u32, Seq<u32>)>) -> Map<u32, Seq<u32>>
    decreases found.len(),
{
    if found.len() == 0 {
        Map::empty()
    } else {
        by_node(found.drop_last()).insert(found.last().0, found.last().1)
    }
}

/// Where a batch stands once the tiers in memory have been asked.
#[verifier::ext_equal]
pub struct BatchView {
    pub nodes: Seq<u32>,
    /// The rows that are known so far.
    pub resolved: Map<u32, Seq<u32>>,
    /// The nodes that no tier in memory holds.
    pub missing: Seq<u32>,
    /// What has been pushed out so far.
    pub spills: Seq<(u32, Seq<u32>)>,
}

/// The tiers after the first part of a batch request.
pub open spec fn asked(t: TiersView, nodes: Seq<u32>) -> TiersView {
    let found = warm_part(t, rest_part(t, nodes));
    hot_promoted(warm_hits(hot_hits(t, hot_part(t, nodes)), found), found)
}

/// The batch after the first part of its request.
pub open spec fn asked_batch(t: TiersView, nodes: Seq<u32>) -> BatchView {
    let hot = hot_part(t, nodes);
    let found = warm_part(t, rest_part(t, nodes));
    BatchView {
        nodes,
        resolved: Map::new(
            |n: u32| hot.contains(n),
            |n: u32| t.gpu.rows[n],
        ).union_prefer_right(by_node(found)),
        missing: missing_part(t, rest_part(t, nodes)),
        spills: hot_spills(warm_hits(hot_hits(t, hot), found), found),
    }
}

/// Where a batch stands while records are taken in.
#[verifier::ext_equal]
pub struct LoadView {
    pub tiers: TiersView,
    pub resolved: Map<u32, Seq<u32>>,
    pub spills: Seq<(u32, Seq<u32>)>,
    /// Nodes without a record, which the backing tier is to serve.
    pub cold: Seq<u32>,
    /// A node that no tier holds.
    pub failed: Option<u32>,
}

/// Takes in the records of missing nodes, one after the other, up to the first node
/// that no tier holds.
pub open spec fn loads(start: LoadView, found: Seq<(u32, Option<Seq<u32>>)>) -> LoadView
    decreases found.len(),
{
    if found.len() == 0 {
        start
    } else {
        let l = loads(start, found.drop_last());
        let n = found.last().0;
        if l.failed is Some {
            l
        } else {
            match found.last().1 {
                Some(row) => {
                    let hit = l.tiers.nvme_hit();
                    LoadView {
                        tiers: hit.cpu_promoted(n, row),
                        resolved: l.resolved.insert(n, row),
                        spills: l.spills + listed(hit.cpu_spill(n, row)),
                        ..l
                    }
                },
                None => if l.tiers.cold is Some {
                    LoadView { cold: l.cold.push(n), ..l }
                } else {
                    LoadView { tiers: l.tiers.missed(), failed: Some(n), ..l }
                },
            }
        }
    }
}

/// Where the second part of a batch request starts.
pub open spec fn load_start(t: TiersView, resolved: Map<u32, Seq<u32>>) -> LoadView {
    LoadView { tiers: t, resolved, spills: Seq::empty(), cold: Seq::empty(), failed: None }
}

/// Nodes of the backing tier with their rows.
pub open spec fn cold_rows(store: StoreView, list: Seq<u32>) -> Seq<(u32, Seq<u32>)> {
    Seq::new(list.len(), |i: int| (list[i], store.row(list[i] as int)))
}

/// Missing nodes with the rows of their records.
pub open spec fn with_records(
    t: TiersView,
    missing: Seq<u32>,
    records: Seq<Option<Vec<u8>>>,
) -> Seq<(u32, Option<Seq<u32>>)> {
    Seq::new(
        missing.len(),
        |i: int|
            (
                missing[i],
                match records[i] {
                    Some(r) => Some(t.nvme.row_of(r@)),
                    None => None,
                },
            ),
    )
}

/// Rows of a batch, in its order.
pub open spec fn assembled(
    rows: Seq<FeatureVector>,
    nodes: Seq<u32>,
    resolved: Map<u32, Seq<u32>>,
) -> bool {
    &&& rows.len() == nodes.len()
    &&& forall|i: int| 0 <= i < rows.len() ==> (#[trigger] rows[i])@ == resolved[nodes[i]]
}

/// How a batch ends.
#[derive(Debug, PartialEq, Eq)]
pub struct BatchEnd {
    /// The rows in the order of the batch, or why there are none.
    pub rows: Result<Vec<FeatureVector>, CacheError>,
    /// What taking in records pushed out to the spill file.
    pub spills: Vec<Spill>,
}

/// Spilled rows, as contracts speak of them.
pub open spec fn spills_view(s: Seq<Spill>) -> Seq<(u32, Seq<u32>)> {
    Seq::new(s.len(), |i: int| (s[i].0, s[i].1@))
}

/// What the second part of a batch request does.
pub open spec fn finish_does(
    before: TiersView,
    batch: BatchView,
    found: Seq<(u32, Option<Seq<u32>>)>,
    end: BatchEnd,
    after: TiersView,
) -> bool {
    let l = loads(load_start(before, batch.resolved), found);
    if l.failed is Some {
        &&& end.rows == Err::<Vec<FeatureVector>, CacheError>(
            CacheError::NotCached { node: l.failed->0 },
        )
        &&& spills_view(end.spills@) == l.spills
        &&& after == l.tiers
    } else if l.cold.len() == 0 {
        &&& end.rows matches Ok(rows)
        &&& assembled(rows@, batch.nodes, l.resolved)
        &&& spills_view(end.spills@) == l.spills
        &&& after == l.tiers
    } else if !l.tiers.cold->0.has_all(l.cold) {
        &&& exists|i: int|
            l.tiers.cold->0.first_missing(l.cold, i) && end.rows == Err::<
                Vec<FeatureVector>,
                CacheError,
            >(CacheError::NotCached { node: #[trigger] l.cold[i] })
        &&& spills_view(end.spills@) == l.spills
        &&& after == l.tiers.missed()
    } else {
        let served = cold_rows(l.tiers.cold->0, l.cold);
        let hit = l.tiers.cold_hit(l.cold.len() as u64);
        &&& end.rows matches Ok(rows)
        &&& assembled(rows@, batch.nodes, l.resolved.union_prefer_right(by_node(served)))
        &&& spills_view(end.spills@) == l.spills + warm_spills(hit, served)
        &&& after == warm_promoted(hit, served)
    }
}

/// A batch between the two parts of its request.
pub struct Batch {
    nodes: Vec<NodeId>,
    rows: Vec<FeatureVector>,
    index: AHashMap<u32, u32>,
    missing: Vec<NodeId>,
    spills: Vec<Spill>,
}

impl View for Batch {
    type V = BatchView;

    closed spec fn view(&self) -> BatchView {
        BatchView {
            nodes: self.nodes@,
            resolved: resolved_rows(self.rows@, ahash_entries(self.index)),
            missing: self.missing@,
            spills: spills_view(self.spills@),
        }
    }
}

/// The rows that an index finds.
spec fn resolved_rows(rows: Seq<FeatureVector>, index: Map<u32, u32>) -> Map<u32, Seq<u32>> {
    Map::new(|n: u32| index.contains_key(n), |n: u32| rows[index[n] as int]@)
}

/// An index into rows, none of which is found twice or not at all.
spec fn index_ok(rows: Seq<FeatureVector>, index: Map<u32, u32>) -> bool {
    &&& index.dom().finite()
    &&& index.len() == rows.len()
    &&& forall|n: u32| #[trigger] index.contains_key(n) ==> index[n] < rows.len()
}

/// As long as a node is left over, the nodes of an index can be numbered.
proof fn lemma_room_for_key(index: Map<u32, u32>, node: u32)
    requires
        index.dom().finite(),
        !index.contains_key(node),
    ensures
        index.len() <= u32::MAX,
{
    let some = index.dom().insert(node);
    let all = Set::<u32>::range_inclusive(0, u32::MAX);
    range_set_properties::<u32>(0, u32::MAX);
    assert(some.subset_of(all));
    lemma_len_subset(some, all);
}

/// Adds a row to an index.
fn resolve(
    rows: &mut Vec<FeatureVector>,
    index: &mut AHashMap<u32, u32>,
    node: NodeId,
    row: FeatureVector,
)
    requires
        index_ok(old(rows)@, ahash_entries(*old(index))),
        !ahash_entries(*old(index)).contains_key(node),
    ensures
        index_ok(final(rows)@, ahash_entries(*final(index))),
        final(rows)@ == old(rows)@.push(row),
        ahash_entries(*final(index)).dom() == ahash_entries(*old(index)).dom().insert(node),
        resolved_rows(final(rows)@, ahash_entries(*final(index))) == resolved_rows(
            old(rows)@,
            ahash_entries(*old(index)),
        ).insert(node, row@),
{
    let ghost before = resolved_rows(rows@, ahash_entries(*index));
    let ghost added = row@;
    proof {
        lemma_room_for_key(ahash_entries(*index), node);
    }
    ahash_insert(index, node, rows.len() as u32);
    rows.push(row);
    assert(resolved_rows(rows@, ahash_entries(*index)) =~= before.insert(node, added));
}

impl Batch {
    /// Every node of the batch is resolved or missing.
    pub closed spec fn wf(&self) -> bool {
        &&& index_ok(self.rows@, ahash_entries(self.index))
        &&& self.missing@.no_duplicates()
        &&& forall|i: int|
            0 <= i < self.nodes@.len() ==> ahash_entries(self.index).contains_key(
                #[trigger] self.nodes@[i],
            ) || self.missing@.contains(self.nodes@[i])
        &&& forall|i: int|
            0 <= i < self.missing@.len() ==> !ahash_entries(self.index).contains_key(
                #[trigger] self.missing@[i],
            )
    }

    /// The nodes whose records are to be read.
    pub fn missing(&self) -> (list: &Vec<NodeId>)
        ensures
            list@ == self@.missing,
    {
        &self.missing
    }

    /// The rows to write to the spill file before records are read.
    pub fn take_spills(&mut self) -> (spills: Vec<Spill>)
        ensures
            spills_view(spills@) == old(self)@.spills,
            final(self)@ == (BatchView { spills: Seq::empty(), ..old(self)@ }),
            old(self).wf() ==> final(self).wf(),
    {
        let mut spills: Vec<Spill> = Vec::new();
        std::mem::swap(&mut spills, &mut self.spills);
        assert(self@.spills =~= Seq::empty());
        spills
    }
}

/// Missing nodes per read task, so that no more than [`NVME_FANOUT`] tasks are
/// needed.
pub fn fetch_chunk(missing: usize) -> (n: usize)
    requires
        missing > 0,
    ensures
        n == (missing + min_fanout(missing) - 1) / min_fanout(missing),
        n > 0,
        n * NVME_FANOUT >= missing,
        missing <= 64 ==> n == 1,
        missing > 64 ==> (n - 1) * 64 < missing <= n * 64,
{
    let tasks: usize = if missing < NVME_FANOUT {
        missing
    } else {
        NVME_FANOUT
    };
    let n: usize = if missing % tasks == 0 {
        missing / tasks
    } else {
        missing / tasks + 1
    };
    proof {
        let m = missing as int;
        let t = tasks as int;
        let q = m / t;
        let r = m % t;
        vstd::arithmetic::div_mod::lemma_fundamental_div_mod(m, t);
        assert(q >= 1) by (nonlinear_arith)
            requires
                m == t * q + r,
                r < t,
                m >= t,
                t > 0,
        ;
        if r == 0 {
            vstd::arithmetic::div_mod::lemma_fundamental_div_mod_converse(m + t - 1, t, q, t - 1);
        } else {
            assert(m + t - 1 == t * (q + 1) + (r - 1)) by (nonlinear_arith)
                requires
                    m == t * q + r,
            ;
            vstd::arithmetic::div_mod::lemma_fundamental_div_mod_converse(
                m + t - 1,
                t,
                q + 1,
                r - 1,
            );
        }
        assert(n * 64 >= m) by (nonlinear_arith)
            requires
                m == t * q + r,
                r < t,
                t <= 64,
                r == 0 ==> n == q,
                r != 0 ==> n == q + 1,
                q >= 1,
                0 <= r,
        ;
    }
    n
}

/// Read tasks for that many missing nodes.
pub open spec fn min_fanout(missing: usize) -> int {
    if missing < NVME_FANOUT {
        missing as int
    } else {
        NVME_FANOUT as int
    }
}

/// Hits in the hot tier leave its rows and everything below alone.
proof fn lemma_hot_hits(t: TiersView, list: Seq<u32>)
    ensures
        hot_hits(t, list).gpu == (FreqView { hits: hot_hits(t, list).gpu.hits, ..t.gpu }),
        hot_hits(t, list).cpu == t.cpu,
        hot_hits(t, list).nvme == t.nvme,
        hot_hits(t, list).cold == t.cold,
    decreases list.len(),
{
    if list.len() > 0 {
        lemma_hot_hits(t, list.drop_last());
    }
}

/// Hits in the warm tier leave its rows and the other tiers alone.
proof fn lemma_warm_hits(t: TiersView, found: Seq<(u32, Seq<u32>)>)
    ensures
        warm_hits(t, found).cpu == (FreqView { hits: warm_hits(t, found).cpu.hits, ..t.cpu }),
        warm_hits(t, found).gpu == t.gpu,
        warm_hits(t, found).nvme == t.nvme,
        warm_hits(t, found).cold == t.cold,
    decreases found.len(),
{
    if found.len() > 0 {
        lemma_warm_hits(t, found.drop_last());
    }
}

/// What a list holds after one more node.
proof fn lemma_push_new(s: Seq<u32>, x: u32)
    ensures
        forall|n: u32| #[trigger] s.push(x).contains(n) <==> s.contains(n) || n == x,
        s.no_duplicates() && !s.contains(x) ==> s.push(x).no_duplicates(),
{
    assert forall|n: u32| #[trigger] s.push(x).contains(n) <==> s.contains(n) || n == x by {
        if s.contains(n) {
            let i = choose|i: int| 0 <= i < s.len() && s[i] == n;
            assert(s.push(x)[i] == n);
        }
        assert(s.push(x)[s.len() as int] == x);
    }
    if s.no_duplicates() && !s.contains(x) {
        assert forall|i: int, j: int|
            0 <= i < s.len() + 1 && 0 <= j < s.len() + 1 && i != j implies s.push(x)[i] != s.push(
            x,
        )[j] by {
            if i < s.len() {
                assert(s.contains(s[i]));
            }
            if j < s.len() {
                assert(s.contains(s[j]));
            }
        }
    }
}

/// What the parts of a batch are.
pub(super) proof fn lemma_parts(t: TiersView, nodes: Seq<u32>)
    ensures
        forall|n: u32| #[trigger]
            hot_part(t, nodes).contains(n) <==> nodes.contains(n) && t.gpu.rows.contains_key(n),
        forall|n: u32| #[trigger]
            rest_part(t, nodes).contains(n) <==> nodes.contains(n) && !t.gpu.rows.contains_key(n),
        hot_part(t, nodes).no_duplicates(),
        rest_part(t, nodes).no_duplicates(),
        hot_part(t, nodes).len() + rest_part(t, nodes).len() <= nodes.len(),
    decreases nodes.len(),
{
    if nodes.len() > 0 {
        let before = nodes.drop_last();
        let last = nodes.last();
        lemma_parts(t, before);
        assert(nodes =~= before.push(last));
        lemma_push_new(before, last);
        lemma_push_new(hot_part(t, before), last);
        lemma_push_new(rest_part(t, before), last);
    }
}

/// What the parts of a list without duplicates are.
pub(super) proof fn lemma_warm_parts(t: TiersView, list: Seq<u32>)
    requires
        list.no_duplicates(),
    ensures
        forall|n: u32| #[trigger]
            missing_part(t, list).contains(n) <==> list.contains(n) && !t.cpu.rows.contains_key(n),
        missing_part(t, list).no_duplicates(),
        forall|i: int|
            0 <= i < warm_part(t, list).len() ==> list.contains(
                (#[trigger] warm_part(t, list)[i]).0,
            ) && t.cpu.rows.contains_key(warm_part(t, list)[i].0) && warm_part(t, list)[i].1
                == t.cpu.rows[warm_part(t, list)[i].0],
        forall|n: u32| #[trigger]
            by_node(warm_part(t, list)).contains_key(n) <==> list.contains(n)
                && t.cpu.rows.contains_key(n),
        forall|n: u32| #[trigger]
            by_node(warm_part(t, list)).contains_key(n) ==> by_node(warm_part(t, list))[n]
                == t.cpu.rows[n],
        warm_part(t, list).len() + missing_part(t, list).len() == list.len(),
    decreases list.len(),
{
    if list.len() > 0 {
        let before = list.drop_last();
        let last = list.last();
        assert(list =~= before.push(last));
        assert(before.no_duplicates());
        lemma_warm_parts(t, before);
        assert(!before.contains(last)) by {
            if before.contains(last) {
                let i = choose|i: int| 0 <= i < before.len() && before[i] == last;
                assert(list[i] == list[list.len() - 1]);
            }
        }
        lemma_push_new(before, last);
        lemma_push_new(missing_part(t, before), last);
        if t.cpu.rows.contains_key(last) {
            let part = warm_part(t, list);
            assert(part.drop_last() =~= warm_part(t, before));
            assert(part.last() == (last, t.cpu.rows[last]));
            assert(by_node(part) == by_node(warm_part(t, before)).insert(last, t.cpu.rows[last]));
        }
    }
}

/// The warm part of a list depends on the warm tier alone.
proof fn lemma_warm_part_of(a: TiersView, b: TiersView, list: Seq<u32>)
    requires
        a.cpu == b.cpu,
    ensures
        warm_part(a, list) == warm_part(b, list),
        missing_part(a, list) == missing_part(b, list),
    decreases list.len(),
{
    if list.len() > 0 {
        lemma_warm_part_of(a, b, list.drop_last());
    }
}

/// Promotion to the hot tier leaves widths, records and the backing tier alone.
proof fn lemma_promotion_shape(t: TiersView, node: u32, row: Seq<u32>)
    ensures
        t.gpu_promoted(node, row).gpu.dim == t.gpu.dim,
        t.gpu_promoted(node, row).nvme == t.nvme,
        t.gpu_promoted(node, row).cold == t.cold,
        t.cpu_promoted(node, row).gpu == t.gpu,
        t.cpu_promoted(node, row).nvme == t.nvme,
        t.cpu_promoted(node, row).cold == t.cold,
{
}

/// Copies resolved rows out in the order of a batch.
fn assemble(rows: &Vec<FeatureVector>, index: &AHashMap<u32, u32>, nodes: &Vec<NodeId>) -> (out:
    Vec<FeatureVector>)
    requires
        index_ok(rows@, ahash_entries(*index)),
        forall|i: int|
            0 <= i < nodes@.len() ==> ahash_entries(*index).contains_key(#[trigger] nodes@[i]),
    ensures
        assembled(out@, nodes@, resolved_rows(rows@, ahash_entries(*index))),
{
    let mut out: Vec<FeatureVector> = Vec::new();
    let mut i: usize = 0;
    while i < nodes.len()
        invariant
            i <= nodes@.len(),
            out@.len() == i,
            index_ok(rows@, ahash_entries(*index)),
            forall|i: int|
                0 <= i < nodes@.len() ==> ahash_entries(*index).contains_key(#[trigger] nodes@[i]),
            forall|k: int|
                0 <= k < i ==> (#[trigger] out@[k])@ == resolved_rows(
                    rows@,
                    ahash_entries(*index),
                )[nodes@[k]],
        decreases nodes@.len() - i,
    {
        let node: u32 = nodes[i];
        assert(ahash_entries(*index).contains_key(nodes@[i as int]));
        let at: u32 = match ahash_get(index, node) {
            Some(at) => at,
            None => vstd::pervasive::unreached(),
        };
        out.push(slice_to_vec(rows[at as usize].as_slice()));
        i += 1;
    }
    out
}

/// Adds what was spilled, if anything was.
fn note_spill(spills: &mut Vec<Spill>, spill: Option<Spill>)
    ensures
        spills_view(final(spills)@) == spills_view(old(spills)@) + listed(spilled(spill)),
{
    let ghost out = spilled(spill);
    if let Some(s) = spill {
        spills.push(s);
    }
    assert(spills_view(spills@) =~= spills_view(old(spills)@) + listed(out));
}

impl FeatureCache {
    /// Asks the hot tier for the rows of a batch.
    fn ask_hot(&mut self, nodes: &[NodeId]) -> (batch: Batch)
        requires
            old(self).wf(),
        ensures
            final(self).wf(),
            final(self)@ == hot_hits(old(self)@, hot_part(old(self)@, nodes@)),
            index_ok(batch.rows@, ahash_entries(batch.index)),
            batch@.nodes == nodes@,
            batch@.resolved == Map::new(
                |n: u32| hot_part(old(self)@, nodes@).contains(n),
                |n: u32| old(self)@.gpu.rows[n],
            ),
            batch@.missing == rest_part(old(self)@, nodes@),
    {
        let ghost t = self@;
        let mut rows: Vec<FeatureVector> = Vec::new();
        let mut index = ahash_new();
        let mut missing: Vec<NodeId> = Vec::new();
        let mut missing_set: FxHashSet<u32> = FxHashSet::default();
        let mut i: usize = 0;
        proof {
            assert(nodes@.take(0) =~= Seq::empty());
            assert(resolved_rows(rows@, ahash_entries(index)) =~= Map::new(
                |n: u32| hot_part(t, nodes@.take(0)).contains(n),
                |n: u32| t.gpu.rows[n],
            ));
        }
        while i < nodes.len()
            invariant
                self.wf(),
                i <= nodes@.len(),
                self@ == hot_hits(t, hot_part(t, nodes@.take(i as int))),
                index_ok(rows@, ahash_entries(index)),
                resolved_rows(rows@, ahash_entries(index)) == Map::new(
                    |n: u32| hot_part(t, nodes@.take(i as int)).contains(n),
                    |n: u32| t.gpu.rows[n],
                ),
                missing@ == rest_part(t, nodes@.take(i as int)),
                forall|n: u32| #[trigger] missing_set@.contains(n) <==> missing@.contains(n),
            decreases nodes@.len() - i,
        {
            let node: u32 = nodes[i];
            let ghost done = nodes@.take(i as int);
            let ghost next = nodes@.take(i + 1);
            let ghost hot = hot_part(t, done);
            proof {
                assert(next.drop_last() =~= done);
                assert(next.last() == node);
                lemma_parts(t, done);
                lemma_hot_hits(t, hot);
                lemma_push_new(hot, node);
                lemma_push_new(missing@, node);
                assert(resolved_rows(rows@, ahash_entries(index)).contains_key(node)
                    <==> ahash_entries(index).contains_key(node));
            }
            if ahash_get(&index, node).is_some() {
                assert(done.contains(node));
            } else {
                let ghost before = resolved_rows(rows@, ahash_entries(index));
                match self.hit_hot(node) {
                    Some(row) => {
                        resolve(&mut rows, &mut index, node, row);
                        proof {
                            assert(!done.contains(node));
                            assert(hot_part(t, next) == hot.push(node));
                            assert(hot.push(node).drop_last() =~= hot);
                            assert(resolved_rows(rows@, ahash_entries(index)) =~= Map::new(
                                |n: u32| hot.push(node).contains(n),
                                |n: u32| t.gpu.rows[n],
                            ));
                        }
                    },
                    None => {
                        if fx_set_insert(&mut missing_set, node) {
                            missing.push(node);
                        }
                    },
                }
            }
            i += 1;
        }
        assert(nodes@.take(i as int) =~= nodes@);
        Batch { nodes: slice_to_vec(nodes), rows, index, missing, spills: Vec::new() }
    }

    /// Asks the warm tier for the rows of a list, and adds them to the resolved
    /// ones. Gives the nodes that were found and those that were not.
    fn ask_warm(
        &mut self,
        rest: &Vec<NodeId>,
        rows: &mut Vec<FeatureVector>,
        index: &mut AHashMap<u32, u32>,
    ) -> (r: (Vec<NodeId>, Vec<NodeId>))
        requires
            old(self).wf(),
            rest@.no_duplicates(),
            index_ok(old(rows)@, ahash_entries(*old(index))),
            forall|i: int|
                0 <= i < rest@.len() ==> !ahash_entries(*old(index)).contains_key(
                    #[trigger] rest@[i],
                ),
        ensures
            final(self).wf(),
            ({
                let warm = warm_part(old(self)@, rest@);
                &&& final(self)@ == warm_hits(old(self)@, warm)
                &&& r.0@.len() == warm.len()
                &&& final(rows)@.len() == old(rows)@.len() + warm.len()
                &&& forall|k: int|
                    0 <= k < warm.len() ==> (#[trigger] warm[k]).0 == r.0@[k] && warm[k].1
                        == final(rows)@[old(rows)@.len() + k]@
                &&& resolved_rows(final(rows)@, ahash_entries(*final(index))) == resolved_rows(
                    old(rows)@,
                    ahash_entries(*old(index)),
                ).union_prefer_right(by_node(warm))
                &&& r.1@ == missing_part(old(self)@, rest@)
                &&& index_ok(final(rows)@, ahash_entries(*final(index)))
            }),
    {
        let ghost t = self@;
        let ghost base = rows@.len() as int;
        let ghost start = resolved_rows(rows@, ahash_entries(*index));
        let mut found: Vec<NodeId> = Vec::new();
        let mut missing: Vec<NodeId> = Vec::new();
        let mut i: usize = 0;
        proof {
            assert(rest@.take(0) =~= Seq::empty());
            assert(start =~= start.union_prefer_right(by_node(Seq::empty())));
        }
        while i < rest.len()
            invariant
                self.wf(),
                i <= rest@.len(),
                rest@.no_duplicates(),
                0 <= base,
                self@ == warm_hits(t, warm_part(t, rest@.take(i as int))),
                found@.len() == warm_part(t, rest@.take(i as int)).len(),
                found@.len() <= i,
                rows@.len() == base + found@.len(),
                forall|k: int|
                    0 <= k < found@.len() ==> (#[trigger] warm_part(t, rest@.take(i as int))[k]).0
                        == found@[k] && warm_part(t, rest@.take(i as int))[k].1 == rows@[base
                        + k]@,
                missing@ == missing_part(t, rest@.take(i as int)),
                index_ok(rows@, ahash_entries(*index)),
                resolved_rows(rows@, ahash_entries(*index)) == start.union_prefer_right(
                    by_node(warm_part(t, rest@.take(i as int))),
                ),
                forall|k: int| 0 <= k < rest@.len() ==> !start.contains_key(#[trigger] rest@[k]),
            decreases rest@.len() - i,
        {
            let node: u32 = rest[i];
            let ghost done = rest@.take(i as int);
            let ghost next = rest@.take(i + 1);
            let ghost warm = warm_part(t, done);
            let ghost was = rows@;
            proof {
                assert(next.drop_last() =~= done);
                assert(next.last() == node);
                assert(done.no_duplicates());
                lemma_warm_parts(t, done);
                lemma_warm_hits(t, warm);
                assert(!start.contains_key(rest@[i as int]));
                assert(!done.contains(node)) by {
                    if done.contains(node) {
                        let k = choose|k: int| 0 <= k < done.len() && done[k] == node;
                        assert(rest@[k] == rest@[i as int]);
                    }
                }
                assert(resolved_rows(rows@, ahash_entries(*index)).contains_key(node)
                    <==> ahash_entries(*index).contains_key(node));
                assert(!by_node(warm).contains_key(node));
            }
            match self.hit_warm(node) {
                Some(row) => {
                    let ghost added = row@;
                    let ghost kept = row;
                    let ghost old_rows = rows@;
                    assert(old_rows.len() == base + warm.len());
                    found.push(node);
                    resolve(rows, index, node, row);
                    proof {
                        assert(rows@ == old_rows.push(kept));
                        assert(warm_part(t, next) == warm.push((node, added)));
                        assert(warm.push((node, added)).drop_last() =~= warm);
                        assert(resolved_rows(rows@, ahash_entries(*index))
                            =~= start.union_prefer_right(by_node(warm.push((node, added)))));
                        assert forall|k: int| 0 <= k < found@.len() implies (
                        #[trigger] warm_part(t, next)[k]).0 == found@[k] && warm_part(t, next)[k].1
                            == rows@[base + k]@ by {
                            if k < warm.len() {
                                assert(warm[k].1 == old_rows[base + k]@);
                                assert(rows@[base + k] == old_rows[base + k]);
                            } else {
                                assert(rows@[base + k]@ == added);
                            }
                        }
                    }
                },
                None => {
                    missing.push(node);
                },
            }
            i += 1;
        }
        assert(rest@.take(i as int) =~= rest@);
        (found, missing)
    }

    /// Takes found rows up to the hot tier.
    fn promote_found(
        &mut self,
        found: &Vec<NodeId>,
        rows: &Vec<FeatureVector>,
        base: usize,
        Ghost(warm): Ghost<Seq<(u32, Seq<u32>)>>,
    ) -> (spills: Vec<Spill>)
        requires
            old(self).wf(),
            found@.len() == warm.len(),
            rows@.len() == base + warm.len(),
            forall|k: int|
                0 <= k < warm.len() ==> (#[trigger] warm[k]).0 == found@[k] && warm[k].1
                    == rows@[base + k]@ && warm[k].1.len() == old(self)@.gpu.dim,
        ensures
            final(self).wf(),
            final(self)@ == hot_promoted(old(self)@, warm),
            spills_view(spills@) == hot_spills(old(self)@, warm),
    {
        let ghost t = self@;
        let mut spills: Vec<Spill> = Vec::new();
        let mut k: usize = 0;
        let count: usize = rows.len();
        proof {
            assert(warm.take(0) =~= Seq::empty());
            assert(spills_view(spills@) =~= Seq::empty());
        }
        while k < found.len()
            invariant
                self.wf(),
                k <= found@.len(),
                count == rows@.len(),
                found@.len() == warm.len(),
                rows@.len() == base + warm.len(),
                forall|k: int|
                    0 <= k < warm.len() ==> (#[trigger] warm[k]).0 == found@[k] && warm[k].1
                        == rows@[base + k]@ && warm[k].1.len() == t.gpu.dim,
                self@.gpu.dim == t.gpu.dim,
                self@ == hot_promoted(t, warm.take(k as int)),
                spills_view(spills@) == hot_spills(t, warm.take(k as int)),
            decreases found@.len() - k,
        {
            let ghost now = self@;
            let node: u32 = found[k];
            proof {
                assert(warm[k as int].0 == node);
                let next = warm.take(k + 1);
                assert(next.drop_last() =~= warm.take(k as int));
                assert(next.last() == warm[k as int]);
                lemma_promotion_shape(now, node, warm[k as int].1);
            }
            let spill = self.promote_to_gpu(node, rows[base + k].as_slice());
            note_spill(&mut spills, spill);
            k += 1;
        }
        assert(warm.take(k as int) =~= warm);
        spills
    }

    /// Asks the tiers in memory for the rows of a batch. Each distinct node is
    /// asked for once, and rows of the warm tier go up to the hot one. The records
    /// of the nodes that are missing are to be read and handed to
    /// [`FeatureCache::finish_batch`].
    pub fn get_batch(&mut self, nodes: &[NodeId]) -> (batch: Batch)
        requires
            old(self).wf(),
        ensures
            final(self).wf(),
            batch.wf(),
            batch@ == asked_batch(old(self)@, nodes@),
            final(self)@ == asked(old(self)@, nodes@),
    {
        let ghost t = self@;
        proof {
            self.lemma_valid();
            lemma_parts(t, nodes@);
            lemma_hot_hits(t, hot_part(t, nodes@));
        }
        let batch = self.ask_hot(nodes);
        let Batch { nodes: asked_nodes, rows: hot_rows, index: hot_index, missing: rest, spills: _ } =
            batch;
        let mut rows = hot_rows;
        let mut index = hot_index;
        let base: usize = rows.len();
        let ghost hot_resolved = resolved_rows(rows@, ahash_entries(index));
        let ghost hot_index_map = ahash_entries(index);
        let ghost hits = self@;
        proof {
            lemma_warm_part_of(t, hits, rest@);
            lemma_warm_parts(t, rest@);
            assert forall|i: int| 0 <= i < rest@.len() implies !ahash_entries(index).contains_key(
                #[trigger] rest@[i],
            ) by {
                assert(rest@.contains(rest@[i]));
                assert(!hot_resolved.contains_key(rest@[i]));
            }
        }
        let (found, missing) = self.ask_warm(&rest, &mut rows, &mut index);
        let ghost warm = warm_part(t, rest@);
        proof {
            lemma_warm_hits(hits, warm);
            assert forall|k: int| 0 <= k < warm.len() implies (#[trigger] warm[k]).0 == found@[k]
                && warm[k].1 == rows@[base + k]@ && warm[k].1.len() == self@.gpu.dim by {
                assert(warm_part(hits, rest@)[k] == warm[k]);
                assert(t.cpu.rows.contains_key(warm[k].0));
            }
        }
        let spills = self.promote_found(&found, &rows, base, Ghost(warm));
        let done = Batch { nodes: asked_nodes, rows, index, missing, spills };
        proof {
            assert(done@ =~= asked_batch(t, nodes@));
            let entries = ahash_entries(done.index);
            assert forall|n: u32| #[trigger] entries.contains_key(n)
                <==> done@.resolved.contains_key(n) by {}
            assert forall|i: int| 0 <= i < done.nodes@.len() implies entries.contains_key(
                #[trigger] done.nodes@[i],
            ) || done.missing@.contains(done.nodes@[i]) by {
                let n = done.nodes@[i];
                assert(nodes@.contains(n));
                assert(entries.contains_key(n) <==> done@.resolved.contains_key(n));
                if t.gpu.rows.contains_key(n) {
                    assert(hot_part(t, nodes@).contains(n));
                } else {
                    assert(rest@.contains(n));
                    if t.cpu.rows.contains_key(n) {
                        assert(by_node(warm).contains_key(n));
                    } else {
                        assert(missing_part(t, rest@).contains(n));
                    }
                }
            }
            assert forall|i: int| 0 <= i < done.missing@.len() implies !entries.contains_key(
                #[trigger] done.missing@[i],
            ) by {
                let n = done.missing@[i];
                assert(missing_part(t, rest@).contains(n));
                assert(rest@.contains(n));
                assert(!hot_part(t, nodes@).contains(n));
                assert(!by_node(warm).contains_key(n));
                assert(entries.contains_key(n) <==> done@.resolved.contains_key(n));
            }
        }
        done
    }
}

/// The node is still ahead in the list of missing nodes.
spec fn ahead(missing: Seq<u32>, i: int, n: u32) -> bool {
    exists|k: int| i <= k < missing.len() && #[trigger] missing[k] == n
}

/// The node has been passed in the list of missing nodes.
spec fn behind(missing: Seq<u32>, i: int, n: u32) -> bool {
    exists|k: int| 0 <= k < i && #[trigger] missing[k] == n
}

/// Every node of a batch is resolved, left to the backing tier, or still ahead.
spec fn open_nodes(
    index: Map<u32, u32>,
    cold: Seq<u32>,
    missing: Seq<u32>,
    i: int,
    nodes: Seq<u32>,
) -> bool {
    &&& forall|j: int|
        0 <= j < nodes.len() ==> index.contains_key(#[trigger] nodes[j]) || cold.contains(nodes[j])
            || ahead(missing, i, nodes[j])
    &&& forall|k: int| i <= k < missing.len() ==> !index.contains_key(#[trigger] missing[k])
    &&& forall|j: int| 0 <= j < cold.len() ==> !index.contains_key(#[trigger] cold[j])
    &&& forall|j: int| 0 <= j < cold.len() ==> behind(missing, i, #[trigger] cold[j])
    &&& cold.no_duplicates()
}

/// The next missing node has been resolved.
proof fn lemma_resolved_one(
    index: Map<u32, u32>,
    after: Map<u32, u32>,
    cold: Seq<u32>,
    missing: Seq<u32>,
    i: int,
    nodes: Seq<u32>,
)
    requires
        open_nodes(index, cold, missing, i, nodes),
        0 <= i < missing.len(),
        missing.no_duplicates(),
        after.dom() == index.dom().insert(missing[i]),
    ensures
        open_nodes(after, cold, missing, i + 1, nodes),
{
    let n = missing[i];
    assert forall|m: u32| #[trigger] after.contains_key(m) <==> index.contains_key(m) || m == n by {
        assert(after.dom().contains(m) <==> index.dom().insert(n).contains(m));
    }
    assert forall|j: int| 0 <= j < nodes.len() implies after.contains_key(#[trigger] nodes[j])
        || cold.contains(nodes[j]) || ahead(missing, i + 1, nodes[j]) by {
        if ahead(missing, i, nodes[j]) {
            let k = choose|k: int| i <= k < missing.len() && #[trigger] missing[k] == nodes[j];
            if k > i {
                assert(missing[k] == nodes[j]);
            }
        }
    }
    assert forall|k: int| i + 1 <= k < missing.len() implies !after.contains_key(
        #[trigger] missing[k],
    ) by {
        assert(missing[k] != missing[i]);
    }
    assert forall|j: int| 0 <= j < cold.len() implies !after.contains_key(#[trigger] cold[j])
        && behind(missing, i + 1, cold[j]) by {
        assert(behind(missing, i, cold[j]));
        let k = choose|k: int| 0 <= k < i && #[trigger] missing[k] == cold[j];
        assert(missing[k] != missing[i]);
    }
}

/// The next missing node has been left to the backing tier.
proof fn lemma_postponed_one(
    index: Map<u32, u32>,
    cold: Seq<u32>,
    missing: Seq<u32>,
    i: int,
    nodes: Seq<u32>,
)
    requires
        open_nodes(index, cold, missing, i, nodes),
        0 <= i < missing.len(),
        missing.no_duplicates(),
    ensures
        open_nodes(index, cold.push(missing[i]), missing, i + 1, nodes),
{
    let n = missing[i];
    let now = cold.push(n);
    assert(!cold.contains(n)) by {
        if cold.contains(n) {
            let j = choose|j: int| 0 <= j < cold.len() && cold[j] == n;
            assert(behind(missing, i, cold[j]));
            let k = choose|k: int| 0 <= k < i && #[trigger] missing[k] == n;
            assert(missing[k] != missing[i]);
        }
    }
    lemma_push_new(cold, n);
    assert forall|j: int| 0 <= j < nodes.len() implies index.contains_key(#[trigger] nodes[j])
        || now.contains(nodes[j]) || ahead(missing, i + 1, nodes[j]) by {
        if ahead(missing, i, nodes[j]) {
            let k = choose|k: int| i <= k < missing.len() && #[trigger] missing[k] == nodes[j];
            if k > i {
                assert(missing[k] == nodes[j]);
            }
        }
    }
    assert forall|j: int| 0 <= j < now.len() implies !index.contains_key(#[trigger] now[j])
        && behind(missing, i + 1, now[j]) by {
        if j < cold.len() {
            assert(now[j] == cold[j]);
            assert(behind(missing, i, cold[j]));
            let k = choose|k: int| 0 <= k < i && #[trigger] missing[k] == cold[j];
            assert(missing[k] == now[j]);
        } else {
            assert(missing[i] == now[j]);
        }
    }
}

/// Nothing is taken in behind a node that no tier holds.
proof fn lemma_loads_failed(start: LoadView, found: Seq<(u32, Option<Seq<u32>>)>, n: int)
    requires
        0 <= n <= found.len(),
        loads(start, found.take(n)).failed is Some,
    ensures
        loads(start, found) == loads(start, found.take(n)),
    decreases found.len() - n,
{
    if n < found.len() {
        assert(found.take(n + 1).drop_last() =~= found.take(n));
        lemma_loads_failed(start, found, n + 1);
    } else {
        assert(found.take(n) =~= found);
    }
}

/// Which rows the backing tier adds.
pub(super) proof fn lemma_cold_by_node(store: StoreView, list: Seq<u32>)
    ensures
        forall|n: u32| #[trigger]
            by_node(cold_rows(store, list)).contains_key(n) <==> list.contains(n),
        forall|n: u32| #[trigger]
            by_node(cold_rows(store, list)).contains_key(n) ==> by_node(cold_rows(store, list))[n]
                == store.row(n as int),
    decreases list.len(),
{
    if list.len() > 0 {
        let before = list.drop_last();
        let last = list.last();
        lemma_cold_by_node(store, before);
        let served = cold_rows(store, list);
        assert(served.drop_last() =~= cold_rows(store, before));
        assert(served.last() == (last, store.row(last as int)));
        assert(by_node(served) == by_node(cold_rows(store, before)).insert(
            last,
            store.row(last as int),
        ));
        assert(list =~= before.push(last));
        lemma_push_new(before, last);
    }
}

/// Where a row stands in a gather.
proof fn lemma_gathered_row(store: StoreView, list: Seq<u32>, i: int)
    requires
        0 <= i < list.len(),
    ensures
        store.rows(list).len() == list.len() * store.feature_dim,
        store.rows(list).subrange(
            i * store.feature_dim,
            i * store.feature_dim + store.feature_dim,
        ) == store.row(list[i] as int),
    decreases list.len(),
{
    let dim = store.feature_dim as int;
    let rest = list.drop_last();
    if rest.len() > 0 {
        lemma_gathered_row(
            store,
            rest,
            if i < rest.len() {
                i
            } else {
                0
            },
        );
    }
    assert(store.rows(rest).len() == rest.len() * dim) by {
        if rest.len() == 0 {
            assert(0 * dim == 0) by (nonlinear_arith);
        }
    }
    assert((list.len() - 1) * dim + dim == list.len() * dim) by (nonlinear_arith);
    lemma_row_inside(i, list.len() as int, dim);
    let at = i * dim;
    if i < rest.len() {
        lemma_row_inside(i, rest.len() as int, dim);
        assert(rest[i] == list[i]);
        assert(store.rows(list).subrange(at, at + dim) =~= store.rows(rest).subrange(
            at,
            at + dim,
        ));
    } else {
        assert(store.rows(list).subrange(at, at + dim) =~= store.row(list[i] as int));
    }
}

impl FeatureCache {
    /// Gathers rows from the backing tier and takes them up to the warm one. Says
    /// what went wrong, if anything did.
    fn finish_cold(
        &mut self,
        list: &Vec<NodeId>,
        rows: &mut Vec<FeatureVector>,
        index: &mut AHashMap<u32, u32>,
        spills: &mut Vec<Spill>,
    ) -> (failure: Option<CacheError>)
        requires
            old(self).wf(),
            old(self)@.cold is Some,
            list@.len() > 0,
            list@.no_duplicates(),
            index_ok(old(rows)@, ahash_entries(*old(index))),
            forall|i: int|
                0 <= i < list@.len() ==> !ahash_entries(*old(index)).contains_key(
                    #[trigger] list@[i],
                ),
        ensures
            final(self).wf(),
            ({
                let before = old(self)@;
                let store = before.cold->0;
                let resolved = resolved_rows(old(rows)@, ahash_entries(*old(index)));
                let served = cold_rows(store, list@);
                let hit = before.cold_hit(list@.len() as u64);
                if !store.has_all(list@) {
                    &&& exists|i: int|
                        store.first_missing(list@, i) && failure == Some(
                            CacheError::NotCached { node: #[trigger] list@[i] },
                        )
                    &&& spills_view(final(spills)@) == spills_view(old(spills)@)
                    &&& final(self)@ == before.missed()
                } else {
                    &&& failure is None
                    &&& index_ok(final(rows)@, ahash_entries(*final(index)))
                    &&& resolved_rows(final(rows)@, ahash_entries(*final(index)))
                        == resolved.union_prefer_right(by_node(served))
                    &&& spills_view(final(spills)@) == spills_view(old(spills)@) + warm_spills(
                        hit,
                        served,
                    )
                    &&& final(self)@ == warm_promoted(hit, served)
                }
            }),
    {
        let ghost before = self@;
        let ghost store = before.cold->0;
        let ghost resolved = resolved_rows(rows@, ahash_entries(*index));
        let ghost served = cold_rows(store, list@);
        let ghost spilled_before = spills_view(spills@);
        proof {
            self.lemma_valid();
        }
        let (num_rows, gathered) = match self.cold() {
            Some(cold) => {
                let num_rows: usize = cold.num_rows();
                (num_rows, cold.gather(list.as_slice()))
            },
            None => vstd::pervasive::unreached(),
        };
        let mut i: usize = 0;
        while i < list.len()
            invariant
                self.wf(),
                self@ == before,
                i <= list@.len(),
                num_rows == store.num_nodes,
                forall|k: int| 0 <= k < i ==> (#[trigger] list@[k]) < store.num_nodes,
                store == before.cold->0,
                spills_view(spills@) == spilled_before,
                spilled_before == spills_view(old(spills)@),
                before == old(self)@,
            decreases list@.len() - i,
        {
            if list[i] as u64 >= num_rows as u64 {
                self.count_miss();
                proof {
                    assert(store.first_missing(list@, i as int));
                    assert(!store.has_all(list@)) by {
                        assert(list@[i as int] >= store.num_nodes);
                    }
                }
                return Some(CacheError::NotCached { node: list[i] });
            }
            i += 1;
        }
        assert(store.has_all(list@));
        let gathered = match gathered {
            Ok(g) => g,
            Err(cause) => {
                return Some(CacheError::Cold { cause });
            },
        };
        self.count_cold(list.len() as u64);
        let ghost hit = self@;
        let dim: usize = self.feature_dim();
        let mut k: usize = 0;
        let mut at: usize = 0;
        let len: usize = gathered.len();
        proof {
            assert(served.take(0) =~= Seq::empty());
            assert(resolved =~= resolved.union_prefer_right(by_node(Seq::empty())));
            assert(spilled_before =~= spilled_before + warm_spills(hit, Seq::empty()));
            assert(0 * dim == 0) by (nonlinear_arith);
        }
        let ghost base = rows@.len() as int;
        while k < list.len()
            invariant
                self.wf(),
                k <= list@.len(),
                0 <= base,
                rows@.len() == base + k,
                list@.no_duplicates(),
                dim == store.feature_dim,
                self@.gpu.dim == dim,
                len == gathered@.len(),
                gathered@ == store.rows(list@),
                at == k * dim,
                served == cold_rows(store, list@),
                self@ == warm_promoted(hit, served.take(k as int)),
                index_ok(rows@, ahash_entries(*index)),
                resolved_rows(rows@, ahash_entries(*index)) == resolved.union_prefer_right(
                    by_node(served.take(k as int)),
                ),
                spills_view(spills@) == spilled_before + warm_spills(hit, served.take(k as int)),
                forall|i: int|
                    0 <= i < list@.len() ==> !resolved.contains_key(#[trigger] list@[i]),
            decreases list@.len() - k,
        {
            let node: u32 = list[k];
            let ghost now = self@;
            let ghost part = served.take(k as int);
            proof {
                lemma_gathered_row(store, list@, k as int);
                lemma_row_inside(k as int, list@.len() as int, dim as int);
                assert((k + 1) * dim == k * dim + dim) by (nonlinear_arith);
                let next = served.take(k + 1);
                assert(next.drop_last() =~= part);
                assert(next.last() == served[k as int]);
                assert(served[k as int] == (node, store.row(node as int)));
                assert(part =~= cold_rows(store, list@.take(k as int)));
                lemma_cold_by_node(store, list@.take(k as int));
                assert(!list@.take(k as int).contains(node)) by {
                    if list@.take(k as int).contains(node) {
                        let j = choose|j: int|
                            0 <= j < k && list@.take(k as int)[j] == node;
                        assert(list@[j] == list@[k as int]);
                    }
                }
                assert(!resolved.contains_key(list@[k as int]));
                assert(resolved_rows(rows@, ahash_entries(*index)).contains_key(node)
                    <==> ahash_entries(*index).contains_key(node));
                lemma_promotion_shape(now, node, store.row(node as int));
            }
            let row = slice_to_vec(slice_subrange(gathered.as_slice(), at, at + dim));
            assert(row@ == store.row(node as int));
            let spill = self.promote_to_cpu(node, row.as_slice());
            let ghost spilled_now = spills_view(spills@);
            note_spill(spills, spill);
            resolve(rows, index, node, row);
            proof {
                assert(resolved_rows(rows@, ahash_entries(*index)) =~= resolved.union_prefer_right(
                    by_node(served.take(k + 1)),
                ));
                assert(spills_view(spills@) =~= spilled_before + warm_spills(
                    hit,
                    served.take(k + 1),
                ));
            }
            at += dim;
            k += 1;
        }
        assert(served.take(k as int) =~= served);
        None
    }

    /// Takes in the records of the missing nodes of a batch, gathers the rest from
    /// the backing tier, and puts the rows in order. `records` follows the list of
    /// missing nodes; a node without a record has none.
    pub fn finish_batch(&mut self, batch: Batch, records: &Vec<Option<Vec<u8>>>) -> (end: BatchEnd)
        requires
            old(self).wf(),
            batch.wf(),
            records@.len() == batch@.missing.len(),
            forall|i: int|
                0 <= i < records@.len() ==> ((#[trigger] records@[i]) matches Some(r) ==> r@.len()
                    >= old(self)@.nvme.payload_bytes()),
        ensures
            final(self).wf(),
            finish_does(
                old(self)@,
                batch@,
                with_records(old(self)@, batch@.missing, records@),
                end,
                final(self)@,
            ),
    {
        let ghost t = self@;
        let ghost found = with_records(t, batch@.missing, records@);
        let ghost start = load_start(t, batch@.resolved);
        let ghost view = batch@;
        let Batch { nodes, rows: first_rows, index: first_index, missing, spills: _ } = batch;
        let mut rows = first_rows;
        let mut index = first_index;
        let mut spills: Vec<Spill> = Vec::new();
        let mut cold: Vec<NodeId> = Vec::new();
        let mut i: usize = 0;
        proof {
            assert(found.take(0) =~= Seq::empty());
            assert(spills_view(spills@) =~= Seq::empty());
            assert forall|j: int| 0 <= j < nodes@.len() implies ahash_entries(index).contains_key(
                #[trigger] nodes@[j],
            ) || cold@.contains(nodes@[j]) || ahead(missing@, 0, nodes@[j]) by {
                if missing@.contains(nodes@[j]) {
                    let k = choose|k: int| 0 <= k < missing@.len() && missing@[k] == nodes@[j];
                    assert(missing@[k] == nodes@[j]);
                }
            }
        }
        while i < missing.len()
            invariant
                self.wf(),
                i <= missing@.len(),
                t == old(self)@,
                view == batch@,
                missing@ == view.missing,
                nodes@ == view.nodes,
                cold@.len() > 0 ==> t.cold is Some,
                records@.len() == missing@.len(),
                found == with_records(t, missing@, records@),
                start == load_start(t, view.resolved),
                forall|i: int|
                    0 <= i < records@.len() ==> ((#[trigger] records@[i]) matches Some(r) ==> r@.len()
                        >= t.nvme.payload_bytes()),
                self@.nvme == t.nvme,
                self@.cold == t.cold,
                self@.gpu == t.gpu,
                missing@.no_duplicates(),
                index_ok(rows@, ahash_entries(index)),
                open_nodes(ahash_entries(index), cold@, missing@, i as int, nodes@),
                loads(start, found.take(i as int)) == (LoadView {
                    tiers: self@,
                    resolved: resolved_rows(rows@, ahash_entries(index)),
                    spills: spills_view(spills@),
                    cold: cold@,
                    failed: None,
                }),
            decreases missing@.len() - i,
        {
            let node: u32 = missing[i];
            let ghost l = loads(start, found.take(i as int));
            let ghost entries = ahash_entries(index);
            let ghost cold_before = cold@;
            proof {
                let next = found.take(i + 1);
                assert(next.drop_last() =~= found.take(i as int));
                assert(next.last() == found[i as int]);
                assert(found[i as int].0 == node);
                assert(!entries.contains_key(missing@[i as int]));
                assert(missing@[i as int] == node);
            }
            match &records[i] {
                Some(record) => {
                    assert(records@[i as int] is Some);
                    let ghost now = self@;
                    let (row, spill) = self.loaded(node, record.as_slice());
                    note_spill(&mut spills, spill);
                    resolve(&mut rows, &mut index, node, row);
                    proof {
                        lemma_promotion_shape(now.nvme_hit(), node, row@);
                        lemma_resolved_one(
                            entries,
                            ahash_entries(index),
                            cold@,
                            missing@,
                            i as int,
                            nodes@,
                        );
                    }
                },
                None => {
                    assert(records@[i as int] is None);
                    if self.cold().is_none() {
                        self.count_miss();
                        proof {
                            lemma_loads_failed(start, found, i + 1);
                        }
                        return BatchEnd {
                            rows: Err(CacheError::NotCached { node }),
                            spills,
                        };
                    }
                    cold.push(node);
                    proof {
                        lemma_postponed_one(entries, cold_before, missing@, i as int, nodes@);
                    }
                },
            }
            i += 1;
        }
        assert(found.take(i as int) =~= found);
        if cold.len() > 0 {
            let ghost now = self@;
            let ghost entries = ahash_entries(index);
            let ghost resolved = resolved_rows(rows@, ahash_entries(index));
            let failure = self.finish_cold(&cold, &mut rows, &mut index, &mut spills);
            if let Some(e) = failure {
                return BatchEnd { rows: Err(e), spills };
            }
            proof {
                lemma_cold_by_node(now.cold->0, cold@);
                assert forall|j: int| 0 <= j < nodes@.len() implies ahash_entries(
                    index,
                ).contains_key(#[trigger] nodes@[j]) by {
                    let n = nodes@[j];
                    assert(ahash_entries(index).contains_key(n) <==> resolved_rows(
                        rows@,
                        ahash_entries(index),
                    ).contains_key(n));
                    assert(resolved.contains_key(n) <==> entries.contains_key(n));
                    assert(!ahead(missing@, i as int, n));
                }
            }
        }
        assert(forall|n: u32| !ahead(missing@, missing@.len() as int, n));
        let out = assemble(&rows, &index, &nodes);
        BatchEnd { rows: Ok(out), spills }
    }
}

} // verus!
