//! Frequency-weighted cache for one tier.
//!
//! Eviction takes the node of least frequency out of a min-heap. The heap is
//! brought up to date only then: hits raise a node's frequency without touching
//! it, and entries of nodes that left or are pinned are dropped when they come up.
use vstd::prelude::*;
use vstd::multiset::Multiset;
use ahash::AHashMap;
use rustc_hash::FxHashSet;
use vstd::slice::slice_to_vec;
use crate::collections::{
    ahash_entries, ahash_get, ahash_insert, ahash_len, ahash_new, ahash_remove, fx_set_contains,
    fx_set_insert, fx_set_remove,
};
use crate::graph::csr::NodeId;
use super::heap::{before, RankHeap, Ranked};
use super::slab::{RowSlab, SLAB_BLOCK_ROWS};

verus! {

/// What a tier insert did.
#[derive(Debug, Clone, PartialEq, Eq)]
pub enum InsertOutcome {
    /// Stored without displacing anyone.
    Stored,
    /// Stored; the victim node was evicted and its row moved out with it.
    StoredEvicting(NodeId, Vec<u32>),
    /// Not stored: every resident entry is pinned.
    Refused,
}

/// What a frequency-weighted tier holds.
#[verifier::ext_equal]
pub struct FreqView {
    pub capacity: nat,
    pub dim: nat,
    /// The rows of the resident nodes.
    pub rows: Map<u32, Seq<u32>>,
    /// How often each resident node was hit since it came in.
    pub hits: Map<u32, u64>,
    /// Frequencies known beforehand.
    pub warm: Map<u32, u32>,
    /// Nodes that are never evicted.
    pub pinned: Set<u32>,
}

/// Sum that stays at the largest `u64`.
pub open spec fn sat_add(a: int, b: int) -> u64 {
    if a + b > u64::MAX {
        u64::MAX
    } else {
        (a + b) as u64
    }
}

/// Frequency of a node: what was known beforehand plus its hits.
pub open spec fn frequency(warm: Map<u32, u32>, hits: u64, node: u32) -> u64 {
    sat_add(
        if warm.contains_key(node) {
            warm[node] as int
        } else {
            0
        },
        hits as int,
    )
}

impl FreqView {
    /// Frequency of a resident node.
    pub open spec fn freq(self, node: u32) -> u64 {
        frequency(self.warm, self.hits[node], node)
    }

    /// Resident and not pinned.
    pub open spec fn evictable(self, node: u32) -> bool {
        self.rows.contains_key(node) && !self.pinned.contains(node)
    }

    /// The node that makes room: among the resident nodes that are not pinned,
    /// the one of least frequency, and of least id where frequencies are equal.
    pub open spec fn is_victim(self, node: u32) -> bool {
        &&& self.evictable(node)
        &&& forall|m: u32| #[trigger]
            self.evictable(m) ==> before((self.freq(node), node), (self.freq(m), m))
    }

    /// The tier after one more hit on a node.
    pub open spec fn hit(self, node: u32) -> FreqView {
        FreqView { hits: self.hits.insert(node, sat_add(self.hits[node] as int, 1)), ..self }
    }

    /// The tier with a new row for a node that has just come in.
    pub open spec fn with_row(self, node: u32, row: Seq<u32>) -> FreqView {
        FreqView { rows: self.rows.insert(node, row), hits: self.hits.insert(node, 0), ..self }
    }

    /// The tier without a node.
    pub open spec fn without(self, node: u32) -> FreqView {
        FreqView { rows: self.rows.remove(node), hits: self.hits.remove(node), ..self }
    }

    /// What inserting a row does to the tier, and what it says.
    pub open spec fn insert_does(
        self,
        node: u32,
        row: Seq<u32>,
        outcome: InsertOutcome,
        after: FreqView,
    ) -> bool {
        if self.rows.contains_key(node) {
            outcome is Stored && after == (FreqView {
                rows: self.rows.insert(node, row),
                ..self.hit(node)
            })
        } else if self.rows.len() < self.capacity {
            outcome is Stored && after == self.with_row(node, row)
        } else if exists|n: u32| self.evictable(n) {
            match outcome {
                InsertOutcome::StoredEvicting(victim, evicted) => {
                    &&& self.is_victim(victim)
                    &&& evicted@ == self.rows[victim]
                    &&& after == self.without(victim).with_row(node, row)
                },
                _ => false,
            }
        } else {
            outcome is Refused && after == self
        }
    }
}

impl FreqView {
    /// Within its capacity, with hits counted for what it holds and nothing else.
    pub open spec fn valid(self) -> bool {
        &&& self.rows.dom().finite()
        &&& self.rows.len() <= self.capacity
        &&& self.hits.dom() == self.rows.dom()
        &&& forall|n: u32| #[trigger] self.rows.contains_key(n) ==> self.rows[n].len() == self.dim
    }

    /// A tier that can make room has a node that makes it.
    pub proof fn lemma_victim(self)
        requires
            self.rows.dom().finite(),
            exists|n: u32| self.evictable(n),
        ensures
            self.is_victim(self.victim()),
    {
        let some = choose|n: u32| self.evictable(n);
        let all = Set::new(|n: u32| self.evictable(n));
        assert(all.subset_of(self.rows.dom()));
        vstd::set_lib::lemma_len_subset(all, self.rows.dom());
        assert(all.contains(some));
        let m = lemma_least(self, all);
        assert(self.evictable(m));
        assert forall|k: u32| #[trigger] self.evictable(k) implies before(
            (self.freq(m), m),
            (self.freq(k), k),
        ) by {
            assert(all.contains(k));
        }
        assert(self.is_victim(m));
    }

    /// A full tier that holds only pinned nodes has no room for another.
    pub open spec fn refuses(self, node: u32) -> bool {
        &&& !self.rows.contains_key(node)
        &&& self.rows.len() >= self.capacity
        &&& forall|n: u32| !self.evictable(n)
    }

    /// The node that makes room.
    pub open spec fn victim(self) -> u32 {
        choose|n: u32| self.is_victim(n)
    }

    /// The tier after inserting a row.
    pub open spec fn inserted(self, node: u32, row: Seq<u32>) -> FreqView {
        if self.rows.contains_key(node) {
            FreqView { rows: self.rows.insert(node, row), ..self.hit(node) }
        } else if self.rows.len() < self.capacity {
            self.with_row(node, row)
        } else if self.refuses(node) {
            self
        } else {
            self.without(self.victim()).with_row(node, row)
        }
    }

    /// The row that inserting pushes out of the tier: that of the victim, or the
    /// inserted one where it is refused.
    pub open spec fn displaced(self, node: u32, row: Seq<u32>) -> Option<(u32, Seq<u32>)> {
        if self.rows.contains_key(node) || self.rows.len() < self.capacity {
            None
        } else if self.refuses(node) {
            Some((node, row))
        } else {
            Some((self.victim(), self.rows[self.victim()]))
        }
    }
}

/// Among finitely many nodes one comes before all others.
proof fn lemma_least(v: FreqView, s: Set<u32>) -> (m: u32)
    requires
        s.finite(),
        s.len() > 0,
    ensures
        s.contains(m),
        forall|n: u32| #[trigger] s.contains(n) ==> before((v.freq(m), m), (v.freq(n), n)),
    decreases s.len(),
{
    let a = s.choose();
    assert(s.contains(a));
    let rest = s.remove(a);
    if rest.len() == 0 {
        assert forall|n: u32| #[trigger] s.contains(n) implies n == a by {
            if n != a {
                assert(rest.contains(n));
            }
        }
        a
    } else {
        let b = lemma_least(v, rest);
        let m = if before((v.freq(a), a), (v.freq(b), b)) {
            a
        } else {
            b
        };
        assert forall|n: u32| #[trigger] s.contains(n) implies before(
            (v.freq(m), m),
            (v.freq(n), n),
        ) by {
            if n != a {
                assert(rest.contains(n));
            }
        }
        m
    }
}

/// The row that an outcome says was pushed out.
pub open spec fn pushed_out(outcome: InsertOutcome, node: u32, row: Seq<u32>) -> Option<
    (u32, Seq<u32>),
> {
    match outcome {
        InsertOutcome::Stored => None,
        InsertOutcome::StoredEvicting(victim, evicted) => Some((victim, evicted@)),
        InsertOutcome::Refused => Some((node, row)),
    }
}

/// What an insert does is determined by the tier, the node and the row.
pub proof fn law_insert_is_determined(
    before: FreqView,
    node: u32,
    row: Seq<u32>,
    outcome: InsertOutcome,
    after: FreqView,
)
    requires
        before.insert_does(node, row, outcome, after),
    ensures
        after == before.inserted(node, row),
        pushed_out(outcome, node, row) == before.displaced(node, row),
        outcome is Refused <==> before.refuses(node),
{
    if let InsertOutcome::StoredEvicting(victim, evicted) = outcome {
        let other = before.victim();
        assert(before.is_victim(victim));
        assert(before.is_victim(other));
        assert(before.evictable(victim) && before.evictable(other));
        assert(victim == other);
    }
}

/// Some heap entry of the node has at most this frequency.
spec fn has_entry(heap: Multiset<Ranked>, node: u32, bound: u64) -> bool {
    exists|f: u64| #[trigger] heap.count((f, node)) > 0 && f <= bound
}

/// Frequency-weighted cache for a single tier.
pub struct FreqCache {
    capacity: usize,
    /// Row index of every resident node.
    cache: AHashMap<u32, u32>,
    /// Hits by row index.
    hits: Vec<u64>,
    slab: RowSlab,
    warm: AHashMap<u32, u32>,
    pinned: FxHashSet<u32>,
    heap: RankHeap,
}

impl View for FreqCache {
    type V = FreqView;

    closed spec fn view(&self) -> FreqView {
        let entries = ahash_entries(self.cache);
        FreqView {
            capacity: self.capacity as nat,
            dim: self.slab.width(),
            rows: Map::new(
                |n: u32| entries.contains_key(n),
                |n: u32| self.slab@[entries[n] as int],
            ),
            hits: Map::new(
                |n: u32| entries.contains_key(n),
                |n: u32| self.hits@[entries[n] as int],
            ),
            warm: ahash_entries(self.warm),
            pinned: self.pinned@,
        }
    }
}

impl FreqCache {
    /// The row indices are those of rows in use, each used once.
    spec fn rows_ok(&self) -> bool {
        let entries = ahash_entries(self.cache);
        let free = self.slab.released();
        &&& self.slab.wf()
        &&& entries.dom().finite()
        &&& entries.len() <= self.capacity <= u32::MAX
        &&& self.hits@.len() == self.slab@.len()
        &&& self.slab@.len() == entries.len() + free.len()
        &&& free.no_duplicates()
        &&& forall|n: u32| #[trigger] entries.contains_key(n) ==> entries[n] < self.slab@.len()
        &&& forall|n: u32, m: u32|
            entries.contains_key(n) && entries.contains_key(m) && n != m ==> entries[n]
                != entries[m]
        &&& forall|n: u32, i: int|
            #![trigger entries.contains_key(n), free[i]]
            entries.contains_key(n) && 0 <= i < free.len() ==> entries[n] != free[i]
        &&& forall|r: int| 0 <= r < self.slab@.len() ==> (#[trigger] self.slab@[r]).len()
            == self.slab.width()
    }

    /// Whatever can be evicted has a heap entry of at most its frequency.
    spec fn heap_ok(&self) -> bool {
        &&& self.heap.wf()
        &&& forall|n: u32| #[trigger]
            self@.evictable(n) ==> has_entry(self.heap@, n, self@.freq(n))
    }

    /// The tier is consistent and within its capacity.
    pub closed spec fn wf(&self) -> bool {
        &&& self.rows_ok()
        &&& self.heap_ok()
    }

    /// A tier of `capacity` rows of `dim` values, with known frequencies.
    pub fn new(capacity: usize, dim: usize, warmup_freq: AHashMap<u32, u32>) -> (c: FreqCache)
        requires
            capacity <= u32::MAX,
            SLAB_BLOCK_ROWS * dim <= usize::MAX,
        ensures
            c.wf(),
            c@ == (FreqView {
                capacity: capacity as nat,
                dim: dim as nat,
                rows: Map::empty(),
                hits: Map::empty(),
                warm: ahash_entries(warmup_freq),
                pinned: Set::empty(),
            }),
    {
        let c = FreqCache {
            capacity,
            cache: ahash_new(),
            hits: Vec::new(),
            slab: RowSlab::new(dim),
            warm: warmup_freq,
            pinned: FxHashSet::default(),
            heap: RankHeap::new(),
        };
        assert(c@.rows =~= Map::empty());
        assert(c@.hits =~= Map::empty());
        c
    }

    /// A consistent tier shows a valid state.
    pub proof fn lemma_valid(&self)
        requires
            self.wf(),
        ensures
            self@.valid(),
    {
        assert(self@.rows.dom() =~= ahash_entries(self.cache).dom());
        assert(self@.hits.dom() =~= ahash_entries(self.cache).dom());
    }

    /// Frequency of the resident node at row `row`.
    fn freq_at(&self, node: u32, row: u32) -> (f: u64)
        requires
            (row as nat) < self.hits@.len(),
        ensures
            f == frequency(ahash_entries(self.warm), self.hits@[row as int], node),
            ({
                let warm = ahash_entries(self.warm);
                let known = if warm.contains_key(node) {
                    warm[node] as int
                } else {
                    0
                };
                let sum = known + self.hits@[row as int];
                if sum <= u64::MAX {
                    f == sum
                } else {
                    f == u64::MAX
                }
            }),
    {
        let warm: u64 = match ahash_get(&self.warm, node) {
            Some(w) => w as u64,
            None => 0,
        };
        warm.saturating_add(self.hits[row as usize])
    }

    /// Reads the row of a node and counts a hit; nothing where it is not
    /// resident.
    pub fn get(&mut self, node: NodeId) -> (row: Option<Vec<u32>>)
        requires
            old(self).wf(),
        ensures
            final(self).wf(),
            match row {
                Some(r) => {
                    &&& old(self)@.rows.contains_key(node)
                    &&& r@ == old(self)@.rows[node]
                    &&& final(self)@ == old(self)@.hit(node)
                    &&& old(self)@.hits[node] < u64::MAX ==> final(self)@.hits[node] == old(
                        self,
                    )@.hits[node] + 1
                    &&& old(self)@.freq(node) < u64::MAX ==> final(self)@.freq(node) == old(
                        self,
                    )@.freq(node) + 1
                },
                None => !old(self)@.rows.contains_key(node) && final(self)@ == old(self)@,
            },
            final(self)@.rows == old(self)@.rows,
    {
        match ahash_get(&self.cache, node) {
            None => None,
            Some(row) => {
                self.count_hit(node, row);
                let features = slice_to_vec(self.slab.row(row));
                Some(features)
            },
        }
    }

    /// Counts a hit on the node at row `row`.
    fn count_hit(&mut self, node: u32, row: u32)
        requires
            old(self).wf(),
            ahash_entries(old(self).cache).contains_key(node),
            ahash_entries(old(self).cache)[node] == row,
        ensures
            final(self).wf(),
            final(self)@ == old(self)@.hit(node),
            final(self).cache == old(self).cache,
            final(self).slab == old(self).slab,
    {
        let ghost old_view = self@;
        let h: u64 = self.hits[row as usize];
        self.hits[row as usize] = h.saturating_add(1);
        proof {
            let entries = ahash_entries(self.cache);
            assert(self@.rows =~= old_view.rows);
            assert(self@.hits =~= old_view.hit(node).hits) by {
                assert forall|n: u32| entries.contains_key(n) implies #[trigger] self@.hits[n]
                    == old_view.hit(node).hits[n] by {
                    if n != node {
                        assert(entries[n] != row);
                    }
                }
            }
            assert(self@ =~= old_view.hit(node));
            assert forall|n: u32| #[trigger] self@.evictable(n) implies has_entry(
                self.heap@,
                n,
                self@.freq(n),
            ) by {
                assert(old_view.evictable(n));
                let f = choose|f: u64| #[trigger]
                    self.heap@.count((f, n)) > 0 && f <= old_view.freq(n);
                assert(self.heap@.count((f, n)) > 0 && f <= self@.freq(n));
            }
        }
    }

    /// Heap entries whose frequency has since risen.
    spec fn stale(&self) -> spec_fn(Ranked) -> bool {
        |e: Ranked| self@.rows.contains_key(e.1) && e.0 < self@.freq(e.1)
    }

    /// Takes out the victim with its row; nothing where nothing can be evicted.
    fn evict(&mut self) -> (victim: Option<(NodeId, Vec<u32>)>)
        requires
            old(self).wf(),
        ensures
            final(self).wf(),
            match victim {
                Some((v, row)) => {
                    &&& old(self)@.is_victim(v)
                    &&& row@ == old(self)@.rows[v]
                    &&& final(self)@ == old(self)@.without(v)
                    &&& final(self).slab.released().len() > 0
                    &&& final(self)@.rows.len() + 1 == old(self)@.rows.len()
                },
                None => {
                    &&& forall|n: u32| !old(self)@.evictable(n)
                    &&& final(self)@ == old(self)@
                },
            },
    {
        loop
            invariant
                self.wf(),
                self@ == old(self)@,
            decreases self.heap@.len() + self.heap@.filter(self.stale()).len(),
        {
            let ghost view = self@;
            let ghost heap = self.heap@;
            let ghost stale = self.stale();
            let ghost this = *self;
            let popped = self.heap.pop();
            proof {
                assert(self@ == view);
                assert(self.stale() == stale);
            }
            match popped {
                None => {
                    assert forall|n: u32| !view.evictable(n) by {
                        if view.evictable(n) {
                            let f = choose|f: u64| #[trigger]
                                heap.count((f, n)) > 0 && f <= view.freq(n);
                            vstd::multiset::lemma_multiset_empty_len(heap);
                            assert(heap.count((f, n)) == 0);
                        }
                    }
                    return None;
                },
                Some(e) => {
                    let (heap_freq, node) = e;
                    proof {
                        lemma_popped(heap, stale, e);
                        assert forall|n: u32|
                            #[trigger] view.evictable(n) && n != node implies has_entry(
                            self.heap@,
                            n,
                            view.freq(n),
                        ) by {
                            let f = choose|f: u64| #[trigger]
                                heap.count((f, n)) > 0 && f <= view.freq(n);
                            assert(self.heap@.count((f, n)) > 0);
                        }
                    }
                    match ahash_get(&self.cache, node) {
                        None => {
                            assert(!view.evictable(node));
                        },
                        Some(row) => {
                            if fx_set_contains(&self.pinned, node) {
                                assert(!view.evictable(node));
                            } else {
                                let current = self.freq_at(node, row);
                                assert(current == view.freq(node));
                                if heap_freq < current {
                                    let ghost rest = self.heap@;
                                    self.heap.push((current, node));
                                    proof {
                                        lemma_pushed_fresh(rest, stale, (current, node));
                                        assert(self@ == view);
                                        assert(self.stale() == stale);
                                        assert forall|n: u32| #[trigger]
                                            self@.evictable(n) implies has_entry(
                                            self.heap@,
                                            n,
                                            self@.freq(n),
                                        ) by {
                                            if n == node {
                                                assert(self.heap@.count((current, node)) > 0);
                                            } else {
                                                let f = choose|f: u64| #[trigger]
                                                    rest.count((f, n)) > 0 && f <= view.freq(n);
                                                assert(self.heap@.count((f, n)) > 0);
                                            }
                                        }
                                    }
                                } else {
                                    proof {
                                        assert(view.evictable(node));
                                        assert forall|m: u32| #[trigger]
                                            view.evictable(m) implies before(
                                            (view.freq(node), node),
                                            (view.freq(m), m),
                                        ) by {
                                            let f = choose|f: u64| #[trigger]
                                                heap.count((f, m)) > 0 && f <= view.freq(m);
                                            assert(before(e, (f, m)));
                                        }
                                        assert(view.is_victim(node));
                                    }
                                    let features = slice_to_vec(self.slab.row(row));
                                    self.drop_node(node, row);
                                    return Some((node, features));
                                }
                            }
                        },
                    }
                },
            }
        }
    }

    /// Frees the row of a resident node.
    fn drop_node(&mut self, node: u32, row: u32)
        requires
            old(self).rows_ok(),
            old(self).heap.wf(),
            old(self)@.rows.contains_key(node),
            ahash_entries(old(self).cache)[node] == row,
            forall|n: u32|
                #[trigger] old(self)@.evictable(n) && n != node ==> has_entry(
                    old(self).heap@,
                    n,
                    old(self)@.freq(n),
                ),
        ensures
            final(self).wf(),
            final(self)@ == old(self)@.without(node),
            final(self).slab.released().len() > 0,
            final(self)@.rows.len() + 1 == old(self)@.rows.len(),
    {
        let ghost view = self@;
        let ghost entries = ahash_entries(self.cache);
        let ghost free = self.slab.released();
        ahash_remove(&mut self.cache, node);
        self.slab.release(row);
        proof {
            let after = ahash_entries(self.cache);
            assert(self@.rows =~= view.without(node).rows);
            assert(self@.hits =~= view.without(node).hits);
            assert(self@ =~= view.without(node));
            assert(self@.rows.dom() =~= after.dom());
            assert(view.rows.dom() =~= entries.dom());
            assert(self.slab.released() == free.push(row));
            assert forall|i: int, j: int|
                0 <= i < free.len() + 1 && 0 <= j < free.len() + 1 && i != j implies free.push(
                row,
            )[i] != free.push(row)[j] by {
                assert(entries.contains_key(node));
            }
            assert(self.rows_ok());
            assert forall|n: u32| #[trigger] self@.evictable(n) implies has_entry(
                self.heap@,
                n,
                self@.freq(n),
            ) by {
                assert(view.evictable(n));
            }
        }
    }

    /// Inserts or overwrites the row of a node, making room if need be.
    pub fn insert(&mut self, node: NodeId, features: &[u32]) -> (outcome: InsertOutcome)
        requires
            old(self).wf(),
            features@.len() == old(self)@.dim,
        ensures
            final(self).wf(),
            old(self)@.insert_does(node, features@, outcome, final(self)@),
    {
        if let Some(row) = ahash_get(&self.cache, node) {
            let ghost view = self@;
            self.count_hit(node, row);
            let ghost counted = self@;
            self.slab.write_row(row, features);
            proof {
                let entries = ahash_entries(self.cache);
                assert(self@.rows =~= view.rows.insert(node, features@)) by {
                    assert forall|n: u32| entries.contains_key(n) implies #[trigger] self@.rows[n]
                        == view.rows.insert(node, features@)[n] by {
                        if n != node {
                            assert(entries[n] != row);
                        }
                    }
                }
                assert(self@ =~= FreqView { rows: view.rows.insert(node, features@), ..counted });
                assert forall|n: u32| #[trigger] self@.evictable(n) implies has_entry(
                    self.heap@,
                    n,
                    self@.freq(n),
                ) by {
                    assert(counted.evictable(n));
                }
            }
            return InsertOutcome::Stored;
        }
        proof {
            self.lemma_valid();
        }
        let ghost start = self@;
        assert(!start.rows.contains_key(node));
        assert(start.rows.dom() =~= ahash_entries(self.cache).dom());
        if ahash_len(&self.cache) >= self.capacity {
            match self.evict() {
                None => {
                    return InsertOutcome::Refused;
                },
                Some((victim, evicted)) => {
                    proof {
                        self.lemma_valid();
                        assert(self@.rows.dom() =~= ahash_entries(self.cache).dom());
                    }
                    self.place(node, features);
                    return InsertOutcome::StoredEvicting(victim, evicted);
                },
            }
        }
        self.place(node, features);
        InsertOutcome::Stored
    }

    /// Stores the row of a node that is not resident.
    fn place(&mut self, node: u32, features: &[u32])
        requires
            old(self).wf(),
            features@.len() == old(self)@.dim,
            !old(self)@.rows.contains_key(node),
            ahash_entries(old(self).cache).len() < old(self).capacity,
        ensures
            final(self).wf(),
            final(self)@ == old(self)@.with_row(node, features@),
    {
        let ghost view = self@;
        let ghost entries = ahash_entries(self.cache);
        let ghost free = self.slab.released();
        let ghost before_rows = self.slab@;
        let row = self.slab.allocate();
        let ghost allocated = self.slab@;
        self.slab.write_row(row, features);
        if row as usize >= self.hits.len() {
            self.hits.push(0);
        } else {
            self.hits[row as usize] = 0;
        }
        ahash_insert(&mut self.cache, node, row);
        let freq = self.freq_at(node, row);
        let ghost heap = self.heap@;
        self.heap.push((freq, node));
        proof {
            let after = ahash_entries(self.cache);
            assert(!entries.contains_key(node));
            assert forall|n: u32| entries.contains_key(n) implies #[trigger] entries[n] != row by {
                if free.len() > 0 {
                    assert(free[free.len() - 1] == row);
                }
            }
            assert forall|n: u32| entries.contains_key(n) implies #[trigger] self.slab@[entries[n] as int]
                == before_rows[entries[n] as int] by {
                assert(entries[n] != row);
                if free.len() == 0 {
                    assert(allocated.drop_last()[entries[n] as int]
                        == before_rows[entries[n] as int]);
                }
            }
            assert(self@.rows =~= view.with_row(node, features@).rows);
            assert(self@.hits =~= view.with_row(node, features@).hits);
            assert(self@ =~= view.with_row(node, features@));
            assert(self.rows_ok()) by {
                assert forall|n: u32, m: u32|
                    after.contains_key(n) && after.contains_key(m) && n != m implies after[n]
                    != after[m] by {
                    if n != node {
                        assert(entries[n] != row);
                    }
                    if m != node {
                        assert(entries[m] != row);
                    }
                }
                if free.len() > 0 {
                    assert(forall|i: int|
                        0 <= i < free.len() - 1 ==> #[trigger] free.drop_last()[i] == free[i]);
                    assert(free[free.len() - 1] == row);
                }
                assert forall|r: int| 0 <= r < self.slab@.len() implies (
                #[trigger] self.slab@[r]).len() == self.slab.width() by {
                    if r != row {
                        if free.len() == 0 {
                            assert(allocated.drop_last()[r] == before_rows[r]);
                        }
                        assert(before_rows[r].len() == self.slab.width());
                    }
                }
            }
            assert forall|n: u32| #[trigger] self@.evictable(n) implies has_entry(
                self.heap@,
                n,
                self@.freq(n),
            ) by {
                if n == node {
                    assert(self.heap@.count((freq, node)) > 0);
                } else {
                    assert(view.evictable(n));
                    let f = choose|f: u64| #[trigger] heap.count((f, n)) > 0 && f <= view.freq(n);
                    assert(self.heap@.count((f, n)) > 0);
                }
            }
        }
    }

    /// Keeps a node from being evicted.
    pub fn pin(&mut self, node: NodeId)
        requires
            old(self).wf(),
        ensures
            final(self).wf(),
            final(self)@ == (FreqView { pinned: old(self)@.pinned.insert(node), ..old(self)@ }),
    {
        let ghost view = self@;
        let _ = fx_set_insert(&mut self.pinned, node);
        proof {
            assert(self@.rows =~= view.rows);
            assert(self@.hits =~= view.hits);
            assert(self@ =~= FreqView { pinned: view.pinned.insert(node), ..view });
            assert forall|n: u32| #[trigger] self@.evictable(n) implies has_entry(
                self.heap@,
                n,
                self@.freq(n),
            ) by {
                assert(view.evictable(n));
            }
        }
    }

    /// Lets a node be evicted again.
    pub fn unpin(&mut self, node: NodeId)
        requires
            old(self).wf(),
        ensures
            final(self).wf(),
            final(self)@ == (FreqView { pinned: old(self)@.pinned.remove(node), ..old(self)@ }),
    {
        let ghost view = self@;
        let ghost heap = self.heap@;
        if fx_set_remove(&mut self.pinned, node) {
            if let Some(row) = ahash_get(&self.cache, node) {
                let freq = self.freq_at(node, row);
                self.heap.push((freq, node));
            }
        }
        proof {
            assert(self@.rows =~= view.rows);
            assert(self@.hits =~= view.hits);
            assert(self@.pinned =~= view.pinned.remove(node));
            assert(self@ =~= FreqView { pinned: view.pinned.remove(node), ..view });
            assert forall|n: u32| #[trigger] self@.evictable(n) implies has_entry(
                self.heap@,
                n,
                self@.freq(n),
            ) by {
                if n == node && view.pinned.contains(node) {
                    assert(self.heap@.count((view.freq(node), node)) > 0);
                } else {
                    assert(view.evictable(n));
                    let f = choose|f: u64| #[trigger] heap.count((f, n)) > 0 && f <= view.freq(n);
                    assert(self.heap@.count((f, n)) > 0);
                }
            }
        }
    }

    /// Whether a node is kept from being evicted.
    pub fn is_pinned(&self, node: NodeId) -> (b: bool)
        ensures
            b == self@.pinned.contains(node),
    {
        fx_set_contains(&self.pinned, node)
    }

    /// Number of resident nodes.
    pub fn len(&self) -> (n: usize)
        requires
            self.wf(),
        ensures
            n == self@.rows.len(),
            n <= self@.capacity,
    {
        assert(self@.rows.dom() =~= ahash_entries(self.cache).dom());
        ahash_len(&self.cache)
    }

    /// Whether a node is resident.
    pub fn contains(&self, node: NodeId) -> (b: bool)
        ensures
            b == self@.rows.contains_key(node),
    {
        ahash_get(&self.cache, node).is_some()
    }
}

/// Taking an entry out of the heap takes it out of the stale ones.
proof fn lemma_popped(heap: Multiset<Ranked>, stale: spec_fn(Ranked) -> bool, e: Ranked)
    requires
        heap.count(e) > 0,
    ensures
        heap.remove(e).len() + 1 == heap.len(),
        heap.remove(e).filter(stale).len() == heap.filter(stale).len() - (if stale(e) {
            1int
        } else {
            0
        }),
{
    let rest = heap.remove(e);
    assert(heap =~= rest.insert(e));
    lemma_filter_insert(rest, stale, e);
}

/// An entry that is up to date adds nothing to the stale ones.
proof fn lemma_pushed_fresh(heap: Multiset<Ranked>, stale: spec_fn(Ranked) -> bool, e: Ranked)
    requires
        !stale(e),
    ensures
        heap.insert(e).len() == heap.len() + 1,
        heap.insert(e).filter(stale).len() == heap.filter(stale).len(),
{
    lemma_filter_insert(heap, stale, e);
}

proof fn lemma_filter_insert(m: Multiset<Ranked>, p: spec_fn(Ranked) -> bool, e: Ranked)
    ensures
        m.insert(e).len() == m.len() + 1,
        m.insert(e).filter(p).len() == m.filter(p).len() + (if p(e) {
            1int
        } else {
            0
        }),
{
    if p(e) {
        assert(m.insert(e).filter(p) =~= m.filter(p).insert(e));
    } else {
        assert(m.insert(e).filter(p) =~= m.filter(p));
    }
}

/// A tier never holds more rows than its capacity, and the rows that it holds
/// are the last that were inserted for their nodes and not evicted since: after
/// an insert that was not refused the node has the inserted row, and every other
/// resident node has the row that it had.
pub proof fn law_insert_keeps_rows(
    before: FreqView,
    node: u32,
    row: Seq<u32>,
    outcome: InsertOutcome,
    after: FreqView,
)
    requires
        before.insert_does(node, row, outcome, after),
    ensures
        !(outcome is Refused) ==> after.rows.contains_key(node) && after.rows[node] == row,
        outcome is Refused ==> !after.rows.contains_key(node),
        forall|n: u32|
            n != node && #[trigger] after.rows.contains_key(n) ==> before.rows.contains_key(n)
                && after.rows[n] == before.rows[n],
{
}

/// A node's frequency is the sum of what was known of it beforehand (nothing
/// where nothing was) and its hits, cut off at the largest `u64`.
pub proof fn law_frequency_is_the_sum(v: FreqView, node: u32)
    ensures
        v.hits[node] == 0 && !v.warm.contains_key(node) ==> v.freq(node) == 0,
        v.hits[node] == 0 && v.warm.contains_key(node) ==> v.freq(node) == v.warm[node],
        !v.warm.contains_key(node) ==> v.freq(node) == v.hits[node],
        v.warm.contains_key(node) && v.warm[node] + v.hits[node] <= u64::MAX ==> v.freq(node)
            == v.warm[node] + v.hits[node],
        v.warm.contains_key(node) && v.warm[node] + v.hits[node] > u64::MAX ==> v.freq(node)
            == u64::MAX,
{
}

/// Every hit counts: below the largest `u64` one more hit on a node raises its
/// frequency by exactly one, whatever was known of it beforehand, and leaves the
/// frequency of every other node and the rows as they are.
pub proof fn law_every_hit_counts(v: FreqView, node: u32)
    ensures
        v.freq(node) < u64::MAX ==> v.hit(node).freq(node) == v.freq(node) + 1,
        v.freq(node) == u64::MAX ==> v.hit(node).freq(node) == u64::MAX,
        forall|m: u32| m != node ==> v.hit(node).freq(m) == #[trigger] v.freq(m),
        v.hit(node).rows == v.rows,
        v.hit(node).warm == v.warm,
        v.hit(node).pinned == v.pinned,
        v.hit(node).capacity == v.capacity,
{
}

/// The node that an insert evicts has the least sum of what was known beforehand
/// and hits (cut off at the largest `u64`) among the resident nodes that are not
/// pinned, and the least id among those of equal sum.
pub proof fn law_victim_has_the_least_sum(
    before: FreqView,
    node: u32,
    row: Seq<u32>,
    outcome: InsertOutcome,
    after: FreqView,
)
    requires
        before.insert_does(node, row, outcome, after),
    ensures
        outcome matches InsertOutcome::StoredEvicting(victim, evicted) ==> {
            let sum = |n: u32|
                (if before.warm.contains_key(n) {
                    before.warm[n] as int
                } else {
                    0int
                }) + before.hits[n];
            &&& before.rows.contains_key(victim)
            &&& !before.pinned.contains(victim)
            &&& evicted@ == before.rows[victim]
            &&& forall|m: u32|
                m != victim && #[trigger] before.rows.contains_key(m) && !before.pinned.contains(m)
                    ==> {
                    ||| sum(victim) < sum(m) && sum(victim) < u64::MAX
                    ||| sum(victim) == sum(m) && victim < m
                    ||| sum(victim) >= u64::MAX && sum(m) >= u64::MAX && victim < m
                }
        },
{
    if let InsertOutcome::StoredEvicting(victim, evicted) = outcome {
        assert(before.is_victim(victim));
        assert(before.evictable(victim));
        assert forall|m: u32|
            m != victim && #[trigger] before.rows.contains_key(m) && !before.pinned.contains(
                m,
            ) implies before.freq(victim) < before.freq(m) || (before.freq(victim) == before.freq(m)
            && victim < m) by {
            assert(before.evictable(m));
        }
    }
}

/// After an insert the node's hits start at none where it was not resident, and
/// are one more (up to the largest `u64`) where it was. Every other node that
/// stays keeps its row and its hits. At most one node leaves, and only where the
/// node was not resident and the tier was full.
pub proof fn law_insert_counts_hits(
    before: FreqView,
    node: u32,
    row: Seq<u32>,
    outcome: InsertOutcome,
    after: FreqView,
)
    requires
        before.insert_does(node, row, outcome, after),
    ensures
        after.capacity == before.capacity,
        after.dim == before.dim,
        after.warm == before.warm,
        after.pinned == before.pinned,
        before.rows.contains_key(node) && before.hits[node] < u64::MAX ==> after.hits[node]
            == before.hits[node] + 1,
        !before.rows.contains_key(node) && !(outcome is Refused) ==> after.hits[node] == 0,
        forall|n: u32|
            n != node && #[trigger] after.rows.contains_key(n) ==> after.hits[n] == before.hits[n],
        forall|n: u32| #[trigger]
            before.rows.contains_key(n) && !after.rows.contains_key(n) ==> (outcome matches
                InsertOutcome::StoredEvicting(victim, _) && n == victim),
        outcome is StoredEvicting ==> !before.rows.contains_key(node) && before.rows.len()
            >= before.capacity,
        outcome is Refused ==> after.rows == before.rows,
{
}

/// A pinned resident node survives every insert.
pub proof fn law_pinned_stay(
    before: FreqView,
    node: u32,
    row: Seq<u32>,
    outcome: InsertOutcome,
    after: FreqView,
    pinned: u32,
)
    requires
        before.insert_does(node, row, outcome, after),
        before.pinned.contains(pinned),
        before.rows.contains_key(pinned),
    ensures
        after.rows.contains_key(pinned),
        after.pinned.contains(pinned),
{
}

/// An insert is refused exactly where the node is not resident, the tier is
/// full, and all that it holds is pinned.
pub proof fn law_refused_when_all_pinned(
    before: FreqView,
    node: u32,
    row: Seq<u32>,
    outcome: InsertOutcome,
    after: FreqView,
)
    requires
        before.insert_does(node, row, outcome, after),
    ensures
        outcome is Refused <==> !before.rows.contains_key(node) && before.rows.len()
            >= before.capacity && forall|n: u32|
            #[trigger] before.rows.contains_key(n) ==> before.pinned.contains(n),
{
    if forall|n: u32| #[trigger] before.rows.contains_key(n) ==> before.pinned.contains(n) {
        assert forall|n: u32| !before.evictable(n) by {}
    }
    if outcome is Refused {
        assert forall|n: u32| #[trigger] before.rows.contains_key(n) implies before.pinned.contains(
            n,
        ) by {
            assert(!before.evictable(n));
        }
    }
}

/// An insert keeps the tier valid. Only the inserted node can come in, and what is
/// pushed out was resident or is the inserted row.
pub proof fn law_insert_keeps_valid(v: FreqView, node: u32, row: Seq<u32>)
    requires
        v.valid(),
        row.len() == v.dim,
    ensures
        v.inserted(node, row).valid(),
        v.inserted(node, row).dim == v.dim,
        forall|n: u32| #[trigger]
            v.inserted(node, row).rows.contains_key(n) ==> n == node || v.rows.contains_key(n),
        v.displaced(node, row) matches Some((n, r)) ==> r.len() == v.dim && (v.rows.contains_key(n)
            || n == node),
{
    let after = v.inserted(node, row);
    if v.rows.contains_key(node) {
        assert(after.rows.dom() =~= v.rows.dom());
        assert(after.hits.dom() =~= v.rows.dom());
    } else if v.rows.len() < v.capacity {
        assert(after.rows.dom() =~= v.rows.dom().insert(node));
        assert(after.hits.dom() =~= v.rows.dom().insert(node));
    } else if !v.refuses(node) {
        v.lemma_victim();
        let victim = v.victim();
        assert(v.evictable(victim));
        assert(after.rows.dom() =~= v.rows.dom().remove(victim).insert(node));
        assert(after.hits.dom() =~= v.rows.dom().remove(victim).insert(node));
    }
}

} // verus!
