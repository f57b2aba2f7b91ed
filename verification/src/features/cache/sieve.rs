//! SIEVE eviction for one cache tier.
//!
//! Entries stand in one queue, oldest first, and each has a mark that a hit sets.
//! To make room a hand walks from older to newer entries. A pinned entry is
//! stepped over, a marked one loses its mark and is stepped over, and the first
//! entry that is neither leaves. Behind the newest entry the hand goes on at the
//! oldest. It keeps its place between evictions, and entries that stay do not move.
use vstd::prelude::*;
use vstd::slice::slice_to_vec;
use ahash::AHashMap;
use rustc_hash::FxHashSet;
use crate::collections::{
    ahash_entries, ahash_get, ahash_insert, ahash_len, ahash_new, ahash_remove, fx_set_contains,
    fx_set_insert, fx_set_remove,
};
use crate::graph::csr::NodeId;
use super::freq::InsertOutcome;
use super::slab::{RowSlab, SLAB_BLOCK_ROWS};

verus! {

/// No entry.
const NIL: u32 = u32::MAX;

/// One entry of the queue.
#[verifier::ext_equal]
pub struct SieveEntry {
    pub node: u32,
    /// Hit since the hand last passed.
    pub visited: bool,
    pub row: Seq<u32>,
}

/// What a SIEVE tier holds.
#[verifier::ext_equal]
pub struct SieveView {
    pub capacity: nat,
    pub dim: nat,
    /// The entries, oldest first.
    pub queue: Seq<SieveEntry>,
    /// Place of the next candidate; without one the hand starts at the oldest.
    pub hand: Option<int>,
    /// Frequencies known beforehand.
    pub warm: Map<u32, u32>,
    /// Nodes that are never evicted.
    pub pinned: Set<u32>,
}

/// Where the hand stops.
#[verifier::ext_equal]
pub struct SweepEnd {
    /// Place of the entry that leaves, if one does.
    pub victim: Option<int>,
    /// The entries with the marks that are left.
    pub queue: Seq<SieveEntry>,
    /// The hand's next place.
    pub hand: Option<int>,
}

/// Some entry of the queue is this node's.
pub open spec fn in_queue(queue: Seq<SieveEntry>, node: u32) -> bool {
    exists|i: int| 0 <= i < queue.len() && (#[trigger] queue[i]).node == node
}

/// Place of a node's entry.
pub open spec fn place_of(queue: Seq<SieveEntry>, node: u32) -> int {
    choose|i: int| 0 <= i < queue.len() && (#[trigger] queue[i]).node == node
}

/// No node has two entries.
pub open spec fn distinct_nodes(queue: Seq<SieveEntry>) -> bool {
    forall|i: int, j: int|
        0 <= i < queue.len() && 0 <= j < queue.len() && i != j ==> (#[trigger] queue[i]).node != (
        #[trigger] queue[j]).node
}

/// The place behind `i`, or none behind the newest.
pub open spec fn step(len: nat, i: int) -> Option<int> {
    if i + 1 < len {
        Some(i + 1)
    } else {
        None
    }
}

/// The place that the hand looks at next.
pub open spec fn hand_at(hand: Option<int>) -> int {
    match hand {
        Some(h) => h,
        None => 0,
    }
}

/// The entry with its mark set to `visited`.
pub open spec fn marked(queue: Seq<SieveEntry>, i: int, visited: bool) -> Seq<SieveEntry> {
    queue.update(i, SieveEntry { visited, ..queue[i] })
}

/// The walk of the hand, at most `steps` entries long.
pub open spec fn sweep(
    queue: Seq<SieveEntry>,
    pinned: Set<u32>,
    hand: Option<int>,
    steps: nat,
) -> SweepEnd
    decreases steps,
{
    let i = hand_at(hand);
    if steps == 0 || queue.len() == 0 {
        SweepEnd { victim: None, queue, hand }
    } else if pinned.contains(queue[i].node) {
        sweep(queue, pinned, step(queue.len(), i), (steps - 1) as nat)
    } else if queue[i].visited {
        sweep(marked(queue, i, false), pinned, step(queue.len(), i), (steps - 1) as nat)
    } else {
        SweepEnd { victim: Some(i), queue, hand: step(queue.len(), i) }
    }
}

impl SieveView {
    /// The tier holds a row of the node.
    pub open spec fn holds(self, node: u32) -> bool {
        in_queue(self.queue, node)
    }

    /// The row of a resident node.
    pub open spec fn row(self, node: u32) -> Seq<u32> {
        self.queue[place_of(self.queue, node)].row
    }

    /// Consistent, and within its capacity.
    pub open spec fn valid(self) -> bool {
        &&& distinct_nodes(self.queue)
        &&& self.queue.len() <= self.capacity
        &&& self.hand matches Some(h) ==> 0 <= h < self.queue.len()
        &&& forall|i: int| 0 <= i < self.queue.len() ==> (#[trigger] self.queue[i]).row.len()
            == self.dim
    }

    /// The tier after a hit on a node.
    pub open spec fn hit(self, node: u32) -> SieveView {
        SieveView { queue: marked(self.queue, place_of(self.queue, node), true), ..self }
    }

    /// The tier after a hit on a node with a new row.
    pub open spec fn rewritten(self, node: u32, row: Seq<u32>) -> SieveView {
        SieveView {
            queue: self.queue.update(
                place_of(self.queue, node),
                SieveEntry { node, visited: true, row },
            ),
            ..self
        }
    }

    /// The tier with a new newest entry. A node that was seen beforehand starts
    /// with its mark set.
    pub open spec fn with_row(self, node: u32, row: Seq<u32>) -> SieveView {
        let visited = self.warm.contains_key(node) && self.warm[node] > 0;
        SieveView { queue: self.queue.push(SieveEntry { node, visited, row }), ..self }
    }

    /// Where the hand stops when room is needed. Two rounds are enough.
    pub open spec fn swept(self) -> SweepEnd {
        sweep(self.queue, self.pinned, self.hand, 2 * self.queue.len() + 2)
    }

    /// The tier after the hand has moved and what it found has left.
    pub open spec fn evicted(self) -> SieveView {
        let end = self.swept();
        match end.victim {
            Some(i) => SieveView {
                queue: end.queue.remove(i),
                hand: if end.hand is Some {
                    Some(i)
                } else {
                    None
                },
                ..self
            },
            None => SieveView { queue: end.queue, hand: end.hand, ..self },
        }
    }

    /// What inserting a row does to the tier, and what it says.
    pub open spec fn insert_does(
        self,
        node: u32,
        row: Seq<u32>,
        outcome: InsertOutcome,
        after: SieveView,
    ) -> bool {
        if self.holds(node) {
            outcome is Stored && after == self.rewritten(node, row)
        } else if self.queue.len() < self.capacity {
            outcome is Stored && after == self.with_row(node, row)
        } else {
            match self.swept().victim {
                Some(i) => {
                    &&& outcome matches InsertOutcome::StoredEvicting(victim, evicted)
                    &&& victim == self.queue[i].node
                    &&& evicted@ == self.queue[i].row
                    &&& after == self.evicted().with_row(node, row)
                },
                None => outcome is Refused && after == self.evicted(),
            }
        }
    }
}

/// One row's place in the queue, by row index.
struct Link {
    node: u32,
    visited: bool,
    /// Toward the oldest.
    prev: u32,
    /// Toward the newest.
    next: u32,
}

/// The row at place `i`, if there is one.
spec fn row_or_nil(order: Seq<u32>, i: int) -> u32 {
    if 0 <= i < order.len() {
        order[i]
    } else {
        NIL
    }
}

/// The links give the rows in this order.
spec fn linked(links: Seq<Link>, order: Seq<u32>, head: u32, tail: u32) -> bool {
    &&& order.no_duplicates()
    &&& forall|i: int| 0 <= i < order.len() ==> (#[trigger] order[i]) < links.len() && order[i] < NIL
    &&& forall|i: int|
        0 <= i < order.len() ==> (#[trigger] links[order[i] as int]).prev == row_or_nil(
            order,
            i - 1,
        ) && links[order[i] as int].next == row_or_nil(order, i + 1)
    &&& head == row_or_nil(order, order.len() - 1)
    &&& tail == row_or_nil(order, 0)
}

/// SIEVE-evicted cache for a single tier.
pub struct SieveCache {
    capacity: usize,
    /// Row index of every resident node.
    cache: AHashMap<u32, u32>,
    slab: RowSlab,
    /// Links by row index.
    links: Vec<Link>,
    /// Newest entry.
    head: u32,
    /// Oldest entry.
    tail: u32,
    /// Next candidate.
    hand: u32,
    warm: AHashMap<u32, u32>,
    pinned: FxHashSet<u32>,
    /// The rows in queue order.
    order: Ghost<Seq<u32>>,
}

/// The entries that links and rows make up, in the given order.
spec fn entries_of(links: Seq<Link>, rows: Seq<Seq<u32>>, order: Seq<u32>) -> Seq<SieveEntry> {
    Seq::new(
        order.len(),
        |i: int|
            SieveEntry {
                node: links[order[i] as int].node,
                visited: links[order[i] as int].visited,
                row: rows[order[i] as int],
            },
    )
}

/// Place of the hand in the order.
spec fn hand_place(order: Seq<u32>, hand: u32) -> Option<int> {
    if hand == NIL {
        None
    } else {
        Some(order.index_of(hand))
    }
}

impl View for SieveCache {
    type V = SieveView;

    closed spec fn view(&self) -> SieveView {
        SieveView {
            capacity: self.capacity as nat,
            dim: self.slab.width(),
            queue: entries_of(self.links@, self.slab@, self.order@),
            hand: hand_place(self.order@, self.hand),
            warm: ahash_entries(self.warm),
            pinned: self.pinned@,
        }
    }
}

/// In a sequence without duplicates a value has one place.
proof fn lemma_index_of(order: Seq<u32>, i: int)
    requires
        order.no_duplicates(),
        0 <= i < order.len(),
    ensures
        order.index_of(order[i]) == i,
{
    assert(order.contains(order[i]));
    let j = order.index_of(order[i]);
    assert(0 <= j < order.len() && order[j] == order[i]);
}

/// Where nodes are distinct, a node's place is the one at hand.
proof fn lemma_place_of(queue: Seq<SieveEntry>, i: int)
    requires
        distinct_nodes(queue),
        0 <= i < queue.len(),
    ensures
        in_queue(queue, queue[i].node),
        place_of(queue, queue[i].node) == i,
{
    let j = place_of(queue, queue[i].node);
    assert(0 <= j < queue.len() && queue[j].node == queue[i].node);
}

impl SieveCache {
    /// The map and the queue agree on what is resident.
    spec fn map_ok(&self) -> bool {
        let entries = ahash_entries(self.cache);
        let order = self.order@;
        &&& entries.dom().finite()
        &&& entries.len() == order.len()
        &&& forall|i: int|
            0 <= i < order.len() ==> entries.contains_key(
                (#[trigger] self.links@[order[i] as int]).node,
            ) && entries[self.links@[order[i] as int].node] == order[i]
        &&& forall|n: u32| #[trigger]
            entries.contains_key(n) ==> order.contains(entries[n])
                && self.links@[entries[n] as int].node == n
    }

    /// The rows of the queue are rows in use, and the rest are free.
    spec fn rows_ok(&self) -> bool {
        let free = self.slab.released();
        let order = self.order@;
        &&& self.slab.wf()
        &&& self.capacity <= u32::MAX
        &&& self.slab@.len() <= self.capacity
        &&& self.links@.len() == self.slab@.len()
        &&& self.slab@.len() == order.len() + free.len()
        &&& free.no_duplicates()
        &&& forall|i: int, j: int|
            0 <= i < order.len() && 0 <= j < free.len() ==> (#[trigger] order[i]) != (
            #[trigger] free[j])
        &&& forall|r: int| 0 <= r < self.slab@.len() ==> (#[trigger] self.slab@[r]).len()
            == self.slab.width()
    }

    /// The tier is consistent and within its capacity.
    pub closed spec fn wf(&self) -> bool {
        &&& linked(self.links@, self.order@, self.head, self.tail)
        &&& self.map_ok()
        &&& self.rows_ok()
        &&& self.hand == NIL || self.order@.contains(self.hand)
    }

    /// A consistent tier shows a valid queue.
    pub proof fn lemma_valid(&self)
        requires
            self.wf(),
        ensures
            self@.valid(),
    {
        let order = self.order@;
        assert forall|i: int, j: int|
            0 <= i < self@.queue.len() && 0 <= j < self@.queue.len() && i != j implies (
        #[trigger] self@.queue[i]).node != (#[trigger] self@.queue[j]).node by {
            assert(self.links@[order[i] as int].node == self@.queue[i].node);
            assert(self.links@[order[j] as int].node == self@.queue[j].node);
        }
    }

    /// The map finds the node's entry.
    proof fn lemma_found(&self, node: u32)
        requires
            self.wf(),
        ensures
            self@.holds(node) <==> ahash_entries(self.cache).contains_key(node),
            self@.holds(node) ==> ({
                let row = ahash_entries(self.cache)[node];
                let i = place_of(self@.queue, node);
                &&& 0 <= i < self.order@.len()
                &&& self.order@[i] == row
                &&& self.order@.index_of(row) == i
                &&& row < self.links@.len()
            }),
    {
        self.lemma_valid();
        let order = self.order@;
        let entries = ahash_entries(self.cache);
        if entries.contains_key(node) {
            let i = order.index_of(entries[node]);
            assert(0 <= i < order.len() && order[i] == entries[node]);
            assert(self@.queue[i].node == node);
            lemma_place_of(self@.queue, i);
        }
        if self@.holds(node) {
            let i = place_of(self@.queue, node);
            assert(self@.queue[i].node == node);
            assert(entries.contains_key(self.links@[order[i] as int].node));
            lemma_index_of(order, i);
        }
    }

    /// A tier of `capacity` rows of `dim` values, with known frequencies.
    pub fn new(capacity: usize, dim: usize, warmup_freq: AHashMap<u32, u32>) -> (c: SieveCache)
        requires
            capacity <= u32::MAX,
            SLAB_BLOCK_ROWS * dim <= usize::MAX,
        ensures
            c.wf(),
            c@ == (SieveView {
                capacity: capacity as nat,
                dim: dim as nat,
                queue: Seq::empty(),
                hand: None,
                warm: ahash_entries(warmup_freq),
                pinned: Set::empty(),
            }),
    {
        let c = SieveCache {
            capacity,
            cache: ahash_new(),
            slab: RowSlab::new(dim),
            links: Vec::new(),
            head: NIL,
            tail: NIL,
            hand: NIL,
            warm: warmup_freq,
            pinned: FxHashSet::default(),
            order: Ghost(Seq::empty()),
        };
        assert(c@.queue =~= Seq::empty());
        c
    }

    /// Sets the mark of a row to `visited`.
    fn set_mark(&mut self, row: u32, visited: bool)
        requires
            old(self).wf(),
            old(self).order@.contains(row),
        ensures
            final(self).wf(),
            final(self)@ == (SieveView {
                queue: marked(old(self)@.queue, old(self).order@.index_of(row), visited),
                ..old(self)@
            }),
            final(self).cache == old(self).cache,
            final(self).slab == old(self).slab,
            final(self).order == old(self).order,
            final(self).hand == old(self).hand,
            final(self).tail == old(self).tail,
            final(self).links@.len() == old(self).links@.len(),
            forall|r: int|
                0 <= r < final(self).links@.len() ==> (#[trigger] final(self).links@[r]).node
                    == old(self).links@[r].node && final(self).links@[r].next
                    == old(self).links@[r].next,
    {
        let ghost order = self.order@;
        let ghost i = order.index_of(row);
        assert(0 <= i < order.len() && order[i] == row);
        let link = Link {
            node: self.links[row as usize].node,
            visited,
            prev: self.links[row as usize].prev,
            next: self.links[row as usize].next,
        };
        self.links[row as usize] = link;
        proof {
            assert forall|j: int| 0 <= j < order.len() implies #[trigger] self@.queue[j] == marked(
                old(self)@.queue,
                i,
                visited,
            )[j] by {
                if j != i {
                    assert(order[j] != row);
                }
            }
            assert(self@.queue =~= marked(old(self)@.queue, i, visited));
        }
    }

    /// Reads the row of a node and marks it; nothing where it is not resident.
    pub fn get(&mut self, node: NodeId) -> (row: Option<Vec<u32>>)
        requires
            old(self).wf(),
        ensures
            final(self).wf(),
            match row {
                Some(r) => {
                    &&& old(self)@.holds(node)
                    &&& r@ == old(self)@.row(node)
                    &&& final(self)@ == old(self)@.hit(node)
                },
                None => !old(self)@.holds(node) && final(self)@ == old(self)@,
            },
    {
        proof {
            self.lemma_found(node);
        }
        match ahash_get(&self.cache, node) {
            None => None,
            Some(row) => {
                self.set_mark(row, true);
                let features = slice_to_vec(self.slab.row(row));
                Some(features)
            },
        }
    }

    /// Inserts or overwrites the row of a node, making room if need be.
    pub fn insert(&mut self, node: NodeId, features: &[u32]) -> (outcome: InsertOutcome)
        requires
            old(self).wf(),
            features@.len() == old(self)@.dim,
        ensures
            final(self).wf(),
            old(self)@.insert_does(node, features@, outcome, final(self)@),
    {
        proof {
            self.lemma_found(node);
        }
        if let Some(row) = ahash_get(&self.cache, node) {
            self.set_mark(row, true);
            let ghost marked_view = self@;
            self.slab.write_row(row, features);
            proof {
                let order = self.order@;
                let i = order.index_of(row);
                assert forall|j: int| 0 <= j < order.len() implies #[trigger] self@.queue[j]
                    == old(self)@.rewritten(node, features@).queue[j] by {
                    assert(marked_view.queue[j] == marked(old(self)@.queue, i, true)[j]);
                    if j != i {
                        assert(order[j] != row);
                    }
                }
                assert(self@.queue =~= old(self)@.rewritten(node, features@).queue);
            }
            return InsertOutcome::Stored;
        }
        if ahash_len(&self.cache) >= self.capacity {
            match self.evict() {
                None => {
                    return InsertOutcome::Refused;
                },
                Some((victim, evicted)) => {
                    self.place(node, features);
                    return InsertOutcome::StoredEvicting(victim, evicted);
                },
            }
        }
        self.place(node, features);
        InsertOutcome::Stored
    }

    /// Moves the hand until it finds an entry that can leave, and takes that
    /// entry out with its row.
    fn evict(&mut self) -> (victim: Option<(NodeId, Vec<u32>)>)
        requires
            old(self).wf(),
        ensures
            final(self).wf(),
            final(self)@ == old(self)@.evicted(),
            match victim {
                Some((v, row)) => {
                    let i = old(self)@.swept().victim;
                    &&& i is Some
                    &&& 0 <= i->0 < old(self)@.queue.len()
                    &&& v == old(self)@.queue[i->0].node
                    &&& row@ == old(self)@.queue[i->0].row
                    &&& final(self).order@.len() + 1 == old(self).order@.len()
                    &&& forall|n: u32|
                        final(self)@.holds(n) ==> #[trigger] old(self)@.holds(n)
                },
                None => old(self)@.swept().victim is None,
            },
    {
        let mut budget: u64 = ahash_len(&self.cache) as u64 * 2 + 2;
        let ghost start = self@;
        while budget > 0
            invariant
                self.wf(),
                start == old(self)@,
                self@ == (SieveView { queue: self@.queue, hand: self@.hand, ..start }),
                self@.queue.len() == start.queue.len(),
                self.order == old(self).order,
                forall|j: int|
                    0 <= j < start.queue.len() ==> (#[trigger] self@.queue[j]).node
                        == start.queue[j].node && self@.queue[j].row == start.queue[j].row,
                sweep(self@.queue, start.pinned, self@.hand, budget as nat) == start.swept(),
            decreases budget,
        {
            budget = budget - 1;
            let cur: u32 = if self.hand == NIL {
                self.tail
            } else {
                self.hand
            };
            if cur == NIL {
                assert(self.order@.len() == 0);
                assert(start.evicted() =~= start);
                assert(self@ =~= start);
                return None;
            }
            let ghost order = self.order@;
            let ghost i = order.index_of(cur);
            proof {
                if self.hand == NIL {
                    assert(order[0] == cur);
                    lemma_index_of(order, 0);
                }
                assert(order.contains(cur));
                assert(0 <= i < order.len() && order[i] == cur);
                assert(self@.queue[i].node == self.links@[cur as int].node);
                if i + 1 < order.len() {
                    lemma_index_of(order, i + 1);
                    assert(order.contains(order[i + 1]));
                }
                assert(hand_place(order, self.links@[cur as int].next) == step(order.len(), i));
            }
            let next: u32 = self.links[cur as usize].next;
            let node: u32 = self.links[cur as usize].node;
            if fx_set_contains(&self.pinned, node) {
                let ghost before = *self;
                self.hand = next;
                assert(self@.queue =~= before@.queue);
            } else if self.links[cur as usize].visited {
                let ghost before = *self;
                self.set_mark(cur, false);
                let ghost unmarked = *self;
                self.hand = next;
                assert(self@.queue =~= unmarked@.queue);
            } else {
                let features = slice_to_vec(self.slab.row(cur));
                self.hand = next;
                self.take_out(cur, node, Ghost(i));
                assert(self@ =~= start.evicted());
                return Some((node, features));
            }
        }
        assert(start.evicted() =~= self@);
        None
    }

    /// Takes the entry at row `r` out of the queue. The hand is already past it.
    fn take_out(&mut self, r: u32, node: u32, Ghost(i): Ghost<int>)
        requires
            old(self).wf(),
            0 <= i < old(self).order@.len(),
            old(self).order@[i] == r,
            old(self).links@[r as int].node == node,
            old(self).hand == row_or_nil(old(self).order@, i + 1),
        ensures
            final(self).wf(),
            final(self).order@ == old(self).order@.remove(i),
            final(self)@ == (SieveView {
                queue: old(self)@.queue.remove(i),
                hand: if i + 1 < old(self)@.queue.len() {
                    Some(i)
                } else {
                    None
                },
                ..old(self)@
            }),
            forall|n: u32| final(self)@.holds(n) ==> #[trigger] old(self)@.holds(n),
    {
        let ghost order = self.order@;
        let ghost entries = ahash_entries(self.cache);
        let ghost free = self.slab.released();
        self.unlink(r, Ghost(i));
        let ghost unlinked = *self;
        ahash_remove(&mut self.cache, node);
        self.slab.release(r);
        proof {
            let now = order.remove(i);
            let after = ahash_entries(self.cache);
            assert forall|j: int| 0 <= j < now.len() implies #[trigger] now[j] == order[if j < i {
                j
            } else {
                j + 1
            }] && now[j] != r by {}
            assert(entries.contains_key(old(self).links@[order[i] as int].node));
            assert(entries.contains_key(node) && entries[node] == r);
            assert forall|j: int| 0 <= j < now.len() implies after.contains_key(
                (#[trigger] self.links@[now[j] as int]).node,
            ) && after[self.links@[now[j] as int].node] == now[j] by {
                let k = if j < i {
                    j
                } else {
                    j + 1
                };
                assert(order[k] == now[j]);
                assert(entries.contains_key(old(self).links@[order[k] as int].node));
            }
            assert forall|n: u32| #[trigger] after.contains_key(n) implies now.contains(after[n])
                && self.links@[after[n] as int].node == n by {
                assert(entries.contains_key(n));
                let k = order.index_of(entries[n]);
                assert(0 <= k < order.len() && order[k] == entries[n]);
                assert(k != i);
                let j = if k < i {
                    k
                } else {
                    k - 1
                };
                assert(now[j] == order[k]);
            }
            assert(self.map_ok());
            assert(self.slab.released() == free.push(r));
            assert(self.rows_ok());
            if i + 1 < order.len() {
                assert(now[i] == order[i + 1]);
                lemma_index_of(now, i);
                assert(now.contains(now[i]));
            }
            assert(self@.queue =~= old(self)@.queue.remove(i));
            assert forall|n: u32| self@.holds(n) implies #[trigger] old(self)@.holds(n) by {
                let j = place_of(self@.queue, n);
                let k = if j < i {
                    j
                } else {
                    j + 1
                };
                assert(old(self)@.queue[k].node == n);
            }
        }
    }

    /// Mends the links round row `r`, which leaves the queue.
    #[verifier::spinoff_prover]
    #[verifier::rlimit(40)]
    fn unlink(&mut self, r: u32, Ghost(i): Ghost<int>)
        requires
            linked(old(self).links@, old(self).order@, old(self).head, old(self).tail),
            0 <= i < old(self).order@.len(),
            old(self).order@[i] == r,
        ensures
            final(self).order@ == old(self).order@.remove(i),
            linked(final(self).links@, final(self).order@, final(self).head, final(self).tail),
            final(self).links@.len() == old(self).links@.len(),
            forall|k: int|
                0 <= k < final(self).links@.len() ==> (#[trigger] final(self).links@[k]).node
                    == old(self).links@[k].node && final(self).links@[k].visited
                    == old(self).links@[k].visited,
            final(self).capacity == old(self).capacity,
            final(self).cache == old(self).cache,
            final(self).slab == old(self).slab,
            final(self).hand == old(self).hand,
            final(self).warm == old(self).warm,
            final(self).pinned == old(self).pinned,
    {
        let ghost order = self.order@;
        let prev: u32 = self.links[r as usize].prev;
        let next: u32 = self.links[r as usize].next;
        assert(self.links@[order[i] as int].prev == prev);
        if prev != NIL {
            assert(prev == order[i - 1]);
            self.set_next(prev, next);
        } else {
            self.tail = next;
        }
        if next != NIL {
            assert(next == order[i + 1]);
            self.set_prev(next, prev);
        } else {
            self.head = prev;
        }
        self.set_prev(r, NIL);
        self.set_next(r, NIL);
        self.order = Ghost(order.remove(i));
        proof {
            let now = order.remove(i);
            let was = old(self).links@;
            assert forall|j: int| 0 <= j < now.len() implies (#[trigger] self.links@[now[j] as int]).prev
                == row_or_nil(now, j - 1) && self.links@[now[j] as int].next == row_or_nil(
                now,
                j + 1,
            ) by {
                let k = if j < i {
                    j
                } else {
                    j + 1
                };
                assert(now[j] == order[k]);
                assert(order[k] != r);
                assert(was[order[k] as int].prev == row_or_nil(order, k - 1));
                assert(was[order[k] as int].next == row_or_nil(order, k + 1));
            }
            assert(now.no_duplicates());
        }
    }

    /// Points a row's forward link at `to`.
    fn set_next(&mut self, row: u32, to: u32)
        requires
            (row as nat) < old(self).links@.len(),
        ensures
            *final(self) == (SieveCache { links: final(self).links, ..*old(self) }),
            final(self).links@ == old(self).links@.update(
                row as int,
                Link { next: to, ..old(self).links@[row as int] },
            ),
    {
        let link = Link {
            node: self.links[row as usize].node,
            visited: self.links[row as usize].visited,
            prev: self.links[row as usize].prev,
            next: to,
        };
        self.links[row as usize] = link;
    }

    /// Points a row's backward link at `to`.
    fn set_prev(&mut self, row: u32, to: u32)
        requires
            (row as nat) < old(self).links@.len(),
        ensures
            *final(self) == (SieveCache { links: final(self).links, ..*old(self) }),
            final(self).links@ == old(self).links@.update(
                row as int,
                Link { prev: to, ..old(self).links@[row as int] },
            ),
    {
        let link = Link {
            node: self.links[row as usize].node,
            visited: self.links[row as usize].visited,
            prev: to,
            next: self.links[row as usize].next,
        };
        self.links[row as usize] = link;
    }

    /// Makes row `r` the newest entry.
    fn push_head(&mut self, r: u32)
        requires
            linked(old(self).links@, old(self).order@, old(self).head, old(self).tail),
            (r as nat) < old(self).links@.len(),
            r < NIL,
            !old(self).order@.contains(r),
        ensures
            final(self).order@ == old(self).order@.push(r),
            linked(final(self).links@, final(self).order@, final(self).head, final(self).tail),
            final(self).links@.len() == old(self).links@.len(),
            forall|k: int|
                0 <= k < final(self).links@.len() ==> (#[trigger] final(self).links@[k]).node
                    == old(self).links@[k].node && final(self).links@[k].visited
                    == old(self).links@[k].visited,
            final(self).capacity == old(self).capacity,
            final(self).cache == old(self).cache,
            final(self).slab == old(self).slab,
            final(self).hand == old(self).hand,
            final(self).warm == old(self).warm,
            final(self).pinned == old(self).pinned,
    {
        let ghost order = self.order@;
        let old_head: u32 = self.head;
        self.set_prev(r, old_head);
        self.set_next(r, NIL);
        if old_head != NIL {
            assert(old_head == order[order.len() - 1]);
            self.set_next(old_head, r);
        } else {
            self.tail = r;
        }
        self.head = r;
        self.order = Ghost(order.push(r));
        proof {
            let now = order.push(r);
            let was = old(self).links@;
            assert forall|j: int| 0 <= j < now.len() implies (#[trigger] self.links@[now[j] as int]).prev
                == row_or_nil(now, j - 1) && self.links@[now[j] as int].next == row_or_nil(
                now,
                j + 1,
            ) by {
                if j < order.len() {
                    assert(now[j] == order[j]);
                    assert(order[j] != r);
                    assert(was[order[j] as int].prev == row_or_nil(order, j - 1));
                    assert(was[order[j] as int].next == row_or_nil(order, j + 1));
                }
            }
            assert forall|a: int, b: int|
                0 <= a < now.len() && 0 <= b < now.len() && a != b implies now[a] != now[b] by {
                if a < order.len() && b < order.len() {
                    assert(order[a] != order[b]);
                } else if a < order.len() {
                    assert(order[a] != r);
                } else {
                    assert(order[b] != r);
                }
            }
        }
    }

    /// Stores the row of a node that is not resident.
    fn place(&mut self, node: u32, features: &[u32])
        requires
            old(self).wf(),
            features@.len() == old(self)@.dim,
            !old(self)@.holds(node),
            old(self).order@.len() < old(self).capacity,
        ensures
            final(self).wf(),
            final(self)@ == old(self)@.with_row(node, features@),
    {
        proof {
            self.lemma_found(node);
        }
        let ghost order = self.order@;
        let ghost entries = ahash_entries(self.cache);
        let ghost free = self.slab.released();
        let ghost was_links = self.links@;
        let ghost was_rows = self.slab@;
        let row = self.slab.allocate();
        let ghost allocated = self.slab@;
        self.slab.write_row(row, features);
        let warm = match ahash_get(&self.warm, node) {
            Some(f) => f > 0,
            None => false,
        };
        let link = Link { node, visited: warm, prev: NIL, next: NIL };
        if row as usize >= self.links.len() {
            self.links.push(link);
        } else {
            self.links[row as usize] = link;
        }
        proof {
            assert(row < NIL);
            if order.contains(row) {
                let k = order.index_of(row);
                assert(order[k] == row);
                if free.len() > 0 {
                    assert(free[free.len() - 1] == row);
                }
            }
            assert forall|j: int| 0 <= j < order.len() implies #[trigger] self.links@[order[j] as int]
                == was_links[order[j] as int] by {
                assert(order[j] != row);
            }
            assert forall|j: int| 0 <= j < order.len() implies #[trigger] self.slab@[order[j] as int]
                == was_rows[order[j] as int] by {
                assert(order[j] != row);
                assert(order[j] < was_rows.len());
                if free.len() == 0 {
                    assert(allocated.drop_last()[order[j] as int] == was_rows[order[j] as int]);
                }
            }
        }
        let ghost linked_before = self.links@;
        self.push_head(row);
        ahash_insert(&mut self.cache, node, row);
        proof {
            let now = order.push(row);
            let after = ahash_entries(self.cache);
            assert(!entries.contains_key(node));
            assert forall|j: int| 0 <= j < now.len() implies after.contains_key(
                (#[trigger] self.links@[now[j] as int]).node,
            ) && after[self.links@[now[j] as int].node] == now[j] by {
                if j < order.len() {
                    assert(now[j] == order[j]);
                    assert(entries.contains_key(was_links[order[j] as int].node));
                }
            }
            assert forall|n: u32| #[trigger] after.contains_key(n) implies now.contains(after[n])
                && self.links@[after[n] as int].node == n by {
                if n == node {
                    assert(now[order.len() as int] == row);
                } else {
                    assert(entries.contains_key(n));
                    let k = order.index_of(entries[n]);
                    assert(0 <= k < order.len() && order[k] == entries[n]);
                    assert(now[k] == order[k]);
                }
            }
            assert(self.map_ok());
            if free.len() > 0 {
                assert(free[free.len() - 1] == row);
            }
            assert forall|i: int, j: int|
                0 <= i < now.len() && 0 <= j < self.slab.released().len() implies (
            #[trigger] now[i]) != (#[trigger] self.slab.released()[j]) by {
                assert(self.slab.released()[j] == free[j]);
                if i < order.len() {
                    assert(now[i] == order[i]);
                }
            }
            assert forall|r: int| 0 <= r < self.slab@.len() implies (#[trigger] self.slab@[r]).len()
                == self.slab.width() by {
                if r != row {
                    if free.len() == 0 {
                        assert(allocated.drop_last()[r] == was_rows[r]);
                    }
                    assert(was_rows[r].len() == self.slab.width());
                }
            }
            assert(self.rows_ok());
            if self.hand != NIL {
                let k = order.index_of(self.hand);
                assert(0 <= k < order.len() && order[k] == self.hand);
                assert(now[k] == order[k]);
                lemma_index_of(now, k);
            }
            assert forall|j: int| 0 <= j < now.len() implies #[trigger] self@.queue[j] == old(
                self,
            )@.with_row(node, features@).queue[j] by {
                if j < order.len() {
                    assert(now[j] == order[j]);
                    assert(linked_before[order[j] as int] == was_links[order[j] as int]);
                }
            }
            assert(self@.queue =~= old(self)@.with_row(node, features@).queue);
        }
    }

    /// Keeps a node from being evicted.
    pub fn pin(&mut self, node: NodeId)
        requires
            old(self).wf(),
        ensures
            final(self).wf(),
            final(self)@ == (SieveView { pinned: old(self)@.pinned.insert(node), ..old(self)@ }),
    {
        let _ = fx_set_insert(&mut self.pinned, node);
    }

    /// Lets a node be evicted again. Its entry has kept its place.
    pub fn unpin(&mut self, node: NodeId)
        requires
            old(self).wf(),
        ensures
            final(self).wf(),
            final(self)@ == (SieveView { pinned: old(self)@.pinned.remove(node), ..old(self)@ }),
    {
        let _ = fx_set_remove(&mut self.pinned, node);
    }

    /// Whether a node is kept from being evicted.
    pub fn is_pinned(&self, node: NodeId) -> (b: bool)
        ensures
            b == self@.pinned.contains(node),
    {
        fx_set_contains(&self.pinned, node)
    }

    /// Number of resident nodes.
    pub fn len(&self) -> (n: usize)
        requires
            self.wf(),
        ensures
            n == self@.queue.len(),
            n <= self@.capacity,
    {
        ahash_len(&self.cache)
    }

    /// The resident nodes, oldest first, read off the links.
    pub fn queued_nodes(&self) -> (nodes: Vec<NodeId>)
        requires
            self.wf(),
        ensures
            nodes@.len() == self@.queue.len(),
            forall|i: int|
                0 <= i < nodes@.len() ==> #[trigger] nodes@[i] == self@.queue[i].node,
    {
        let mut nodes: Vec<NodeId> = Vec::new();
        let mut cur: u32 = self.tail;
        let ghost order = self.order@;
        while cur != NIL
            invariant
                self.wf(),
                order == self.order@,
                nodes@.len() <= order.len(),
                cur == row_or_nil(order, nodes@.len() as int),
                forall|i: int|
                    0 <= i < nodes@.len() ==> #[trigger] nodes@[i] == self@.queue[i].node,
            decreases order.len() - nodes@.len(),
        {
            let ghost k = nodes@.len() as int;
            assert(order[k] == cur);
            assert(self.links@[order[k] as int].next == row_or_nil(order, k + 1));
            assert(self@.queue[k].node == self.links@[cur as int].node);
            nodes.push(self.links[cur as usize].node);
            cur = self.links[cur as usize].next;
        }
        proof {
            if nodes@.len() < order.len() {
                assert(order[nodes@.len() as int] < NIL);
            }
        }
        nodes
    }
}

/// A walk takes marks away and nothing else. What it finds is not pinned.
proof fn lemma_sweep_keeps(
    queue: Seq<SieveEntry>,
    pinned: Set<u32>,
    hand: Option<int>,
    steps: nat,
)
    requires
        hand matches Some(h) ==> 0 <= h < queue.len(),
    ensures
        ({
            let end = sweep(queue, pinned, hand, steps);
            &&& end.queue.len() == queue.len()
            &&& forall|j: int|
                0 <= j < queue.len() ==> (#[trigger] end.queue[j]).node == queue[j].node
                    && end.queue[j].row == queue[j].row && (end.queue[j].visited
                    ==> queue[j].visited)
            &&& end.victim matches Some(i) ==> 0 <= i < queue.len() && !pinned.contains(
                queue[i].node,
            ) && end.hand == step(queue.len(), i)
            &&& end.hand matches Some(h) ==> 0 <= h < queue.len()
        }),
    decreases steps,
{
    let i = hand_at(hand);
    if steps == 0 || queue.len() == 0 {
    } else if pinned.contains(queue[i].node) {
        lemma_sweep_keeps(queue, pinned, step(queue.len(), i), (steps - 1) as nat);
    } else if queue[i].visited {
        let next = marked(queue, i, false);
        lemma_sweep_keeps(next, pinned, step(queue.len(), i), (steps - 1) as nat);
        let end = sweep(queue, pinned, hand, steps);
        assert forall|j: int| 0 <= j < queue.len() implies (#[trigger] end.queue[j]).node
            == queue[j].node && end.queue[j].row == queue[j].row && (end.queue[j].visited
            ==> queue[j].visited) by {
            assert(end.queue[j].node == next[j].node);
        }
    }
}

/// How many entries the hand looks at, at most, until it takes the one at `q`.
spec fn steps_to(queue: Seq<SieveEntry>, at: int, q: int) -> int {
    let len = queue.len();
    if at <= q {
        if queue[q].visited {
            len - at + q + 1
        } else {
            q - at + 1
        }
    } else {
        len - at + (if queue[q].visited {
            len + q + 1
        } else {
            q + 1
        })
    }
}

/// A walk that is long enough finds an entry, if one is not pinned.
proof fn lemma_sweep_finds(
    queue: Seq<SieveEntry>,
    pinned: Set<u32>,
    hand: Option<int>,
    steps: nat,
    q: int,
)
    requires
        hand matches Some(h) ==> 0 <= h < queue.len(),
        0 <= q < queue.len(),
        !pinned.contains(queue[q].node),
        steps >= steps_to(queue, hand_at(hand), q),
    ensures
        sweep(queue, pinned, hand, steps).victim is Some,
    decreases steps,
{
    let i = hand_at(hand);
    if pinned.contains(queue[i].node) {
        lemma_sweep_finds(queue, pinned, step(queue.len(), i), (steps - 1) as nat, q);
    } else if queue[i].visited {
        lemma_sweep_finds(
            marked(queue, i, false),
            pinned,
            step(queue.len(), i),
            (steps - 1) as nat,
            q,
        );
    }
}

/// Between the hand and `q`, going up and round.
spec fn on_the_way(len: nat, at: int, q: int, j: int) -> bool {
    if at <= q {
        at <= j <= q
    } else {
        at <= j < len || 0 <= j <= q
    }
}

/// On its way to an entry without a mark, a walk takes none that had a mark.
proof fn lemma_sweep_spares(
    start: Seq<SieveEntry>,
    queue: Seq<SieveEntry>,
    pinned: Set<u32>,
    hand: Option<int>,
    steps: nat,
    q: int,
)
    requires
        start.len() == queue.len(),
        hand matches Some(h) ==> 0 <= h < queue.len(),
        0 <= q < queue.len(),
        !pinned.contains(queue[q].node),
        !queue[q].visited,
        forall|j: int|
            0 <= j < queue.len() && on_the_way(queue.len(), hand_at(hand), q, j) ==> (
            #[trigger] queue[j]).visited == start[j].visited,
    ensures
        sweep(queue, pinned, hand, steps).victim matches Some(i) ==> !start[i].visited,
    decreases steps,
{
    let i = hand_at(hand);
    if steps > 0 {
        let next = hand_at(step(queue.len(), i));
        if pinned.contains(queue[i].node) {
            lemma_sweep_spares(
                start,
                queue,
                pinned,
                step(queue.len(), i),
                (steps - 1) as nat,
                q,
            );
        } else if queue[i].visited {
            let cleared = marked(queue, i, false);
            assert(i != q);
            assert forall|j: int|
                0 <= j < queue.len() && on_the_way(queue.len(), next, q, j) implies (
            #[trigger] cleared[j]).visited == start[j].visited by {
                assert(j != i);
                assert(queue[j].visited == start[j].visited);
            }
            lemma_sweep_spares(
                start,
                cleared,
                pinned,
                step(queue.len(), i),
                (steps - 1) as nat,
                q,
            );
        } else {
            assert(queue[i].visited == start[i].visited);
        }
    }
}

/// Room can be made exactly where some entry is not pinned.
pub proof fn law_makes_room_unless_all_pinned(view: SieveView)
    requires
        view.valid(),
    ensures
        view.swept().victim is None <==> forall|i: int|
            0 <= i < view.queue.len() ==> view.pinned.contains((#[trigger] view.queue[i]).node),
{
    lemma_sweep_keeps(view.queue, view.pinned, view.hand, 2 * view.queue.len() + 2);
    if exists|i: int|
        0 <= i < view.queue.len() && !view.pinned.contains((#[trigger] view.queue[i]).node) {
        let q = choose|i: int|
            0 <= i < view.queue.len() && !view.pinned.contains((#[trigger] view.queue[i]).node);
        lemma_sweep_finds(view.queue, view.pinned, view.hand, 2 * view.queue.len() + 2, q);
    }
}

/// A hit defers eviction: while some entry that is not pinned has no mark, no
/// marked entry leaves.
pub proof fn law_marked_entries_are_spared(view: SieveView, cold: int)
    requires
        view.valid(),
        0 <= cold < view.queue.len(),
        !view.pinned.contains(view.queue[cold].node),
        !view.queue[cold].visited,
    ensures
        view.swept().victim is Some,
        !view.queue[view.swept().victim->0].visited,
{
    law_makes_room_unless_all_pinned(view);
    lemma_sweep_spares(
        view.queue,
        view.queue,
        view.pinned,
        view.hand,
        2 * view.queue.len() + 2,
        cold,
    );
}

/// Without hits and pins the hand takes what it points at, so entries leave in
/// the order in which they came.
pub proof fn law_first_in_first_out_without_hits(view: SieveView)
    requires
        view.valid(),
        view.queue.len() > 0,
        !view.queue[hand_at(view.hand)].visited,
        !view.pinned.contains(view.queue[hand_at(view.hand)].node),
    ensures
        view.swept().victim == Some(hand_at(view.hand)),
        view.evicted().queue == view.queue.remove(hand_at(view.hand)),
        view.evicted().hand == (if hand_at(view.hand) + 1 < view.queue.len() {
            Some(hand_at(view.hand))
        } else {
            None
        }),
{
}

/// An insert leaves a valid tier. If it was not refused the node has the inserted
/// row, and every other resident node had the same row before.
pub proof fn law_insert_keeps_queue(
    before: SieveView,
    node: u32,
    row: Seq<u32>,
    outcome: InsertOutcome,
    after: SieveView,
)
    requires
        before.valid(),
        row.len() == before.dim,
        before.insert_does(node, row, outcome, after),
    ensures
        after.valid(),
        !(outcome is Refused) ==> after.holds(node) && after.row(node) == row,
        outcome is Refused ==> !after.holds(node),
        forall|n: u32|
            n != node && #[trigger] after.holds(n) ==> before.holds(n) && after.row(n)
                == before.row(n),
{
    let mid = if before.holds(node) || before.queue.len() < before.capacity {
        before
    } else {
        before.evicted()
    };
    let taken = before.swept().victim;
    lemma_sweep_keeps(before.queue, before.pinned, before.hand, 2 * before.queue.len() + 2);
    // What each place of the queue in between was before.
    let place = |j: int|
        if !before.holds(node) && before.queue.len() >= before.capacity && taken is Some && j
            >= taken->0 {
            j + 1
        } else {
            j
        };
    assert forall|j: int| 0 <= j < mid.queue.len() implies (#[trigger] mid.queue[j]).node
        == before.queue[place(j)].node && mid.queue[j].row == before.queue[place(j)].row && 0
        <= place(j) < before.queue.len() by {
        if !before.holds(node) && before.queue.len() >= before.capacity {
            let end = before.swept();
            assert(end.queue[place(j)].node == before.queue[place(j)].node);
        }
    }
    assert(mid.valid()) by {
        assert forall|i: int, j: int|
            0 <= i < mid.queue.len() && 0 <= j < mid.queue.len() && i != j implies (
        #[trigger] mid.queue[i]).node != (#[trigger] mid.queue[j]).node by {
            assert(place(i) != place(j));
        }
    }
    assert forall|n: u32| #[trigger] mid.holds(n) implies before.holds(n) && mid.row(n)
        == before.row(n) by {
        let j = place_of(mid.queue, n);
        assert(mid.queue[j].node == n);
        assert(before.queue[place(j)].node == n);
        lemma_place_of(before.queue, place(j));
        lemma_place_of(mid.queue, j);
    }
    if before.holds(node) {
        let k = place_of(before.queue, node);
        assert(before.queue[k].node == node);
        assert forall|n: u32| n != node && #[trigger] after.holds(n) implies before.holds(n)
            && after.row(n) == before.row(n) by {
            let j = place_of(after.queue, n);
            assert(after.queue[j].node == n);
            assert(before.queue[j].node == n);
            lemma_place_of(before.queue, j);
        }
        assert(distinct_nodes(after.queue)) by {
            assert forall|i: int, j: int|
                0 <= i < after.queue.len() && 0 <= j < after.queue.len() && i != j implies (
            #[trigger] after.queue[i]).node != (#[trigger] after.queue[j]).node by {
                assert(before.queue[i].node != before.queue[j].node);
            }
        }
        assert(after.queue[k].node == node);
        lemma_place_of(after.queue, k);
    } else if !(outcome is Refused) {
        assert(after == mid.with_row(node, row));
        let last = mid.queue.len() as int;
        assert(!mid.holds(node));
        assert forall|j: int| 0 <= j < last implies #[trigger] after.queue[j] == mid.queue[j]
            && mid.queue[j].node != node by {}
        assert(after.queue[last].node == node);
        lemma_place_of(after.queue, last);
        assert forall|n: u32| n != node && #[trigger] after.holds(n) implies before.holds(n)
            && after.row(n) == before.row(n) by {
            let j = place_of(after.queue, n);
            assert(after.queue[j].node == n);
            assert(j < last);
            assert(mid.queue[j].node == n);
            lemma_place_of(mid.queue, j);
            assert(mid.holds(n));
        }
    } else {
        assert(after == mid);
        assert(!mid.holds(node));
    }
}

/// A pinned resident node survives every insert, with its row unless the insert
/// was its own.
pub proof fn law_pinned_entries_stay(
    before: SieveView,
    node: u32,
    row: Seq<u32>,
    outcome: InsertOutcome,
    after: SieveView,
    pinned: u32,
)
    requires
        before.valid(),
        row.len() == before.dim,
        before.insert_does(node, row, outcome, after),
        before.holds(pinned),
        before.pinned.contains(pinned),
    ensures
        after.holds(pinned),
        after.pinned.contains(pinned),
        pinned != node ==> after.row(pinned) == before.row(pinned),
{
    law_insert_keeps_queue(before, node, row, outcome, after);
    lemma_sweep_keeps(before.queue, before.pinned, before.hand, 2 * before.queue.len() + 2);
    let k = place_of(before.queue, pinned);
    assert(before.queue[k].node == pinned);
    let end = before.swept();
    assert(end.queue[k].node == pinned);
    if before.holds(node) || before.queue.len() < before.capacity || end.victim is None {
        assert(after.queue[k].node == pinned);
    } else {
        let i = end.victim->0;
        let j = if k < i {
            k
        } else {
            k - 1
        };
        assert(after.queue[j].node == pinned);
    }
}

/// The place `d` steps behind place `i`, going round.
spec fn round(len: nat, i: int, d: int) -> int {
    if i + d < len {
        i + d
    } else {
        i + d - len
    }
}

/// The hand after `d` steps.
spec fn hand_after(len: nat, hand: Option<int>, d: nat) -> Option<int>
    decreases d,
{
    if d == 0 {
        hand
    } else {
        hand_after(len, step(len, hand_at(hand)), (d - 1) as nat)
    }
}

/// The queue after the hand has passed `d` places from `i` on: unpinned entries
/// there have lost their marks.
spec fn passed(queue: Seq<SieveEntry>, pinned: Set<u32>, i: int, d: int) -> Seq<SieveEntry> {
    Seq::new(
        queue.len(),
        |k: int|
            if ((i <= k < i + d) || k < i + d - queue.len()) && !pinned.contains(queue[k].node) {
                SieveEntry { visited: false, ..queue[k] }
            } else {
                queue[k]
            },
    )
}

/// The hand passes entries that are pinned or marked.
proof fn lemma_sweep_passes(
    queue: Seq<SieveEntry>,
    pinned: Set<u32>,
    hand: Option<int>,
    steps: nat,
    d: nat,
)
    requires
        queue.len() > 0,
        0 <= hand_at(hand) < queue.len(),
        d <= queue.len(),
        d <= steps,
        forall|e: int|
            0 <= e < d ==> ({
                let k = #[trigger] round(queue.len(), hand_at(hand), e);
                pinned.contains(queue[k].node) || queue[k].visited
            }),
    ensures
        sweep(queue, pinned, hand, steps) == sweep(
            passed(queue, pinned, hand_at(hand), d as int),
            pinned,
            hand_after(queue.len(), hand, d),
            (steps - d) as nat,
        ),
        hand_at(hand_after(queue.len(), hand, d)) == round(queue.len(), hand_at(hand), d as int),
    decreases d,
{
    let len = queue.len();
    let i = hand_at(hand);
    if d == 0 {
        assert(passed(queue, pinned, i, 0) =~= queue);
    } else {
        assert(round(len, i, 0) == i);
        assert(pinned.contains(queue[i].node) || queue[i].visited);
        let next = step(len, i);
        let after = if pinned.contains(queue[i].node) {
            queue
        } else {
            marked(queue, i, false)
        };
        let rest = (d - 1) as nat;
        assert(hand_at(next) == round(len, i, 1) || len == 1);
        assert forall|e: int| 0 <= e < rest implies ({
            let k = #[trigger] round(after.len(), hand_at(next), e);
            pinned.contains(after[k].node) || after[k].visited
        }) by {
            let k = round(len, i, e + 1);
            assert(k == round(len, hand_at(next), e));
            assert(pinned.contains(queue[k].node) || queue[k].visited);
        }
        lemma_sweep_passes(after, pinned, next, (steps - 1) as nat, rest);
        assert(passed(after, pinned, hand_at(next), rest as int) =~= passed(
            queue,
            pinned,
            i,
            d as int,
        ));
    }
}

/// What the hand takes: the first entry, going round from the hand, that is
/// neither pinned nor marked. The unpinned entries that it passes on the way lose
/// their marks, and nothing else changes; the hand stops behind the entry.
pub proof fn law_hand_takes_the_first_unmarked(view: SieveView, d: int)
    requires
        view.valid(),
        0 <= d < view.queue.len(),
        ({
            let i = if view.hand is Some {
                view.hand->0
            } else {
                0
            };
            let v = if i + d < view.queue.len() {
                i + d
            } else {
                i + d - view.queue.len()
            };
            &&& !view.pinned.contains(view.queue[v].node) && !view.queue[v].visited
            &&& forall|k: int|
                0 <= k < view.queue.len() && ((i <= k < i + d) || k < i + d - view.queue.len())
                    ==> view.pinned.contains((#[trigger] view.queue[k]).node)
                    || view.queue[k].visited
        }),
    ensures
        ({
            let q = view.queue;
            let i = if view.hand is Some {
                view.hand->0
            } else {
                0
            };
            let v = if i + d < q.len() {
                i + d
            } else {
                i + d - q.len()
            };
            let end = view.swept();
            &&& end.victim == Some(v)
            &&& end.hand == (if v + 1 < q.len() {
                Some(v + 1)
            } else {
                None
            })
            &&& end.queue.len() == q.len()
            &&& forall|k: int|
                0 <= k < q.len() ==> (#[trigger] end.queue[k]).node == q[k].node && end.queue[k].row
                    == q[k].row && end.queue[k].visited == (q[k].visited && !(((i <= k < i + d) || k
                    < i + d - q.len()) && !view.pinned.contains(q[k].node)))
        }),
{
    let q = view.queue;
    let i = hand_at(view.hand);
    let steps = 2 * q.len() + 2;
    assert forall|e: int| 0 <= e < d implies ({
        let k = #[trigger] round(q.len(), i, e);
        view.pinned.contains(q[k].node) || q[k].visited
    }) by {}
    lemma_sweep_passes(q, view.pinned, view.hand, steps, d as nat);
    let then = passed(q, view.pinned, i, d);
    let v = round(q.len(), i, d);
    assert(then[v] == q[v]);
}

/// Where every unpinned entry is marked, the hand goes all the way round, which
/// takes all their marks, and then takes the first unpinned entry from where it
/// started.
pub proof fn law_hand_goes_round_once(view: SieveView, d: int)
    requires
        view.valid(),
        0 <= d < view.queue.len(),
        forall|k: int|
            0 <= k < view.queue.len() ==> view.pinned.contains((#[trigger] view.queue[k]).node)
                || view.queue[k].visited,
        ({
            let i = if view.hand is Some {
                view.hand->0
            } else {
                0
            };
            let v = if i + d < view.queue.len() {
                i + d
            } else {
                i + d - view.queue.len()
            };
            &&& !view.pinned.contains(view.queue[v].node)
            &&& forall|k: int|
                0 <= k < view.queue.len() && ((i <= k < i + d) || k < i + d - view.queue.len())
                    ==> view.pinned.contains((#[trigger] view.queue[k]).node)
        }),
    ensures
        ({
            let q = view.queue;
            let i = if view.hand is Some {
                view.hand->0
            } else {
                0
            };
            let v = if i + d < q.len() {
                i + d
            } else {
                i + d - q.len()
            };
            let end = view.swept();
            &&& end.victim == Some(v)
            &&& end.hand == (if v + 1 < q.len() {
                Some(v + 1)
            } else {
                None
            })
            &&& end.queue.len() == q.len()
            &&& forall|k: int|
                0 <= k < q.len() ==> (#[trigger] end.queue[k]).node == q[k].node && end.queue[k].row
                    == q[k].row && end.queue[k].visited == (q[k].visited && view.pinned.contains(
                    q[k].node,
                ))
        }),
{
    let q = view.queue;
    let n = q.len();
    let i = hand_at(view.hand);
    let steps = 2 * n + 2;
    assert forall|e: int| 0 <= e < n implies ({
        let k = #[trigger] round(n, i, e);
        view.pinned.contains(q[k].node) || q[k].visited
    }) by {}
    lemma_sweep_passes(q, view.pinned, view.hand, steps, n);
    let then = passed(q, view.pinned, i, n as int);
    let again = hand_after(n, view.hand, n);
    assert(hand_at(again) == i);
    assert forall|e: int| 0 <= e < d implies ({
        let k = #[trigger] round(then.len(), hand_at(again), e);
        view.pinned.contains(then[k].node) || then[k].visited
    }) by {}
    lemma_sweep_passes(then, view.pinned, again, (steps - n) as nat, d as nat);
    let last = passed(then, view.pinned, i, d);
    let v = round(n, i, d);
    assert(!view.pinned.contains(q[v].node));
    assert(!last[v].visited);
}

/// Reading a node marks its entry and changes nothing else.
pub proof fn law_hit_marks_the_entry(view: SieveView, node: u32, k: int)
    requires
        view.valid(),
        view.holds(node),
        0 <= k < view.queue.len(),
    ensures
        ({
            let after = view.hit(node);
            &&& after.queue.len() == view.queue.len()
            &&& after.queue[k].node == view.queue[k].node
            &&& after.queue[k].row == view.queue[k].row
            &&& after.queue[k].visited == (view.queue[k].visited || view.queue[k].node == node)
            &&& after.hand == view.hand
            &&& after.warm == view.warm
            &&& after.pinned == view.pinned
            &&& after.capacity == view.capacity
        }),
        view.row(node) == view.queue[k].row || view.queue[k].node != node,
{
    let i = place_of(view.queue, node);
    assert(view.queue[i].node == node);
    if k != i {
        assert(view.queue[k].node != view.queue[i].node);
    }
}

/// An insert rewrites and marks the entry of a node that is there, in its place.
/// Another node joins behind all entries, marked exactly if it is known
/// beforehand to be in use; where the tier is full the entry that the hand takes
/// leaves, and the others keep their order.
pub proof fn law_insert_joins_at_the_back(
    before: SieveView,
    node: u32,
    row: Seq<u32>,
    outcome: InsertOutcome,
    after: SieveView,
    k: int,
)
    requires
        before.valid(),
        before.insert_does(node, row, outcome, after),
        0 <= k < before.queue.len(),
    ensures
        ({
            let here = exists|i: int|
                0 <= i < before.queue.len() && (#[trigger] before.queue[i]).node == node;
            let joined = SieveEntry {
                node,
                visited: before.warm.contains_key(node) && before.warm[node] > 0,
                row,
            };
            &&& after.capacity == before.capacity
            &&& after.warm == before.warm
            &&& after.pinned == before.pinned
            &&& here ==> {
                &&& outcome is Stored
                &&& after.hand == before.hand
                &&& after.queue.len() == before.queue.len()
                &&& before.queue[k].node != node ==> after.queue[k] == before.queue[k]
                &&& before.queue[k].node == node ==> after.queue[k] == (SieveEntry {
                    node,
                    visited: true,
                    row,
                })
            }
            &&& !here && before.queue.len() < before.capacity ==> {
                &&& outcome is Stored
                &&& after.hand == before.hand
                &&& after.queue == before.queue.push(joined)
            }
            &&& !here && before.queue.len() >= before.capacity ==> match before.swept().victim {
                Some(v) => {
                    let from = if k < v {
                        k
                    } else {
                        k + 1
                    };
                    &&& outcome is StoredEvicting
                    &&& outcome->StoredEvicting_0 == before.queue[v].node
                    &&& outcome->StoredEvicting_1@ == before.queue[v].row
                    &&& after.queue.len() == before.queue.len()
                    &&& after.queue.last() == joined
                    &&& k < before.queue.len() - 1 ==> after.queue[k] == before.swept().queue[from]
                },
                None => {
                    &&& outcome is Refused
                    &&& after.queue == before.swept().queue
                },
            }
        }),
{
    let here = exists|i: int|
        0 <= i < before.queue.len() && (#[trigger] before.queue[i]).node == node;
    assert(here == before.holds(node));
    lemma_sweep_keeps(before.queue, before.pinned, before.hand, 2 * before.queue.len() + 2);
    if here {
        let i = place_of(before.queue, node);
        assert(before.queue[i].node == node);
        if k != i {
            assert(before.queue[k].node != before.queue[i].node);
        }
    }
}

/// Behind an eviction the hand stays where it was going: at the entry that took
/// the place of the one that left, or at the oldest if there is none behind it.
pub proof fn law_hand_stays_behind_the_victim(view: SieveView)
    requires
        view.valid(),
        view.swept().victim is Some,
    ensures
        ({
            let v = view.swept().victim->0;
            &&& 0 <= v < view.queue.len()
            &&& v + 1 < view.queue.len() ==> view.evicted().hand == Some(v)
            &&& v + 1 == view.queue.len() ==> view.evicted().hand is None
            &&& view.evicted().queue == view.swept().queue.remove(v)
        }),
{
    lemma_sweep_stops(view.queue, view.pinned, view.hand, 2 * view.queue.len() + 2);
}

proof fn lemma_sweep_stops(
    queue: Seq<SieveEntry>,
    pinned: Set<u32>,
    hand: Option<int>,
    steps: nat,
)
    requires
        hand matches Some(h) ==> 0 <= h < queue.len(),
    ensures
        sweep(queue, pinned, hand, steps).victim matches Some(v) ==> 0 <= v < queue.len() && sweep(
            queue,
            pinned,
            hand,
            steps,
        ).hand == step(queue.len(), v),
    decreases steps,
{
    let i = hand_at(hand);
    if steps > 0 && queue.len() > 0 {
        if pinned.contains(queue[i].node) {
            lemma_sweep_stops(queue, pinned, step(queue.len(), i), (steps - 1) as nat);
        } else if queue[i].visited {
            lemma_sweep_stops(
                marked(queue, i, false),
                pinned,
                step(queue.len(), i),
                (steps - 1) as nat,
            );
        }
    }
}

} // verus!
