//! A priority queue of nodes by frequency, least frequent first.
use vstd::prelude::*;
use vstd::multiset::Multiset;
use vstd::seq_lib::to_multiset_update;

verus! {

/// A frequency and the node that it is for.
pub type Ranked = (u64, u32);

/// Order of the queue: by frequency, then by node.
pub open spec fn before(a: Ranked, b: Ranked) -> bool {
    a.0 < b.0 || (a.0 == b.0 && a.1 <= b.1)
}

/// Whether `a` comes strictly before `b`.
fn comes_before(a: &Ranked, b: &Ranked) -> (r: bool)
    ensures
        r == !before(*b, *a),
{
    a.0 < b.0 || (a.0 == b.0 && a.1 < b.1)
}

/// Place of the parent of place `i`.
spec fn parent(i: int) -> int {
    (i - 1) / 2
}

/// No entry comes before its parent.
spec fn heap_ordered(s: Seq<Ranked>) -> bool {
    forall|i: int| #![trigger s[i]] 0 < i < s.len() ==> before(s[parent(i)], s[i])
}

/// The first entry comes before every other.
proof fn lemma_first_is_least(s: Seq<Ranked>, i: int)
    requires
        heap_ordered(s),
        0 <= i < s.len(),
    ensures
        before(s[0], s[i]),
    decreases i,
{
    if i > 0 {
        lemma_first_is_least(s, parent(i));
        assert(before(s[parent(i)], s[i]));
    }
}

spec fn exchanged(s: Seq<Ranked>, i: int, j: int) -> Seq<Ranked> {
    s.update(i, s[j]).update(j, s[i])
}

/// Exchanging two entries keeps what the queue holds.
proof fn lemma_exchange(s: Seq<Ranked>, i: int, j: int)
    requires
        0 <= i < s.len(),
        0 <= j < s.len(),
    ensures
        exchanged(s, i, j).to_multiset() == s.to_multiset(),
{
    let mid = s.update(i, s[j]);
    to_multiset_update(s, i, s[j]);
    to_multiset_update(mid, j, s[i]);
    s.to_multiset_ensures();
    let m = s.to_multiset();
    assert(s.contains(s[i]) && s.contains(s[j]));
    assert(m.count(s[i]) > 0 && m.count(s[j]) > 0);
    if i == j {
        assert(exchanged(s, i, j) =~= s);
    } else {
        assert(mid[j] == s[j]);
        assert(exchanged(s, i, j).to_multiset() =~= m);
    }
}

/// Min-heap of ranked nodes. A node may be in it more than once.
pub struct RankHeap {
    entries: Vec<Ranked>,
}

impl View for RankHeap {
    type V = Multiset<Ranked>;

    closed spec fn view(&self) -> Multiset<Ranked> {
        self.entries@.to_multiset()
    }
}

impl RankHeap {
    /// The entries are in heap order.
    pub closed spec fn wf(&self) -> bool {
        heap_ordered(self.entries@)
    }

    /// A queue that holds nothing.
    pub fn new() -> (h: RankHeap)
        ensures
            h.wf(),
            h@ == Multiset::<Ranked>::empty(),
    {
        let h = RankHeap { entries: Vec::new() };
        proof {
            h.entries@.to_multiset_ensures();
            assert(h@ =~= Multiset::empty());
        }
        h
    }

    /// How many entries the queue holds.
    pub fn len(&self) -> (n: usize)
        ensures
            n == self@.len(),
    {
        proof {
            self.entries@.to_multiset_ensures();
        }
        self.entries.len()
    }

    /// Adds an entry.
    pub fn push(&mut self, x: Ranked)
        requires
            old(self).wf(),
        ensures
            final(self).wf(),
            final(self)@ == old(self)@.insert(x),
    {
        proof {
            self.entries@.to_multiset_ensures();
        }
        self.entries.push(x);
        let mut i: usize = self.entries.len() - 1;
        let ghost target = self.entries@.to_multiset();
        while i > 0
            invariant
                i < self.entries@.len(),
                self.entries@.to_multiset() == target,
                forall|j: int|
                    #![trigger self.entries@[j]]
                    0 < j < self.entries@.len() && j != i ==> before(
                        self.entries@[parent(j)],
                        self.entries@[j],
                    ),
                forall|j: int|
                    #![trigger self.entries@[j]]
                    0 < j < self.entries@.len() && parent(j) == i && i > 0 ==> before(
                        self.entries@[parent(i as int)],
                        self.entries@[j],
                    ),
            ensures
                heap_ordered(self.entries@),
                self.entries@.to_multiset() == target,
            decreases i,
        {
            let p: usize = (i - 1) / 2;
            if !comes_before(&self.entries[i], &self.entries[p]) {
                break ;
            }
            let ghost s = self.entries@;
            let a = self.entries[i];
            let b = self.entries[p];
            self.entries[i] = b;
            self.entries[p] = a;
            proof {
                lemma_exchange(s, i as int, p as int);
                assert(self.entries@ =~= exchanged(s, i as int, p as int));
                let t = self.entries@;
                assert forall|j: int|
                    #![trigger t[j]]
                    0 < j < t.len() && j != p implies before(t[parent(j)], t[j]) by {
                    assert(before(s[parent(j)], s[j]) || j == i);
                    if parent(j) == i {
                        assert(before(s[p as int], s[j]));
                    } else if parent(j) == p {
                        assert(s[j] == s[j]);
                    }
                }
                assert forall|j: int|
                    #![trigger t[j]]
                    0 < j < t.len() && parent(j) == p && p > 0 implies before(
                    t[parent(p as int)],
                    t[j],
                ) by {
                    assert(before(s[parent(p as int)], s[p as int]));
                    if j != i {
                        assert(before(s[parent(j)], s[j]));
                    }
                }
            }
            i = p;
        }
    }

    /// Takes out the least entry, by frequency and then by node.
    pub fn pop(&mut self) -> (x: Option<Ranked>)
        requires
            old(self).wf(),
        ensures
            final(self).wf(),
            match x {
                Some(e) => {
                    &&& old(self)@.count(e) > 0
                    &&& final(self)@ == old(self)@.remove(e)
                    &&& forall|y: Ranked| #[trigger] old(self)@.count(y) > 0 ==> before(e, y)
                },
                None => old(self)@.len() == 0 && final(self)@ == old(self)@,
            },
    {
        let ghost all = self.entries@;
        proof {
            all.to_multiset_ensures();
        }
        let len = self.entries.len();
        if len == 0 {
            return None;
        }
        let first = self.entries[0];
        let last = self.entries[len - 1];
        proof {
            lemma_exchange(all, 0, len - 1);
            assert(all.contains(all[0]));
            assert forall|y: Ranked| #[trigger] old(self)@.count(y) > 0 implies before(first, y) by {
                assert(all.contains(y));
                let i = choose|i: int| 0 <= i < all.len() && all[i] == y;
                lemma_first_is_least(all, i);
            }
        }
        self.entries[0] = last;
        self.entries[len - 1] = first;
        let ghost swapped = self.entries@;
        assert(swapped =~= exchanged(all, 0, len - 1));
        let _ = self.entries.pop();
        proof {
            swapped.to_multiset_ensures();
            assert(self.entries@ =~= swapped.remove(len - 1));
            assert(swapped[len - 1] == first);
        }
        let n: usize = len - 1;
        let ghost target = self.entries@.to_multiset();
        proof {
            let t = self.entries@;
            assert forall|j: int|
                #![trigger t[j]]
                0 < j < t.len() && parent(j) != 0 implies before(t[parent(j)], t[j]) by {
                assert(before(all[parent(j)], all[j]));
            }
        }
        let mut i: usize = 0;
        loop
            invariant
                n == self.entries@.len(),
                i < n || n == 0,
                self.entries@.to_multiset() == target,
                forall|j: int|
                    #![trigger self.entries@[j]]
                    0 < j < n && parent(j) != i ==> before(
                        self.entries@[parent(j)],
                        self.entries@[j],
                    ),
                forall|j: int|
                    #![trigger self.entries@[j]]
                    0 < j < n && parent(j) == i && i > 0 ==> before(
                        self.entries@[parent(i as int)],
                        self.entries@[j],
                    ),
            ensures
                heap_ordered(self.entries@),
                self.entries@.to_multiset() == target,
            decreases n - i,
        {
            if n == 0 || i > (n - 1) / 2 || 2 * i + 1 >= n {
                assert forall|j: int|
                    #![trigger self.entries@[j]]
                    0 < j < n implies before(self.entries@[parent(j)], self.entries@[j]) by {
                    assert(parent(j) != i);
                }
                break ;
            }
            let left: usize = 2 * i + 1;
            let right: usize = left + 1;
            let c: usize = if right < n && comes_before(
                &self.entries[right],
                &self.entries[left],
            ) {
                right
            } else {
                left
            };
            if !comes_before(&self.entries[c], &self.entries[i]) {
                assert forall|j: int|
                    #![trigger self.entries@[j]]
                    0 < j < n implies before(self.entries@[parent(j)], self.entries@[j]) by {
                    if parent(j) == i {
                        assert(j == left || j == right);
                    }
                }
                break ;
            }
            let ghost s = self.entries@;
            let a = self.entries[i];
            let b = self.entries[c];
            self.entries[i] = b;
            self.entries[c] = a;
            proof {
                lemma_exchange(s, i as int, c as int);
                let t = self.entries@;
                assert(t =~= exchanged(s, i as int, c as int));
                assert(parent(c as int) == i);
                assert forall|j: int|
                    #![trigger t[j]]
                    0 < j < n && parent(j) != c implies before(t[parent(j)], t[j]) by {
                    if parent(j) == i {
                        assert(j == left || j == right);
                        if j != c {
                            assert(t[j] == s[j]);
                        }
                    } else if j == i {
                        assert(before(s[parent(i as int)], s[c as int]));
                    } else {
                        assert(before(s[parent(j)], s[j]));
                    }
                }
                assert forall|j: int|
                    #![trigger t[j]]
                    0 < j < n && parent(j) == c && c > 0 implies before(
                    t[parent(c as int)],
                    t[j],
                ) by {
                    assert(before(s[parent(j)], s[j]));
                }
            }
            i = c;
        }
        Some(first)
    }
}

} // verus!
