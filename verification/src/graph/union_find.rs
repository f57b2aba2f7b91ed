//! Disjoint sets of nodes.
//!
//! Both structures are modelled by the map from each node to the root of its
//! set: two nodes are in one set exactly when their roots are equal.
use vstd::prelude::*;
use vstd::arithmetic::power2::{lemma2_to64, lemma_pow2_strictly_increases, pow2};

verus! {

/// Every node has a root, and a root is its own root.
pub open spec fn is_root_map(roots: Seq<u32>) -> bool {
    forall|i: int|
        0 <= i < roots.len() ==> (#[trigger] roots[i]) < roots.len() && roots[roots[i] as int]
            == roots[i]
}

/// The roots once the set of `from` has gone into the set of `to`.
pub open spec fn relink(roots: Seq<u32>, from: u32, to: u32) -> Seq<u32> {
    Seq::new(
        roots.len(),
        |i: int|
            if roots[i] == from {
                to
            } else {
                roots[i]
            },
    )
}

/// Every node alone in its set.
pub open spec fn singletons(n: nat) -> Seq<u32> {
    Seq::new(n, |i: int| i as u32)
}

/// How many nodes have the root `r`.
pub open spec fn set_size(roots: Seq<u32>, r: u32) -> nat
    decreases roots.len(),
{
    if roots.len() == 0 {
        0
    } else {
        set_size(roots.drop_last(), r) + if roots.last() == r {
            1nat
        } else {
            0nat
        }
    }
}

proof fn lemma_set_size_bound(roots: Seq<u32>, r: u32)
    ensures
        set_size(roots, r) <= roots.len(),
    decreases roots.len(),
{
    if roots.len() > 0 {
        lemma_set_size_bound(roots.drop_last(), r);
    }
}

/// A set that gains another has the nodes of both; the rest keep theirs.
proof fn lemma_relink_sizes(roots: Seq<u32>, from: u32, to: u32, r: u32)
    requires
        from != to,
    ensures
        set_size(relink(roots, from, to), r) == (if r == to {
            set_size(roots, to) + set_size(roots, from)
        } else if r == from {
            0nat
        } else {
            set_size(roots, r)
        }),
    decreases roots.len(),
{
    if roots.len() > 0 {
        lemma_relink_sizes(roots.drop_last(), from, to, r);
        assert(relink(roots, from, to).drop_last() =~= relink(roots.drop_last(), from, to));
    }
}

proof fn lemma_set_size_some(roots: Seq<u32>, r: u32, i: int)
    requires
        0 <= i < roots.len(),
        roots[i] == r,
    ensures
        set_size(roots, r) >= 1,
    decreases roots.len(),
{
    if i < roots.len() - 1 {
        lemma_set_size_some(roots.drop_last(), r, i);
    }
}

/// Union-find with path halving in which the smaller root id always goes under
/// the larger one, so that links only ever lead to larger ids.
pub struct IdUnionFind {
    parent: Vec<u32>,
    roots: Ghost<Seq<u32>>,
}

impl View for IdUnionFind {
    type V = Seq<u32>;

    closed spec fn view(&self) -> Seq<u32> {
        self.roots@
    }
}

impl IdUnionFind {
    /// The parent links lead up to the roots, and a root is the largest id of
    /// its set.
    pub closed spec fn wf(&self) -> bool {
        let n = self.parent@.len();
        &&& self.roots@.len() == n
        &&& is_root_map(self.roots@)
        &&& forall|i: int|
            0 <= i < n ==> {
                &&& i <= (#[trigger] self.parent@[i]) < n
                &&& self.roots@[self.parent@[i] as int] == self.roots@[i]
                &&& (self.parent@[i] == i <==> self.roots@[i] == i)
            }
        &&& forall|i: int| 0 <= i < n ==> i <= #[trigger] self.roots@[i]
    }

    /// `n` nodes, each alone in its set.
    pub fn new(n: usize) -> (uf: IdUnionFind)
        requires
            n <= u32::MAX,
        ensures
            uf.wf(),
            uf@ == singletons(n as nat),
    {
        let mut parent: Vec<u32> = Vec::with_capacity(n);
        let mut i: usize = 0;
        while i < n
            invariant
                i <= n <= u32::MAX,
                parent@ == singletons(i as nat),
            decreases n - i,
        {
            parent.push(i as u32);
            i += 1;
            assert(parent@ =~= singletons(i as nat));
        }
        IdUnionFind { parent, roots: Ghost(singletons(n as nat)) }
    }

    /// The root of the set that holds `x`.
    pub fn find(&mut self, x: u32) -> (r: u32)
        requires
            old(self).wf(),
            x < old(self)@.len(),
        ensures
            final(self).wf(),
            final(self)@ == old(self)@,
            r == old(self)@[x as int],
            r >= x,
    {
        let mut x: u32 = x;
        let ghost start = x as int;
        while self.parent[x as usize] != x
            invariant
                self.wf(),
                self@ == old(self)@,
                start <= x < self.parent@.len(),
                start < self@.len(),
                self@[x as int] == self@[start],
            decreases self.parent@.len() - x,
        {
            let p = self.parent[x as usize];
            let gp = self.parent[p as usize];
            self.parent[x as usize] = gp;
            x = gp;
        }
        x
    }

    /// Merges the sets of `a` and `b`. Gives the root that stays, which is the
    /// larger one, and the root that went under it; nothing where both were in
    /// one set already.
    pub fn union(&mut self, a: u32, b: u32) -> (m: Option<(u32, u32)>)
        requires
            old(self).wf(),
            a < old(self)@.len(),
            b < old(self)@.len(),
        ensures
            final(self).wf(),
            ({
                let ra = old(self)@[a as int];
                let rb = old(self)@[b as int];
                let winner = if ra < rb {
                    rb
                } else {
                    ra
                };
                let loser = if ra < rb {
                    ra
                } else {
                    rb
                };
                if ra == rb {
                    m is None && final(self)@ == old(self)@
                } else {
                    m == Some((winner, loser)) && final(self)@ == relink(
                        old(self)@,
                        loser,
                        winner,
                    )
                }
            }),
    {
        let ra = self.find(a);
        let rb = self.find(b);
        if ra == rb {
            return None;
        }
        let (winner, loser) = if ra < rb {
            (rb, ra)
        } else {
            (ra, rb)
        };
        assert(self.roots@[ra as int] == ra && self.roots@[rb as int] == rb);
        let ghost before = self.roots@;
        self.parent[loser as usize] = winner;
        self.roots = Ghost(relink(before, loser, winner));
        assert forall|i: int| 0 <= i < self.parent@.len() implies (#[trigger] self.roots@[i])
            < self.roots@.len() && self.roots@[self.roots@[i] as int] == self.roots@[i] by {
            assert(before[before[i] as int] == before[i]);
        }
        Some((winner, loser))
    }
}

/// Union-find with path halving and union by rank.
pub struct RankUnionFind {
    parent: Vec<u32>,
    rank: Vec<u8>,
    roots: Ghost<Seq<u32>>,
}

impl View for RankUnionFind {
    type V = Seq<u32>;

    closed spec fn view(&self) -> Seq<u32> {
        self.roots@
    }
}

impl RankUnionFind {
    /// The parent links lead up in rank to the roots, and a root of rank `k`
    /// has at least `2^k` nodes in its set.
    pub closed spec fn wf(&self) -> bool {
        let n = self.parent@.len();
        &&& n <= u32::MAX
        &&& self.roots@.len() == n
        &&& self.rank@.len() == n
        &&& is_root_map(self.roots@)
        &&& forall|i: int|
            0 <= i < n ==> {
                &&& (#[trigger] self.parent@[i]) < n
                &&& self.roots@[self.parent@[i] as int] == self.roots@[i]
                &&& (self.parent@[i] == i <==> self.roots@[i] == i)
                &&& self.parent@[i] != i ==> self.rank@[i] < self.rank@[self.parent@[i] as int]
            }
        &&& forall|r: int|
            0 <= r < n && self.roots@[r] == r ==> pow2(#[trigger] self.rank@[r] as nat) <= set_size(
                self.roots@,
                r as u32,
            )
    }

    /// `n` nodes, each alone in its set.
    pub fn new(n: usize) -> (uf: RankUnionFind)
        requires
            n <= u32::MAX,
        ensures
            uf.wf(),
            uf@ == singletons(n as nat),
    {
        let mut parent: Vec<u32> = Vec::with_capacity(n);
        let mut i: usize = 0;
        while i < n
            invariant
                i <= n <= u32::MAX,
                parent@ == singletons(i as nat),
            decreases n - i,
        {
            parent.push(i as u32);
            i += 1;
            assert(parent@ =~= singletons(i as nat));
        }
        let rank: Vec<u8> = vec![0u8; n];
        proof {
            lemma2_to64();
            assert forall|r: u32| r < n implies #[trigger] set_size(singletons(n as nat), r) >= 1 by {
                lemma_set_size_some(singletons(n as nat), r, r as int);
            }
        }
        RankUnionFind { parent, rank, roots: Ghost(singletons(n as nat)) }
    }

    /// The root of the set that holds `x`.
    pub fn find(&mut self, x: u32) -> (r: u32)
        requires
            old(self).wf(),
            x < old(self)@.len(),
        ensures
            final(self).wf(),
            final(self)@ == old(self)@,
            r == old(self)@[x as int],
    {
        let mut x: u32 = x;
        let ghost start = x as int;
        while self.parent[x as usize] != x
            invariant
                self.wf(),
                self@ == old(self)@,
                x < self.parent@.len(),
                0 <= start < self@.len(),
                self@[x as int] == self@[start],
            decreases 255 - self.rank@[x as int],
        {
            let p = self.parent[x as usize];
            let gp = self.parent[p as usize];
            assert(self.rank@[x as int] < self.rank@[p as int]);
            assert(gp != p ==> self.rank@[p as int] < self.rank@[gp as int]);
            self.parent[x as usize] = gp;
            x = gp;
        }
        x
    }

    /// Merges the sets of `a` and `b` and gives the root of the merged set,
    /// which is one of the two roots.
    pub fn union(&mut self, a: u32, b: u32) -> (root: u32)
        requires
            old(self).wf(),
            a < old(self)@.len(),
            b < old(self)@.len(),
        ensures
            final(self).wf(),
            ({
                let ra = old(self)@[a as int];
                let rb = old(self)@[b as int];
                if ra == rb {
                    root == ra && final(self)@ == old(self)@
                } else if root == ra {
                    final(self)@ == relink(old(self)@, rb, ra)
                } else {
                    root == rb && final(self)@ == relink(old(self)@, ra, rb)
                }
            }),
    {
        let ra = self.find(a);
        let rb = self.find(b);
        if ra == rb {
            return ra;
        }
        assert(self.roots@[ra as int] == ra && self.roots@[rb as int] == rb);
        let ghost before = self.roots@;
        let ghost ranks = self.rank@;
        proof {
            lemma_rank_bound(before, ra, ranks[ra as int]);
            assert forall|r: u32| #[trigger] set_size(relink(before, ra, rb), r) == (if r == rb {
                set_size(before, rb) + set_size(before, ra)
            } else if r == ra {
                0nat
            } else {
                set_size(before, r)
            }) by {
                lemma_relink_sizes(before, ra, rb, r);
            }
            assert forall|r: u32| #[trigger] set_size(relink(before, rb, ra), r) == (if r == ra {
                set_size(before, ra) + set_size(before, rb)
            } else if r == rb {
                0nat
            } else {
                set_size(before, r)
            }) by {
                lemma_relink_sizes(before, rb, ra, r);
            }
        }
        if self.rank[ra as usize] < self.rank[rb as usize] {
            self.parent[ra as usize] = rb;
            self.roots = Ghost(relink(before, ra, rb));
            rb
        } else if self.rank[ra as usize] > self.rank[rb as usize] {
            self.parent[rb as usize] = ra;
            self.roots = Ghost(relink(before, rb, ra));
            ra
        } else {
            let k: u8 = self.rank[ra as usize];
            self.parent[rb as usize] = ra;
            self.rank[ra as usize] = k + 1;
            self.roots = Ghost(relink(before, rb, ra));
            proof {
                vstd::arithmetic::power2::lemma_pow2_unfold((k + 1) as nat);
                assert(pow2((k + 1) as nat) <= set_size(self.roots@, ra));
            }
            ra
        }
    }
}

/// Ranks stay small, because a set of rank `k` has `2^k` nodes.
proof fn lemma_rank_bound(roots: Seq<u32>, r: u32, rank: u8)
    requires
        roots.len() <= u32::MAX,
        pow2(rank as nat) <= set_size(roots, r),
    ensures
        rank < 32,
{
    lemma_set_size_bound(roots, r);
    lemma2_to64();
    if rank >= 32 {
        if rank > 32 {
            lemma_pow2_strictly_increases(32, rank as nat);
        }
    }
}

} // verus!
