//! Block-allocated row storage backing the in-memory cache tiers.
use vstd::prelude::*;
use vstd::slice::slice_subrange;
use crate::features::header::placed;

verus! {

/// Rows per block. Growth appends a block; rows never move.
pub const SLAB_BLOCK_ROWS: usize = 4096;

/// Block-allocated row storage for one tier.
///
/// Rows live in blocks and are addressed by a `u32`; the rows of evicted entries
/// are kept in a free list and given out again.
pub struct RowSlab {
    blocks: Vec<Vec<u32>>,
    dim: usize,
    rows: u32,
    free: Vec<u32>,
}

impl View for RowSlab {
    type V = Seq<Seq<u32>>;

    /// What the rows hold.
    closed spec fn view(&self) -> Seq<Seq<u32>> {
        Seq::new(self.rows as nat, |r: int| self.content(r))
    }
}

/// Places of different rows in a block do not overlap.
proof fn lemma_row_places(a: int, b: int, dim: int)
    requires
        0 <= a < SLAB_BLOCK_ROWS,
        0 <= b < SLAB_BLOCK_ROWS,
        0 <= dim,
    ensures
        0 <= a * dim,
        a * dim + dim <= SLAB_BLOCK_ROWS * dim,
        a < b ==> a * dim + dim <= b * dim,
        b < a ==> b * dim + dim <= a * dim,
{
    assert(0 <= a * dim) by (nonlinear_arith)
        requires
            0 <= a,
            0 <= dim,
    ;
    assert(a * dim + dim <= 4096 * dim) by (nonlinear_arith)
        requires
            a + 1 <= 4096,
            0 <= dim,
    ;
    assert(a < b ==> a * dim + dim <= b * dim) by (nonlinear_arith)
        requires
            0 <= dim,
    ;
    assert(b < a ==> b * dim + dim <= a * dim) by (nonlinear_arith)
        requires
            0 <= dim,
    ;
}

/// Writes `part` over `block` from `start` on.
fn write_at(block: &mut Vec<u32>, start: usize, part: &[u32])
    requires
        start + part@.len() <= old(block)@.len(),
    ensures
        final(block)@ == placed(old(block)@, start as int, part@),
{
    let len: usize = block.len();
    let mut j: usize = 0;
    assert(block@ =~= placed(old(block)@, start as int, part@.take(0)));
    while j < part.len()
        invariant
            j <= part@.len(),
            start + part@.len() <= len == block@.len() == old(block)@.len(),
            block@ == placed(old(block)@, start as int, part@.take(j as int)),
        decreases part@.len() - j,
    {
        block[start + j] = part[j];
        j += 1;
        assert(block@ =~= placed(old(block)@, start as int, part@.take(j as int)));
    }
    assert(part@.take(j as int) =~= part@);
}

impl RowSlab {
    /// Values per row.
    pub closed spec fn width(&self) -> nat {
        self.dim as nat
    }

    /// Rows that can be given out again.
    pub closed spec fn released(&self) -> Seq<u32> {
        self.free@
    }

    spec fn content(&self, r: int) -> Seq<u32> {
        let at = (r % SLAB_BLOCK_ROWS as int) * self.dim;
        self.blocks@[r / SLAB_BLOCK_ROWS as int]@.subrange(at, at + self.dim)
    }

    /// There are blocks for all rows, and released rows are rows.
    pub closed spec fn wf(&self) -> bool {
        &&& SLAB_BLOCK_ROWS * self.dim <= usize::MAX
        &&& self.blocks@.len() == (self.rows + SLAB_BLOCK_ROWS - 1) / (SLAB_BLOCK_ROWS as int)
        &&& forall|b: int|
            0 <= b < self.blocks@.len() ==> (#[trigger] self.blocks@[b])@.len() == SLAB_BLOCK_ROWS
                * self.dim
        &&& forall|i: int| 0 <= i < self.free@.len() ==> (#[trigger] self.free@[i]) < self.rows
    }

    /// Storage without rows.
    pub fn new(dim: usize) -> (s: RowSlab)
        requires
            SLAB_BLOCK_ROWS * dim <= usize::MAX,
        ensures
            s.wf(),
            s.width() == dim,
            s@ == Seq::<Seq<u32>>::empty(),
            s.released() == Seq::<u32>::empty(),
    {
        let s = RowSlab { blocks: Vec::new(), dim, rows: 0, free: Vec::new() };
        assert(s@ =~= Seq::empty());
        s
    }

    /// Gives out a row: a released one if there is one, else a new one. What the
    /// row holds is left over from before.
    pub fn allocate(&mut self) -> (r: u32)
        requires
            old(self).wf(),
            old(self).released().len() > 0 || old(self)@.len() < u32::MAX,
        ensures
            final(self).wf(),
            final(self).width() == old(self).width(),
            if old(self).released().len() > 0 {
                &&& r == old(self).released().last()
                &&& r < old(self)@.len()
                &&& final(self).released() == old(self).released().drop_last()
                &&& final(self)@ == old(self)@
            } else {
                &&& r == old(self)@.len()
                &&& final(self).released() == old(self).released()
                &&& final(self)@.len() == old(self)@.len() + 1
                &&& final(self)@.drop_last() == old(self)@
            },
    {
        if let Some(r) = self.free.pop() {
            assert(old(self).free@[old(self).free@.len() - 1] == r);
            assert(self@ =~= old(self)@);
            return r;
        }
        let r: u32 = self.rows;
        let ghost before = *self;
        if (r as usize) % SLAB_BLOCK_ROWS == 0 {
            let block: Vec<u32> = vec![0u32; SLAB_BLOCK_ROWS * self.dim];
            self.blocks.push(block);
        }
        self.rows = self.rows + 1;
        proof {
            assert forall|k: int| 0 <= k < r implies #[trigger] self@.drop_last()[k] == before@[k] by {
                assert(self.blocks@[k / SLAB_BLOCK_ROWS as int]
                    == before.blocks@[k / SLAB_BLOCK_ROWS as int]);
            }
            assert(self@.drop_last() =~= before@);
        }
        r
    }

    /// Takes back a row.
    pub fn release(&mut self, r: u32)
        requires
            old(self).wf(),
            r < old(self)@.len(),
        ensures
            final(self).wf(),
            final(self).width() == old(self).width(),
            final(self)@ == old(self)@,
            final(self).released() == old(self).released().push(r),
    {
        self.free.push(r);
        assert(self@ =~= old(self)@);
    }

    /// Reads a row.
    pub fn row(&self, r: u32) -> (row: &[u32])
        requires
            self.wf(),
            r < self@.len(),
        ensures
            row@ == self@[r as int],
            row@.len() == self.width(),
    {
        let place: usize = r as usize % SLAB_BLOCK_ROWS;
        proof {
            lemma_row_places(place as int, place as int, self.dim as int);
        }
        let start: usize = place * self.dim;
        slice_subrange(
            self.blocks[r as usize / SLAB_BLOCK_ROWS].as_slice(),
            start,
            start + self.dim,
        )
    }

    /// Overwrites a row.
    pub fn write_row(&mut self, r: u32, features: &[u32])
        requires
            old(self).wf(),
            r < old(self)@.len(),
            features@.len() == old(self).width(),
        ensures
            final(self).wf(),
            final(self).width() == old(self).width(),
            final(self).released() == old(self).released(),
            final(self)@ == old(self)@.update(r as int, features@),
    {
        let place: usize = r as usize % SLAB_BLOCK_ROWS;
        let block: usize = r as usize / SLAB_BLOCK_ROWS;
        proof {
            lemma_row_places(place as int, place as int, self.dim as int);
        }
        let start: usize = place * self.dim;
        let ghost before = *self;
        write_at(&mut self.blocks[block], start, features);
        proof {
            assert forall|k: int| 0 <= k < self.rows implies #[trigger] self@[k]
                == before@.update(r as int, features@)[k] by {
                let b = k / SLAB_BLOCK_ROWS as int;
                let p = k % SLAB_BLOCK_ROWS as int;
                lemma_row_places(p, place as int, self.dim as int);
                lemma_row_places(place as int, p, self.dim as int);
                if b == block {
                    if k == r {
                        assert(self.content(k) =~= features@);
                    } else {
                        assert(p != place);
                        assert(self.content(k) =~= before.content(k));
                    }
                } else {
                    assert(self.blocks@[b] == before.blocks@[b]);
                    assert(self.content(k) =~= before.content(k));
                }
            }
            assert(self@ =~= before@.update(r as int, features@));
        }
    }
}

} // verus!
