//! Spill tier: one slot file with a record per node.
//!
//! The record of a node stands at its id times the record size, so a spill or a
//! reload is one transfer at a known place. Which nodes have a record is kept in
//! memory. For direct transfers records are padded to the device's alignment.
use vstd::prelude::*;
use rustc_hash::FxHashSet;
use crate::bytes::{
    lemma_u32s_round_trip, push_u32s, push_zeros, read_u32s, u32s_at, u32s_le,
};
use crate::collections::{fx_set_contains, fx_set_insert};
use crate::graph::csr::NodeId;
use super::error::CacheError;

verus! {

/// `n` rounded up to a multiple of `align`.
pub open spec fn rounded_up(n: int, align: int) -> int {
    (n + align - 1) / align * align
}

/// What the spill tier knows of its file.
#[verifier::ext_equal]
pub struct NvmeView {
    pub dim: nat,
    /// Distance of records in the file.
    pub record_bytes: nat,
    /// Whole records are transferred, not only what they hold.
    pub direct_io: bool,
    /// The nodes that have a record.
    pub present: Set<u32>,
}

impl NvmeView {
    /// Bytes of features in a record.
    pub open spec fn payload_bytes(self) -> nat {
        self.dim * 4
    }

    /// Bytes of a transfer.
    pub open spec fn transfer_bytes(self) -> nat {
        if self.direct_io {
            self.record_bytes
        } else {
            self.payload_bytes()
        }
    }

    /// Where the record of a node starts.
    pub open spec fn slot(self, node: u32) -> int {
        node * self.record_bytes
    }

    /// The bytes that are written for a row.
    pub open spec fn record(self, row: Seq<u32>) -> Seq<u8> {
        u32s_le(row) + Seq::new(
            (self.transfer_bytes() - self.payload_bytes()) as nat,
            |i: int| 0u8,
        )
    }

    /// The row that bytes read from a record hold.
    pub open spec fn row_of(self, record: Seq<u8>) -> Seq<u32> {
        u32s_at(record, 0, self.dim)
    }

    /// Places of the nodes that have a record, among the first `n` of the list.
    pub open spec fn hits(self, nodes: Seq<u32>, n: int) -> Seq<int>
        decreases n,
    {
        if n <= 0 {
            Seq::empty()
        } else if self.present.contains(nodes[n - 1]) {
            self.hits(nodes, n - 1).push(n - 1)
        } else {
            self.hits(nodes, n - 1)
        }
    }
}

/// Single-file spill tier.
pub struct NvmeTier {
    dim: usize,
    payload_bytes: usize,
    record_bytes: usize,
    direct_io: bool,
    present: FxHashSet<u32>,
}

impl View for NvmeTier {
    type V = NvmeView;

    closed spec fn view(&self) -> NvmeView {
        NvmeView {
            dim: self.dim as nat,
            record_bytes: self.record_bytes as nat,
            direct_io: self.direct_io,
            present: self.present@,
        }
    }
}

impl NvmeTier {
    /// A record has room for a row.
    pub closed spec fn wf(&self) -> bool {
        &&& self.payload_bytes == self.dim * 4
        &&& self.payload_bytes <= self.record_bytes
    }

    /// A record has room for a row.
    pub proof fn law_records_have_room(&self)
        requires
            self.wf(),
        ensures
            self@.payload_bytes() <= self@.record_bytes <= usize::MAX,
            self@.payload_bytes() <= self@.transfer_bytes(),
    {
    }

    /// A tier without records, for rows of `dim` values in a file whose transfers
    /// go in multiples of `align` bytes.
    pub fn open(dim: usize, align: usize, direct_io: bool) -> (r: Result<NvmeTier, CacheError>)
        requires
            align > 0,
            dim * 4 <= usize::MAX ==> rounded_up(dim * 4, align as int) <= usize::MAX,
        ensures
            match r {
                Ok(t) => {
                    &&& dim * 4 <= usize::MAX
                    &&& t.wf()
                    &&& t@ == (NvmeView {
                        dim: dim as nat,
                        record_bytes: rounded_up(dim * 4, align as int) as nat,
                        direct_io,
                        present: Set::empty(),
                    })
                },
                Err(e) => dim * 4 > usize::MAX && e == (CacheError::RecordOverflow { dim }),
            },
    {
        let payload_bytes: usize = match dim.checked_mul(4) {
            Some(n) => n,
            None => {
                return Err(CacheError::RecordOverflow { dim });
            },
        };
        proof {
            lemma_rounded_up(payload_bytes as int, align as int);
        }
        let rest: usize = payload_bytes % align;
        let record_bytes: usize = if rest == 0 {
            payload_bytes
        } else {
            payload_bytes + (align - rest)
        };
        Ok(
            NvmeTier {
                dim,
                payload_bytes,
                record_bytes,
                direct_io,
                present: FxHashSet::default(),
            },
        )
    }

    /// Where the record of a node starts in the file.
    pub fn slot(&self, node: NodeId) -> (at: u64)
        requires
            self.wf(),
            self@.slot(node) <= u64::MAX,
        ensures
            at == self@.slot(node),
    {
        node as u64 * self.record_bytes as u64
    }

    /// Bytes from one record to the next.
    pub fn record_bytes(&self) -> (n: usize)
        ensures
            n == self@.record_bytes,
    {
        self.record_bytes
    }

    /// Bytes to read or write for one record.
    pub fn transfer_bytes(&self) -> (n: usize)
        requires
            self.wf(),
        ensures
            n == self@.transfer_bytes(),
    {
        if self.direct_io {
            self.record_bytes
        } else {
            self.payload_bytes
        }
    }

    /// Whether a node has a record.
    pub fn contains(&self, node: NodeId) -> (b: bool)
        ensures
            b == self@.present.contains(node),
    {
        fx_set_contains(&self.present, node)
    }

    /// Notes that the record of a node has been written.
    pub fn mark_present(&mut self, node: NodeId)
        requires
            old(self).wf(),
        ensures
            final(self).wf(),
            final(self)@ == (NvmeView { present: old(self)@.present.insert(node), ..old(self)@ }),
    {
        let _ = fx_set_insert(&mut self.present, node);
    }

    /// The bytes to write for a row.
    pub fn encode_record(&self, row: &[u32]) -> (record: Vec<u8>)
        requires
            self.wf(),
            row@.len() == self@.dim,
        ensures
            record@ == self@.record(row@),
            record@.len() == self@.transfer_bytes(),
    {
        let mut record: Vec<u8> = Vec::new();
        push_u32s(&mut record, row);
        let n: usize = self.transfer_bytes();
        push_zeros(&mut record, n - self.payload_bytes);
        proof {
            assert(record@ =~= self@.record(row@));
        }
        record
    }

    /// The row that bytes read from a record hold.
    pub fn decode_record(&self, record: &[u8]) -> (row: Vec<u32>)
        requires
            self.wf(),
            record@.len() >= self@.payload_bytes(),
        ensures
            row@ == self@.row_of(record@),
            row@.len() == self@.dim,
    {
        read_u32s(record, 0, self.dim)
    }

    /// The nodes of a batch that have a record, each with its place in the batch.
    pub fn load_plan(&self, nodes: &[NodeId]) -> (hits: Vec<(usize, NodeId)>)
        ensures
            hits@.len() == self@.hits(nodes@, nodes@.len() as int).len(),
            forall|k: int|
                0 <= k < hits@.len() ==> (#[trigger] hits@[k]).0 == self@.hits(
                    nodes@,
                    nodes@.len() as int,
                )[k] && hits@[k].0 < nodes@.len() && hits@[k].1 == nodes@[hits@[k].0 as int],
    {
        let mut hits: Vec<(usize, NodeId)> = Vec::new();
        let mut i: usize = 0;
        while i < nodes.len()
            invariant
                i <= nodes@.len(),
                hits@.len() == self@.hits(nodes@, i as int).len(),
                forall|k: int|
                    0 <= k < hits@.len() ==> (#[trigger] hits@[k]).0 == self@.hits(
                        nodes@,
                        i as int,
                    )[k] && hits@[k].0 < i && hits@[k].1 == nodes@[hits@[k].0 as int],
            decreases nodes@.len() - i,
        {
            if fx_set_contains(&self.present, nodes[i]) {
                hits.push((i, nodes[i]));
            }
            i += 1;
        }
        hits
    }

    /// Puts the records that were read for a plan back into the order of the
    /// batch; nodes without a record stay empty.
    pub fn place_loaded(&self, count: usize, hits: &[(usize, NodeId)], records: &Vec<Vec<u8>>) -> (out:
        Vec<Option<Vec<u32>>>)
        requires
            self.wf(),
            records@.len() == hits@.len(),
            forall|k: int| 0 <= k < hits@.len() ==> (#[trigger] hits@[k]).0 < count,
            forall|j: int, k: int|
                0 <= j < k < hits@.len() ==> (#[trigger] hits@[j]).0 < (#[trigger] hits@[k]).0,
            forall|k: int|
                0 <= k < records@.len() ==> (#[trigger] records@[k])@.len()
                    >= self@.payload_bytes(),
        ensures
            out@.len() == count,
            forall|k: int|
                0 <= k < hits@.len() ==> out@[(#[trigger] hits@[k]).0 as int] is Some
                    && out@[hits@[k].0 as int]->0@ == self@.row_of(records@[k]@),
            forall|i: int|
                0 <= i < count && (forall|k: int|
                    0 <= k < hits@.len() ==> (#[trigger] hits@[k]).0 != i) ==> (
                #[trigger] out@[i]) is None,
    {
        let mut out: Vec<Option<Vec<u32>>> = Vec::new();
        let mut i: usize = 0;
        while i < count
            invariant
                i <= count,
                out@.len() == i,
                forall|j: int| 0 <= j < i ==> (#[trigger] out@[j]) is None,
            decreases count - i,
        {
            out.push(None);
            i += 1;
        }
        let mut k: usize = 0;
        while k < hits.len()
            invariant
                self.wf(),
                k <= hits@.len(),
                records@.len() == hits@.len(),
                out@.len() == count,
                forall|k: int| 0 <= k < hits@.len() ==> (#[trigger] hits@[k]).0 < count,
                forall|j: int, k: int|
                    0 <= j < k < hits@.len() ==> (#[trigger] hits@[j]).0 < (#[trigger] hits@[k]).0,
                forall|k: int|
                    0 <= k < records@.len() ==> (#[trigger] records@[k])@.len()
                        >= self@.payload_bytes(),
                forall|j: int|
                    0 <= j < k ==> out@[(#[trigger] hits@[j]).0 as int] is Some
                        && out@[hits@[j].0 as int]->0@ == self@.row_of(records@[j]@),
                forall|i: int|
                    0 <= i < count && (forall|j: int|
                        0 <= j < k ==> (#[trigger] hits@[j]).0 != i) ==> (
                    #[trigger] out@[i]) is None,
            decreases hits@.len() - k,
        {
            let ghost before = out@;
            let at: usize = hits[k].0;
            assert(records@[k as int]@.len() >= self@.payload_bytes());
            let row = self.decode_record(records[k].as_slice());
            out.set(at, Some(row));
            proof {
                assert forall|j: int| 0 <= j < k + 1 implies out@[(#[trigger] hits@[j]).0 as int] is Some
                    && out@[hits@[j].0 as int]->0@ == self@.row_of(records@[j]@) by {
                    if j < k {
                        assert(hits@[j].0 < hits@[k as int].0);
                        assert(before[hits@[j].0 as int] is Some);
                    }
                }
                assert forall|i: int|
                    0 <= i < count && (forall|j: int|
                        0 <= j < k + 1 ==> (#[trigger] hits@[j]).0 != i) implies (
                #[trigger] out@[i]) is None by {
                    assert(hits@[k as int].0 != i);
                    assert(before[i] is None);
                }
            }
            k += 1;
        }
        out
    }
}

proof fn lemma_rounded_up(n: int, align: int)
    requires
        0 <= n,
        0 < align,
    ensures
        n <= rounded_up(n, align),
        rounded_up(n, align) == (if n % align == 0 {
            n
        } else {
            n + (align - n % align)
        }),
        rounded_up(n, align) % align == 0,
{
    let q = n / align;
    let r = n % align;
    vstd::arithmetic::div_mod::lemma_fundamental_div_mod(n, align);
    let up = (n + align - 1) / align;
    if r == 0 {
        vstd::arithmetic::div_mod::lemma_fundamental_div_mod_converse(
            n + align - 1,
            align,
            q,
            align - 1,
        );
        assert(q * align == align * q) by (nonlinear_arith);
    } else {
        assert(n + align - 1 == align * (q + 1) + (r - 1)) by (nonlinear_arith)
            requires
                n == align * q + r,
        ;
        assert((q + 1) * align == align * (q + 1)) by (nonlinear_arith);
        vstd::arithmetic::div_mod::lemma_fundamental_div_mod_converse(
            n + align - 1,
            align,
            q + 1,
            r - 1,
        );
        assert(align * (q + 1) == align * q + align) by (nonlinear_arith);
    }
    vstd::arithmetic::div_mod::lemma_mod_multiples_basic(up, align);
}

/// A record gives back the row that it was written for.
pub proof fn law_record_round_trip(v: NvmeView, row: Seq<u32>)
    requires
        row.len() == v.dim,
        v.payload_bytes() <= v.transfer_bytes(),
    ensures
        v.row_of(v.record(row)) == row,
{
    lemma_u32s_round_trip(v.record(row), 0, row);
}

/// Records of different nodes do not overlap, whichever bytes of them are
/// transferred.
pub proof fn law_slots_are_disjoint(v: NvmeView, a: u32, b: u32)
    requires
        v.payload_bytes() <= v.record_bytes,
        a < b,
    ensures
        v.slot(a) + v.transfer_bytes() <= v.slot(b),
{
    assert(a * v.record_bytes + v.record_bytes <= b * v.record_bytes) by (nonlinear_arith)
        requires
            a + 1 <= b,
    ;
}

/// With aligned records every slot starts at a multiple of the alignment.
pub proof fn law_slots_are_aligned(v: NvmeView, align: nat, node: u32)
    requires
        align > 0,
        v.record_bytes == rounded_up(v.payload_bytes() as int, align as int),
    ensures
        v.slot(node) % align as int == 0,
        v.record_bytes % align == 0,
{
    lemma_rounded_up(v.payload_bytes() as int, align as int);
    let q = v.record_bytes / align;
    vstd::arithmetic::div_mod::lemma_fundamental_div_mod(v.record_bytes as int, align as int);
    assert(node * v.record_bytes == (node * q) * align) by (nonlinear_arith)
        requires
            v.record_bytes == align * q,
    ;
    vstd::arithmetic::div_mod::lemma_mod_multiples_basic(node * q, align as int);
}

/// Records are the least multiple of the alignment that holds a row.
pub proof fn law_rounding_up_is_least(n: int, align: int)
    requires
        0 <= n,
        0 < align,
    ensures
        n <= rounded_up(n, align) < n + align,
        rounded_up(n, align) % align == 0,
{
    lemma_rounded_up(n, align);
    vstd::arithmetic::div_mod::lemma_mod_bound(n, align);
}

/// A record is the row's words in little-endian bytes, with zeros behind them up to the size of
/// a transfer: the whole record with direct input and output, the row alone
/// without. The record of a node stands at the node's multiple of the record size.
pub proof fn law_record_layout(v: NvmeView, row: Seq<u32>, node: u32)
    requires
        row.len() == v.dim,
        v.dim * 4 <= v.record_bytes,
    ensures
        v.direct_io ==> v.record(row).len() == v.record_bytes,
        !v.direct_io ==> v.record(row).len() == v.dim * 4,
        v.record(row).take(v.dim as int * 4) == u32s_le(row),
        forall|i: int| v.dim * 4 <= i < v.record(row).len() ==> v.record(row)[i] == 0,
        v.slot(node) == node * v.record_bytes,
{
    assert(v.record(row).take(v.dim as int * 4) =~= u32s_le(row));
}

/// The load plan of a batch names exactly the places of the nodes that have a
/// record, in ascending order.
pub proof fn law_plan_names_present_nodes(v: NvmeView, nodes: Seq<u32>)
    ensures
        ({
            let hits = v.hits(nodes, nodes.len() as int);
            &&& forall|i: int, j: int| 0 <= i < j < hits.len() ==> hits[i] < hits[j]
            &&& forall|i: int| #[trigger]
                hits.contains(i) <==> 0 <= i < nodes.len() && v.present.contains(nodes[i])
        }),
{
    lemma_hits(v, nodes, nodes.len() as int);
}

proof fn lemma_hits(v: NvmeView, nodes: Seq<u32>, n: int)
    requires
        0 <= n <= nodes.len(),
    ensures
        ({
            let hits = v.hits(nodes, n);
            &&& forall|i: int, j: int| 0 <= i < j < hits.len() ==> hits[i] < hits[j]
            &&& forall|i: int| 0 <= i < hits.len() ==> hits[i] < n
            &&& forall|i: int| #[trigger]
                hits.contains(i) <==> 0 <= i < n && v.present.contains(nodes[i])
        }),
    decreases n,
{
    if n > 0 {
        lemma_hits(v, nodes, n - 1);
        let before = v.hits(nodes, n - 1);
        let hits = v.hits(nodes, n);
        assert forall|i: int| #[trigger]
            hits.contains(i) <==> 0 <= i < n && v.present.contains(nodes[i]) by {
            if hits.contains(i) {
                let k = choose|k: int| 0 <= k < hits.len() && hits[k] == i;
                if k < before.len() {
                    assert(before[k] == i);
                    assert(before.contains(i));
                }
            }
            if 0 <= i < n && v.present.contains(nodes[i]) {
                if i < n - 1 {
                    assert(before.contains(i));
                    let k = choose|k: int| 0 <= k < before.len() && before[k] == i;
                    assert(hits[k] == i);
                } else {
                    assert(hits[hits.len() - 1] == i);
                }
            }
        }
    }
}

} // verus!
