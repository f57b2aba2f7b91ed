//! Gathering feature rows with one read per row.
//!
//! Each read brings one row of a file to a slot of a landing buffer. Slots stand a
//! fixed stride apart, which is at least a row.
use vstd::prelude::*;
use vstd::string::StringExecFns;
use crate::graph::csr::NodeId;
use crate::text::{decimal, label_pair, lemma_tells_two, tells};
use super::header::{lemma_row_inside, row_at, FeatureDtype};
use super::store::StoreView;

verus! {

/// One read: where the row starts in the file, where it lands in the buffer, and
/// how many bytes it has.
#[derive(Debug, Clone, Copy, PartialEq, Eq, Structural)]
pub struct RowRead {
    pub offset: u64,
    pub at: usize,
    pub len: usize,
}

/// Why reads could not be planned.
#[derive(Debug, Clone, Copy, PartialEq, Eq, Structural)]
pub enum GatherError {
    /// A row is at no file position.
    OffsetOverflow,
    /// The rows are too many for a buffer.
    BufferOverflow { nodes: usize, bytes: usize },
}

impl GatherError {
    /// The text of the message.
    pub open spec fn text(self) -> Seq<char> {
        match self {
            GatherError::OffsetOverflow => "file offset overflow"@,
            GatherError::BufferOverflow { nodes, bytes } => "buffer size overflow: "@ + decimal(
                nodes as nat,
            ) + " nodes * "@ + decimal(bytes as nat) + " bytes"@,
        }
    }

    /// Describes the error.
    pub fn message(&self) -> (s: String)
        ensures
            s@ == self.text(),
    {
        match *self {
            GatherError::OffsetOverflow => String::from_str("file offset overflow"),
            GatherError::BufferOverflow { nodes, bytes } => {
                let mut s = label_pair(
                    "buffer size overflow: ",
                    nodes as u64,
                    " nodes * ",
                    bytes as u64,
                );
                s.append(" bytes");
                s
            },
        }
    }
}

/// Where the row of a node starts in a file.
pub open spec fn row_offset(start: u64, row_bytes: usize, node: u32) -> int {
    start + node * row_bytes
}

/// The reads that gather `nodes`.
pub open spec fn gathers(
    reads: Seq<RowRead>,
    nodes: Seq<u32>,
    start: u64,
    row_bytes: usize,
    stride: usize,
) -> bool {
    &&& reads.len() == nodes.len()
    &&& forall|i: int|
        0 <= i < reads.len() ==> (#[trigger] reads[i]).offset == row_offset(
            start,
            row_bytes,
            nodes[i],
        ) && reads[i].at == i * stride && reads[i].len == row_bytes
}

/// Every row is at a file position.
pub open spec fn offsets_fit(nodes: Seq<u32>, start: u64, row_bytes: usize) -> bool {
    forall|i: int|
        0 <= i < nodes.len() ==> row_offset(start, row_bytes, #[trigger] nodes[i]) <= u64::MAX
}

/// Plans one read per node. Fails where the slots are too many for a buffer, or
/// where a row is at no file position.
pub fn plan_rows(nodes: &[NodeId], start: u64, row_bytes: usize, stride: usize) -> (r: Result<
    Vec<RowRead>,
    GatherError,
>)
    ensures
        match r {
            Ok(reads) => {
                &&& nodes@.len() * stride <= usize::MAX
                &&& offsets_fit(nodes@, start, row_bytes)
                &&& gathers(reads@, nodes@, start, row_bytes, stride)
            },
            Err(e) => if nodes@.len() * stride > usize::MAX {
                e == (GatherError::BufferOverflow { nodes: nodes@.len() as usize, bytes: stride })
            } else {
                !offsets_fit(nodes@, start, row_bytes) && e == GatherError::OffsetOverflow
            },
        },
{
    let count: usize = nodes.len();
    let total: usize = match count.checked_mul(stride) {
        Some(n) => n,
        None => {
            return Err(GatherError::BufferOverflow { nodes: count, bytes: stride });
        },
    };
    let mut reads: Vec<RowRead> = Vec::new();
    let mut i: usize = 0;
    let mut at: usize = 0;
    assert(0 * stride == 0) by (nonlinear_arith);
    while i < count
        invariant
            i <= count,
            count == nodes@.len(),
            total == count * stride,
            at == i * stride,
            reads@.len() == i,
            forall|k: int|
                0 <= k < i ==> (#[trigger] reads@[k]).offset == row_offset(
                    start,
                    row_bytes,
                    nodes@[k],
                ) && reads@[k].at == k * stride && reads@[k].len == row_bytes,
            forall|k: int|
                0 <= k < i ==> row_offset(start, row_bytes, #[trigger] nodes@[k]) <= u64::MAX,
        decreases count - i,
    {
        let node: u32 = nodes[i];
        assert(row_offset(start, row_bytes, nodes@[i as int]) == start + node * row_bytes);
        let into: u64 = match (node as u64).checked_mul(row_bytes as u64) {
            Some(n) => n,
            None => {
                return Err(GatherError::OffsetOverflow);
            },
        };
        let offset: u64 = match start.checked_add(into) {
            Some(n) => n,
            None => {
                return Err(GatherError::OffsetOverflow);
            },
        };
        reads.push(RowRead { offset, at, len: row_bytes });
        proof {
            lemma_row_inside(i as int, count as int, stride as int);
            assert((i + 1) * stride == i * stride + stride) by (nonlinear_arith);
        }
        at += stride;
        i += 1;
    }
    Ok(reads)
}

/// The rows that have landed in the first `count` slots, one after the other.
pub open spec fn landed(b: Seq<u8>, stride: int, dtype: FeatureDtype, dim: nat, count: nat) -> Seq<
    u32,
>
    decreases count,
{
    if count == 0 {
        Seq::empty()
    } else {
        landed(b, stride, dtype, dim, (count - 1) as nat) + row_at(
            b,
            dtype,
            (count - 1) * stride,
            dim,
        )
    }
}

/// Decodes the rows that have landed in the first `count` slots.
pub fn decode_rows(b: &[u8], stride: usize, dtype: FeatureDtype, dim: usize, count: usize) -> (out:
    Vec<u32>)
    requires
        dim * dtype.size() <= stride,
        count * stride <= b@.len(),
    ensures
        out@ == landed(b@, stride as int, dtype, dim as nat, count as nat),
{
    let len: usize = b.len();
    let mut out: Vec<u32> = Vec::new();
    let mut i: usize = 0;
    let mut at: usize = 0;
    assert(0 * stride == 0) by (nonlinear_arith);
    while i < count
        invariant
            i <= count,
            len == b@.len(),
            at == i * stride,
            dim * dtype.size() <= stride,
            count * stride <= b@.len(),
            out@ == landed(b@, stride as int, dtype, dim as nat, i as nat),
        decreases count - i,
    {
        proof {
            lemma_row_inside(i as int, count as int, stride as int);
            assert((i + 1) * stride == i * stride + stride) by (nonlinear_arith);
        }
        dtype.push_row(b, at, dim, &mut out);
        at += stride;
        i += 1;
    }
    out
}

/// Gathered rows are the rows of the file: where every slot holds what its read
/// brings, decoding the slots gives the features of the nodes in the order of the
/// list.
pub proof fn law_gather_reads_the_rows(
    file: Seq<u8>,
    start: u64,
    view: StoreView,
    nodes: Seq<u32>,
    reads: Seq<RowRead>,
    stride: usize,
    b: Seq<u8>,
)
    requires
        view.wf(),
        view.has_all(nodes),
        0 <= view.row_bytes() <= stride,
        start + view.payload.len() <= file.len(),
        view.payload == file.subrange(start as int, start + view.payload.len()),
        gathers(reads, nodes, start, view.row_bytes() as usize, stride),
        nodes.len() * stride <= b.len(),
        forall|i: int|
            0 <= i < reads.len() ==> b.subrange(
                (#[trigger] reads[i]).at as int,
                reads[i].at + reads[i].len,
            ) == file.subrange(reads[i].offset as int, reads[i].offset + reads[i].len),
    ensures
        landed(b, stride as int, view.dtype, view.feature_dim, nodes.len()) == view.rows(nodes),
    decreases nodes.len(),
{
    if nodes.len() > 0 {
        let rest = nodes.drop_last();
        let fewer = reads.drop_last();
        let i = nodes.len() - 1;
        assert forall|k: int| 0 <= k < fewer.len() implies b.subrange(
            (#[trigger] fewer[k]).at as int,
            fewer[k].at + fewer[k].len,
        ) == file.subrange(fewer[k].offset as int, fewer[k].offset + fewer[k].len) && fewer[k].offset
            == row_offset(start, view.row_bytes() as usize, rest[k]) && fewer[k].at == k * stride
            && fewer[k].len == view.row_bytes() as usize by {
            assert(fewer[k] == reads[k]);
            assert(rest[k] == nodes[k]);
        }
        assert forall|k: int| 0 <= k < rest.len() implies (#[trigger] rest[k])
            < view.num_nodes by {
            assert(rest[k] == nodes[k]);
        }
        assert((nodes.len() - 1) * stride <= nodes.len() * stride) by (nonlinear_arith)
            requires
                stride >= 0,
        ;
        law_gather_reads_the_rows(file, start, view, rest, fewer, stride, b);
        let n = nodes[i];
        let rb = view.row_bytes();
        let at = i * stride;
        assert(reads[i].at == at);
        lemma_row_inside(n as int, view.num_nodes as int, rb);
        lemma_row_inside(i, nodes.len() as int, stride as int);
        let from = b.subrange(at, at + rb);
        let to = view.payload.subrange(n * rb, n * rb + rb);
        assert(from == file.subrange(start + n * rb, start + n * rb + rb));
        assert(to =~= file.subrange(start + n * rb, start + n * rb + rb));
        lemma_row_of_bytes(b, at, view.payload, n * rb, view.dtype, view.feature_dim);
        assert(nodes.last() == n);
    }
}

/// Rows of equal bytes are equal.
proof fn lemma_row_of_bytes(
    a: Seq<u8>,
    from: int,
    b: Seq<u8>,
    to: int,
    dtype: FeatureDtype,
    dim: nat,
)
    requires
        0 <= from,
        from + dim * dtype.size() <= a.len(),
        0 <= to,
        to + dim * dtype.size() <= b.len(),
        a.subrange(from, from + dim * dtype.size()) == b.subrange(to, to + dim * dtype.size()),
    ensures
        row_at(a, dtype, from, dim) == row_at(b, dtype, to, dim),
{
    let size = dtype.size();
    let x = a.subrange(from, from + dim * size);
    let y = b.subrange(to, to + dim * size);
    assert forall|j: int| 0 <= j < dim implies #[trigger] row_at(a, dtype, from, dim)[j] == row_at(
        b,
        dtype,
        to,
        dim,
    )[j] by {
        assert(0 <= j * size && j * size + size <= dim * size) by (nonlinear_arith)
            requires
                0 <= j,
                j + 1 <= dim,
                size > 0,
        ;
        let o = j * size;
        assert(x[o] == y[o] && x[o + 1] == y[o + 1]);
        assert(a[from + o] == b[to + o] && a[from + o + 1] == b[to + o + 1]);
        if size == 4 {
            assert(x[o + 2] == y[o + 2] && x[o + 3] == y[o + 3]);
            assert(a[from + o + 2] == b[to + o + 2]);
            assert(a[from + o + 3] == b[to + o + 3]);
        }
    }
    assert(row_at(a, dtype, from, dim) =~= row_at(b, dtype, to, dim));
}

/// Rows can be read from the device itself: the payload and its rows are made up of
/// whole blocks, every row lies in one extent, and no row is larger than a transfer.
pub open spec fn device_readable(
    start: u64,
    row_bytes: usize,
    block: u64,
    max_transfer: u32,
    resolved: Seq<Option<u64>>,
) -> bool {
    &&& start % block == 0
    &&& row_bytes as u64 % block == 0
    &&& row_bytes <= max_transfer
    &&& forall|i: int| 0 <= i < resolved.len() ==> (#[trigger] resolved[i]) is Some
}

/// Plans reads from the device itself, given where on the device the rows are.
/// Without a plan the rows are read from the file.
pub fn plan_device_rows(
    start: u64,
    row_bytes: usize,
    block: u64,
    max_transfer: u32,
    resolved: &[Option<u64>],
    stride: usize,
) -> (plan: Option<Vec<RowRead>>)
    requires
        block > 0,
        resolved@.len() * stride <= usize::MAX,
    ensures
        match plan {
            Some(reads) => {
                &&& device_readable(start, row_bytes, block, max_transfer, resolved@)
                &&& reads@.len() == resolved@.len()
                &&& forall|i: int|
                    0 <= i < reads@.len() ==> resolved@[i] == Some((#[trigger] reads@[i]).offset)
                        && reads@[i].at == i * stride && reads@[i].len == row_bytes
            },
            None => !device_readable(start, row_bytes, block, max_transfer, resolved@),
        },
{
    if start % block != 0 || row_bytes as u64 % block != 0 {
        return None;
    }
    let mut reads: Vec<RowRead> = Vec::new();
    let mut i: usize = 0;
    let mut at: usize = 0;
    assert(0 * stride == 0) by (nonlinear_arith);
    while i < resolved.len()
        invariant
            i <= resolved@.len(),
            resolved@.len() * stride <= usize::MAX,
            at == i * stride,
            reads@.len() == i,
            forall|k: int|
                0 <= k < i ==> resolved@[k] == Some((#[trigger] reads@[k]).offset) && reads@[k].at
                    == k * stride && reads@[k].len == row_bytes,
        decreases resolved@.len() - i,
    {
        match resolved[i] {
            Some(offset) => {
                proof {
                    lemma_row_inside(i as int, resolved@.len() as int, stride as int);
                    assert((i + 1) * stride == i * stride + stride) by (nonlinear_arith);
                }
                reads.push(RowRead { offset, at, len: row_bytes });
                at += stride;
            },
            None => {
                assert(resolved@[i as int] is None);
                return None;
            },
        }
        i += 1;
    }
    assert forall|k: int| 0 <= k < resolved@.len() implies (#[trigger] resolved@[k]) is Some by {
        assert(resolved@[k] == Some(reads@[k].offset));
    }
    if row_bytes as u64 > max_transfer as u64 {
        return None;
    }
    Some(reads)
}

/// Rows that landed stand one behind the other, each read where its slot starts.
pub proof fn law_landed_rows_keep_the_order(
    b: Seq<u8>,
    stride: int,
    dtype: FeatureDtype,
    dim: nat,
    count: nat,
    i: int,
)
    requires
        0 <= i < count,
    ensures
        landed(b, stride, dtype, dim, count).len() == count * dim,
        0 <= i * dim <= i * dim + dim <= count * dim,
        landed(b, stride, dtype, dim, count).subrange(i * dim, i * dim + dim) == row_at(
            b,
            dtype,
            i * stride,
            dim,
        ),
    decreases count,
{
    let all = landed(b, stride, dtype, dim, count);
    let before = landed(b, stride, dtype, dim, (count - 1) as nat);
    lemma_landed_len(b, stride, dtype, dim, (count - 1) as nat);
    assert(count * dim == (count - 1) * dim + dim) by (nonlinear_arith);
    if i < count - 1 {
        law_landed_rows_keep_the_order(b, stride, dtype, dim, (count - 1) as nat, i);
        assert(all.subrange(i * dim, i * dim + dim) =~= before.subrange(i * dim, i * dim + dim));
    } else {
        assert(0 <= i * dim) by (nonlinear_arith)
            requires
                0 <= i,
        ;
        assert(all.subrange(i * dim, i * dim + dim) =~= row_at(b, dtype, i * stride, dim));
    }
}

proof fn lemma_landed_len(b: Seq<u8>, stride: int, dtype: FeatureDtype, dim: nat, count: nat)
    ensures
        landed(b, stride, dtype, dim, count).len() == count * dim,
    decreases count,
{
    if count > 0 {
        lemma_landed_len(b, stride, dtype, dim, (count - 1) as nat);
        assert(count * dim == (count - 1) * dim + dim) by (nonlinear_arith);
    } else {
        assert(count * dim == 0) by (nonlinear_arith)
            requires
                count == 0,
        ;
    }
}

/// A gather reads the row of every node from its place in the file into the slot
/// of the node's place in the list.
pub proof fn law_gather_plan(
    reads: Seq<RowRead>,
    nodes: Seq<u32>,
    start: u64,
    row_bytes: usize,
    stride: usize,
    i: int,
)
    requires
        gathers(reads, nodes, start, row_bytes, stride),
        0 <= i < nodes.len(),
    ensures
        reads.len() == nodes.len(),
        reads[i].offset == start + nodes[i] * row_bytes,
        reads[i].at == i * stride,
        reads[i].len == row_bytes,
{
}

/// A device can read the rows by itself exactly if the payload starts at a block,
/// rows are whole blocks and no longer than one transfer, and all places are
/// known.
pub proof fn law_device_reads_whole_blocks(
    start: u64,
    row_bytes: usize,
    block: u64,
    max_transfer: u32,
    resolved: Seq<Option<u64>>,
)
    requires
        block > 0,
    ensures
        device_readable(start, row_bytes, block, max_transfer, resolved) <==> {
            &&& start as int % block as int == 0
            &&& row_bytes as int % block as int == 0
            &&& row_bytes <= max_transfer
            &&& forall|i: int| 0 <= i < resolved.len() ==> (#[trigger] resolved[i]) is Some
        },
{
}

/// A message tells the numbers of its error, in this order.
pub proof fn law_gather_messages_tell_their_numbers(e: GatherError)
    ensures
        match e {
            GatherError::BufferOverflow { nodes, bytes } => tells(
                e.text(),
                seq![decimal(nodes as nat), decimal(bytes as nat)],
            ),
            _ => true,
        },
{
    match e {
        GatherError::BufferOverflow { nodes, bytes } => {
            lemma_tells_two(
                e.text(),
                "buffer size overflow: "@,
                decimal(nodes as nat),
                " nodes * "@,
                decimal(bytes as nat),
                " bytes"@,
            );
        },
        _ => {},
    }
}

} // verus!
