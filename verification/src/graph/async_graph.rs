//! Graph over a file whose edges are read node by node.
//!
//! The offsets are kept in memory; the edges stay in the file. The graph plans reads
//! and decodes what they bring; whoever drives it performs them, in parallel where
//! the platform can.
use vstd::prelude::*;
use vstd::string::StringExecFns;
use crate::bytes::{le4, le8, read_u32, read_u32s, read_u64, read_u64s, u32s_at, u64s_at};
use crate::storage::graph_file::{
    edges_end, graph_file, header_bytes, header_for, header_of, law_header_round_trip, layout_of,
    lemma_file_sections, offsets_end, stored_graph, GraphFileLayout, GraphHeader, HEADER_SIZE,
    MAGIC, MAX_EDGES, MAX_NODES, VERSION,
};
use crate::text::{
    decimal, hexadecimal, label_pair, lemma_tells_four, lemma_tells_one, lemma_tells_three,
    lemma_tells_two, push_decimal, push_hexadecimal, tells,
};
use super::csr::{ascending, EdgeOffset, GraphView, NodeId};

verus! {

/// Why a graph file could not be opened for reading node by node.
#[derive(Debug, Clone, Copy, PartialEq, Eq, Structural)]
pub enum AsyncGraphError {
    /// The file is shorter than a header.
    HeaderUnreadable,
    /// The file does not start with the magic number.
    BadMagic { magic: u32 },
    /// The file has a version that is not taken.
    BadVersion { version: u32 },
    /// The header claims more nodes than any file may have.
    TooManyNodes { nodes: u64 },
    /// The header claims more edges than any file may have.
    TooManyEdges { edges: u64 },
    /// The header claims more nodes than the machine can count.
    NodesDoNotFit,
    /// The header claims more edges than the machine can count.
    EdgesDoNotFit,
    /// The offsets have more bytes than the machine can count.
    OffsetsOverflow,
    /// The file is shorter than its header says.
    Truncated { required: u64, len: u64 },
    /// The offsets could not be read.
    OffsetsUnreadable,
    /// The first offset is not zero.
    FirstOffset,
    /// An offset is greater than the next.
    Descending { at: usize, offset: u64, next_at: usize, next: u64 },
    /// An offset points behind the edges.
    BeyondEdges { at: usize, offset: u64, edges: usize },
    /// The last offset is not the number of edges.
    Tail { offset: u64, edges: usize },
}

impl AsyncGraphError {
    /// The text of the message.
    pub open spec fn text(self) -> Seq<char> {
        match self {
            AsyncGraphError::HeaderUnreadable => "failed to read header"@,
            AsyncGraphError::BadMagic { magic } => "invalid graph magic: expected 0x"@
                + hexadecimal(MAGIC as nat) + ", got 0x"@ + hexadecimal(magic as nat),
            AsyncGraphError::BadVersion { version } => "unsupported graph version: expected "@
                + decimal(VERSION as nat) + ", got "@ + decimal(version as nat),
            AsyncGraphError::TooManyNodes { nodes } => "num_nodes "@ + decimal(nodes as nat)
                + " exceeds maximum "@ + decimal(MAX_NODES as nat),
            AsyncGraphError::TooManyEdges { edges } => "num_edges "@ + decimal(edges as nat)
                + " exceeds maximum "@ + decimal(MAX_EDGES as nat),
            AsyncGraphError::NodesDoNotFit => "num_nodes does not fit in usize"@,
            AsyncGraphError::EdgesDoNotFit => "num_edges does not fit in usize"@,
            AsyncGraphError::OffsetsOverflow => "offsets array size overflow"@,
            AsyncGraphError::Truncated { required, len } =>
                "graph file truncated: expected at least "@ + decimal(required as nat)
                + " bytes, got "@ + decimal(len as nat),
            AsyncGraphError::OffsetsUnreadable => "failed to read offsets"@,
            AsyncGraphError::FirstOffset => "invalid offsets: offsets[0] must be 0"@,
            AsyncGraphError::Descending { at, offset, next_at, next } =>
                "invalid offsets: offsets["@ + decimal(at as nat) + "]="@ + decimal(offset as nat)
                + " > offsets["@ + decimal(next_at as nat) + "]="@ + decimal(next as nat),
            AsyncGraphError::BeyondEdges { at, offset, edges } => "invalid offsets: offsets["@
                + decimal(at as nat) + "]="@ + decimal(offset as nat) + " exceeds num_edges "@
                + decimal(edges as nat),
            AsyncGraphError::Tail { offset, edges } => "invalid offsets tail: offsets[last]="@
                + decimal(offset as nat) + " != num_edges "@ + decimal(edges as nat),
        }
    }

    /// Describes the error.
    pub fn message(&self) -> (s: String)
        ensures
            s@ == self.text(),
    {
        match *self {
            AsyncGraphError::HeaderUnreadable => String::from_str("failed to read header"),
            AsyncGraphError::BadMagic { magic } => {
                let mut s = String::from_str("invalid graph magic: expected 0x");
                push_hexadecimal(&mut s, MAGIC as u64);
                s.append(", got 0x");
                push_hexadecimal(&mut s, magic as u64);
                s
            },
            AsyncGraphError::BadVersion { version } => label_pair(
                "unsupported graph version: expected ",
                VERSION as u64,
                ", got ",
                version as u64,
            ),
            AsyncGraphError::TooManyNodes { nodes } => label_pair(
                "num_nodes ",
                nodes,
                " exceeds maximum ",
                MAX_NODES,
            ),
            AsyncGraphError::TooManyEdges { edges } => label_pair(
                "num_edges ",
                edges,
                " exceeds maximum ",
                MAX_EDGES,
            ),
            AsyncGraphError::NodesDoNotFit => String::from_str("num_nodes does not fit in usize"),
            AsyncGraphError::EdgesDoNotFit => String::from_str("num_edges does not fit in usize"),
            AsyncGraphError::OffsetsOverflow => String::from_str("offsets array size overflow"),
            AsyncGraphError::Truncated { required, len } => label_pair(
                "graph file truncated: expected at least ",
                required,
                " bytes, got ",
                len,
            ),
            AsyncGraphError::OffsetsUnreadable => String::from_str("failed to read offsets"),
            AsyncGraphError::FirstOffset => String::from_str(
                "invalid offsets: offsets[0] must be 0",
            ),
            AsyncGraphError::Descending { at, offset, next_at, next } => {
                let mut s = label_pair("invalid offsets: offsets[", at as u64, "]=", offset);
                s.append(" > offsets[");
                push_decimal(&mut s, next_at as u64);
                s.append("]=");
                push_decimal(&mut s, next);
                s
            },
            AsyncGraphError::BeyondEdges { at, offset, edges } => {
                let mut s = label_pair("invalid offsets: offsets[", at as u64, "]=", offset);
                s.append(" exceeds num_edges ");
                push_decimal(&mut s, edges as u64);
                s
            },
            AsyncGraphError::Tail { offset, edges } => label_pair(
                "invalid offsets tail: offsets[last]=",
                offset,
                " != num_edges ",
                edges as u64,
            ),
        }
    }
}

/// What the header of a graph file says.
#[derive(Debug, Clone, Copy, PartialEq, Eq, Structural)]
pub struct AsyncGraphHeader {
    pub num_nodes: usize,
    pub num_edges: usize,
    /// Bytes of the offsets, which stand behind the header.
    pub offsets_size: usize,
    /// Where the edges start.
    pub edges_start: u64,
}

/// The header of a file of `size` bytes that starts with `b`, or what is wrong with
/// it.
pub open spec fn async_header_of(b: Seq<u8>, size: u64) -> Result<
    AsyncGraphHeader,
    AsyncGraphError,
> {
    let h = header_of(b);
    if b.len() < HEADER_SIZE {
        Err(AsyncGraphError::HeaderUnreadable)
    } else if h.magic != MAGIC {
        Err(AsyncGraphError::BadMagic { magic: h.magic })
    } else if h.version != VERSION {
        Err(AsyncGraphError::BadVersion { version: h.version })
    } else if h.num_nodes > MAX_NODES {
        Err(AsyncGraphError::TooManyNodes { nodes: h.num_nodes })
    } else if h.num_edges > MAX_EDGES {
        Err(AsyncGraphError::TooManyEdges { edges: h.num_edges })
    } else if h.num_nodes > usize::MAX {
        Err(AsyncGraphError::NodesDoNotFit)
    } else if h.num_edges > usize::MAX {
        Err(AsyncGraphError::EdgesDoNotFit)
    } else if 8 * (h.num_nodes + 1) > usize::MAX {
        Err(AsyncGraphError::OffsetsOverflow)
    } else if size < edges_end(h.num_nodes as int, h.num_edges as int) {
        Err(
            AsyncGraphError::Truncated {
                required: edges_end(h.num_nodes as int, h.num_edges as int) as u64,
                len: size,
            },
        )
    } else {
        Ok(
            AsyncGraphHeader {
                num_nodes: h.num_nodes as usize,
                num_edges: h.num_edges as usize,
                offsets_size: (8 * (h.num_nodes + 1)) as usize,
                edges_start: offsets_end(h.num_nodes as int) as u64,
            },
        )
    }
}

impl AsyncGraphHeader {
    /// The sizes follow from the counts.
    pub open spec fn wf(self) -> bool {
        &&& self.num_nodes <= MAX_NODES
        &&& self.num_edges <= MAX_EDGES
        &&& self.offsets_size == 8 * (self.num_nodes + 1)
        &&& self.edges_start == offsets_end(self.num_nodes as int)
    }

    /// Reads and checks the header of a file of `file_size` bytes that starts with
    /// `prefix`.
    pub fn parse(prefix: &[u8], file_size: u64) -> (r: Result<AsyncGraphHeader, AsyncGraphError>)
        ensures
            r == async_header_of(prefix@, file_size),
            r matches Ok(h) ==> h.wf(),
    {
        if prefix.len() < HEADER_SIZE {
            return Err(AsyncGraphError::HeaderUnreadable);
        }
        let magic = read_u32(prefix, 0);
        let version = read_u32(prefix, 4);
        if magic != MAGIC {
            return Err(AsyncGraphError::BadMagic { magic });
        }
        if version != VERSION {
            return Err(AsyncGraphError::BadVersion { version });
        }
        let nodes = read_u64(prefix, 8);
        let edges = read_u64(prefix, 16);
        if nodes > MAX_NODES {
            return Err(AsyncGraphError::TooManyNodes { nodes });
        }
        if edges > MAX_EDGES {
            return Err(AsyncGraphError::TooManyEdges { edges });
        }
        if nodes > usize::MAX as u64 {
            return Err(AsyncGraphError::NodesDoNotFit);
        }
        if edges > usize::MAX as u64 {
            return Err(AsyncGraphError::EdgesDoNotFit);
        }
        let offsets_size: u64 = 8 * (nodes + 1);
        if offsets_size > usize::MAX as u64 {
            return Err(AsyncGraphError::OffsetsOverflow);
        }
        let edges_start: u64 = HEADER_SIZE as u64 + offsets_size;
        let required: u64 = edges_start + 4 * edges;
        if file_size < required {
            return Err(AsyncGraphError::Truncated { required, len: file_size });
        }
        Ok(
            AsyncGraphHeader {
                num_nodes: nodes as usize,
                num_edges: edges as usize,
                offsets_size: offsets_size as usize,
                edges_start,
            },
        )
    }
}

/// An offset is no greater than the next, which does not point behind the edges.
pub open spec fn step_ok(offsets: Seq<u64>, edges: int, i: int) -> bool {
    offsets[i] <= offsets[i + 1] && offsets[i + 1] <= edges
}

/// The first offset that is not in order.
pub open spec fn first_bad_step(offsets: Seq<u64>, edges: int, i: int) -> bool {
    &&& 0 <= i < offsets.len() - 1
    &&& !step_ok(offsets, edges, i)
    &&& forall|k: int| 0 <= k < i ==> #[trigger] step_ok(offsets, edges, k)
}

/// Every offset is in order.
pub open spec fn steps_ok(offsets: Seq<u64>, edges: int) -> bool {
    forall|k: int| 0 <= k < offsets.len() - 1 ==> #[trigger] step_ok(offsets, edges, k)
}

/// One read: the place of its node in the batch, where the node's edges start in the
/// file, and how many bytes they have.
#[derive(Debug, Clone, Copy, PartialEq, Eq, Structural)]
pub struct EdgeRead {
    pub place: usize,
    pub offset: u64,
    pub len: u64,
}

/// Offsets of a graph whose edges are in a file.
#[verifier::ext_equal]
pub struct AsyncGraphView {
    pub num_nodes: nat,
    pub num_edges: nat,
    pub offsets: Seq<u64>,
}

impl AsyncGraphView {
    /// The offsets cut the edges into one run per node.
    pub open spec fn wf(self) -> bool {
        &&& self.num_nodes <= MAX_NODES
        &&& self.num_edges <= MAX_EDGES
        &&& self.offsets.len() == self.num_nodes + 1
        &&& self.offsets[0] == 0
        &&& self.offsets[self.num_nodes as int] == self.num_edges
        &&& ascending(self.offsets)
    }

    /// Number of neighbors of a node.
    pub open spec fn degree(self, node: int) -> int {
        if 0 <= node < self.num_nodes {
            self.offsets[node + 1] - self.offsets[node]
        } else {
            0
        }
    }

    /// The read that brings the neighbors of a node, if it has any.
    pub open spec fn read_of(self, node: u32, place: usize) -> Option<EdgeRead> {
        if self.degree(node as int) == 0 {
            None
        } else {
            Some(
                EdgeRead {
                    place,
                    offset: (offsets_end(self.num_nodes as int) + 4 * self.offsets[node as int]) as u64,
                    len: (4 * self.degree(node as int)) as u64,
                },
            )
        }
    }

    /// The reads that bring the neighbors of the first `n` nodes of a batch.
    pub open spec fn reads_of(self, nodes: Seq<u32>, n: int) -> Seq<EdgeRead>
        decreases n,
    {
        if n <= 0 {
            Seq::empty()
        } else {
            match self.read_of(nodes[n - 1], (n - 1) as usize) {
                Some(r) => self.reads_of(nodes, n - 1).push(r),
                None => self.reads_of(nodes, n - 1),
            }
        }
    }
}

/// Ascending offsets stay within the edges.
proof fn lemma_run(v: AsyncGraphView, node: int)
    requires
        v.wf(),
        0 <= node < v.num_nodes,
    ensures
        v.offsets[node] <= v.offsets[node + 1] <= v.num_edges,
        0 <= v.degree(node) <= v.num_edges,
{
    assert(v.offsets[node] <= v.offsets[node + 1]);
    assert(v.offsets[node + 1] <= v.offsets[v.num_nodes as int]);
}

/// Offsets that are in order ascend.
proof fn lemma_steps_ascend(offsets: Seq<u64>, edges: int, i: int, j: int)
    requires
        steps_ok(offsets, edges),
        0 <= i <= j < offsets.len(),
    ensures
        offsets[i] <= offsets[j],
    decreases j - i,
{
    if i < j {
        lemma_steps_ascend(offsets, edges, i, j - 1);
        assert(step_ok(offsets, edges, j - 1));
    }
}

/// Graph over a file whose edges are read node by node.
pub struct AsyncCsrGraph {
    num_nodes: usize,
    num_edges: usize,
    edges_start: u64,
    offsets: Vec<EdgeOffset>,
}

impl View for AsyncCsrGraph {
    type V = AsyncGraphView;

    closed spec fn view(&self) -> AsyncGraphView {
        AsyncGraphView {
            num_nodes: self.num_nodes as nat,
            num_edges: self.num_edges as nat,
            offsets: self.offsets@,
        }
    }
}

/// What opening a graph comes to with a header and the bytes behind it.
pub open spec fn async_loads(
    header: AsyncGraphHeader,
    bytes: Seq<u8>,
    r: Result<AsyncCsrGraph, AsyncGraphError>,
) -> bool {
    let offsets = u64s_at(bytes, 0, (header.num_nodes + 1) as nat);
    let edges = header.num_edges as int;
    match r {
        Ok(g) => {
            &&& bytes.len() >= header.offsets_size
            &&& g.wf()
            &&& g@ == (AsyncGraphView {
                num_nodes: header.num_nodes as nat,
                num_edges: header.num_edges as nat,
                offsets,
            })
        },
        Err(e) => if bytes.len() < header.offsets_size {
            e == AsyncGraphError::OffsetsUnreadable
        } else if offsets[0] != 0 {
            e == AsyncGraphError::FirstOffset
        } else if !steps_ok(offsets, edges) {
            exists|i: int| #[trigger]
                first_bad_step(offsets, edges, i) && e == (if offsets[i] > offsets[i
                    + 1] {
                    AsyncGraphError::Descending {
                        at: i as usize,
                        offset: offsets[i],
                        next_at: (i + 1) as usize,
                        next: offsets[i + 1],
                    }
                } else {
                    AsyncGraphError::BeyondEdges {
                        at: (i + 1) as usize,
                        offset: offsets[i + 1],
                        edges: header.num_edges,
                    }
                })
        } else {
            offsets[header.num_nodes as int] != edges && e == (AsyncGraphError::Tail {
                offset: offsets[header.num_nodes as int],
                edges: header.num_edges,
            })
        },
    }
}

impl AsyncCsrGraph {
    /// The offsets cut the edges into one run per node.
    pub closed spec fn wf(&self) -> bool {
        &&& self@.wf()
        &&& self.edges_start == offsets_end(self.num_nodes as int)
    }

    /// The offsets cut the edges into one run per node.
    pub proof fn lemma_wf(&self)
        requires
            self.wf(),
        ensures
            self@.wf(),
    {
    }

    /// A graph from a header and the bytes of the offsets behind it. Fails on bytes
    /// that are too few, and on offsets that do not cut the edges into runs.
    pub fn load(header: AsyncGraphHeader, bytes: &[u8]) -> (r: Result<
        AsyncCsrGraph,
        AsyncGraphError,
    >)
        requires
            header.wf(),
        ensures
            async_loads(header, bytes@, r),
    {
        let len: usize = bytes.len();
        if len < header.offsets_size {
            return Err(AsyncGraphError::OffsetsUnreadable);
        }
        let offsets = read_u64s(bytes, 0, header.num_nodes + 1);
        let edges: u64 = header.num_edges as u64;
        if offsets[0] != 0 {
            return Err(AsyncGraphError::FirstOffset);
        }
        let mut i: usize = 0;
        while i < header.num_nodes
            invariant
                i <= header.num_nodes,
                header.wf(),
                edges == header.num_edges,
                bytes@.len() >= header.offsets_size,
                offsets@ == u64s_at(bytes@, 0, (header.num_nodes + 1) as nat),
                offsets@.len() == header.num_nodes + 1,
                offsets@[0] == 0,
                forall|k: int| 0 <= k < i ==> #[trigger] step_ok(offsets@, edges as int, k),
            decreases header.num_nodes - i,
        {
            let a: u64 = offsets[i];
            let b: u64 = offsets[i + 1];
            if a > b {
                assert(first_bad_step(offsets@, edges as int, i as int));
                return Err(
                    AsyncGraphError::Descending { at: i, offset: a, next_at: i + 1, next: b },
                );
            }
            if b > edges {
                assert(first_bad_step(offsets@, edges as int, i as int));
                return Err(
                    AsyncGraphError::BeyondEdges {
                        at: i + 1,
                        offset: b,
                        edges: header.num_edges,
                    },
                );
            }
            assert(step_ok(offsets@, edges as int, i as int));
            i += 1;
        }
        assert(steps_ok(offsets@, edges as int));
        if offsets[header.num_nodes] != edges {
            return Err(
                AsyncGraphError::Tail {
                    offset: offsets[header.num_nodes],
                    edges: header.num_edges,
                },
            );
        }
        proof {
            assert forall|a: int, b: int| 0 <= a <= b < offsets@.len() implies offsets@[a]
                <= offsets@[b] by {
                lemma_steps_ascend(offsets@, edges as int, a, b);
            }
        }
        Ok(
            AsyncCsrGraph {
                num_nodes: header.num_nodes,
                num_edges: header.num_edges,
                edges_start: header.edges_start,
                offsets,
            },
        )
    }

    /// Number of nodes.
    pub fn num_nodes(&self) -> (n: usize)
        ensures
            n == self@.num_nodes,
    {
        self.num_nodes
    }

    /// Number of edges.
    pub fn num_edges(&self) -> (n: usize)
        ensures
            n == self@.num_edges,
    {
        self.num_edges
    }

    /// Number of neighbors of a node, zero for an id that is no node.
    pub fn degree(&self, node: NodeId) -> (d: usize)
        requires
            self.wf(),
        ensures
            d == self@.degree(node as int),
    {
        if node as u64 >= self.num_nodes as u64 {
            return 0;
        }
        proof {
            lemma_run(self@, node as int);
        }
        let at: usize = node as usize;
        (self.offsets[at + 1] - self.offsets[at]) as usize
    }

    /// The read that brings the neighbors of a node, if it has any.
    pub fn plan_neighbors(&self, node: NodeId, place: usize) -> (r: Option<EdgeRead>)
        requires
            self.wf(),
        ensures
            r == self@.read_of(node, place),
    {
        if node as u64 >= self.num_nodes as u64 {
            return None;
        }
        proof {
            lemma_run(self@, node as int);
        }
        let at: usize = node as usize;
        let start: u64 = self.offsets[at];
        let count: u64 = self.offsets[at + 1] - start;
        if count == 0 {
            return None;
        }
        Some(EdgeRead { place, offset: self.edges_start + 4 * start, len: 4 * count })
    }

    /// The reads that bring the neighbors of a batch; nodes without neighbors need
    /// none.
    pub fn batch_neighbors(&self, nodes: &[NodeId]) -> (reads: Vec<EdgeRead>)
        requires
            self.wf(),
        ensures
            reads@ == self@.reads_of(nodes@, nodes@.len() as int),
    {
        let mut reads: Vec<EdgeRead> = Vec::new();
        let mut i: usize = 0;
        while i < nodes.len()
            invariant
                self.wf(),
                i <= nodes@.len(),
                reads@ == self@.reads_of(nodes@, i as int),
            decreases nodes@.len() - i,
        {
            if let Some(r) = self.plan_neighbors(nodes[i], i) {
                reads.push(r);
            }
            i += 1;
        }
        reads
    }
}

/// The neighbors that a read brought.
pub fn decode_neighbors(bytes: &[u8]) -> (n: Vec<NodeId>)
    ensures
        n@ == u32s_at(bytes@, 0, bytes@.len() / 4),
{
    let len: usize = bytes.len();
    read_u32s(bytes, 0, len / 4)
}

/// Puts what the reads of a batch of `count` nodes brought in the batch's order;
/// nodes without a read have no neighbors.
pub fn place_neighbors(count: usize, reads: &[EdgeRead], buffers: &Vec<Vec<u8>>) -> (out: Vec<
    Vec<NodeId>,
>)
    requires
        buffers@.len() == reads@.len(),
        forall|k: int| 0 <= k < reads@.len() ==> (#[trigger] reads@[k]).place < count,
        forall|j: int, k: int|
            0 <= j < k < reads@.len() ==> (#[trigger] reads@[j]).place < (
            #[trigger] reads@[k]).place,
    ensures
        out@.len() == count,
        forall|k: int|
            0 <= k < reads@.len() ==> out@[(#[trigger] reads@[k]).place as int]@ == u32s_at(
                buffers@[k]@,
                0,
                buffers@[k]@.len() / 4,
            ),
        forall|i: int|
            0 <= i < count && (forall|k: int|
                0 <= k < reads@.len() ==> (#[trigger] reads@[k]).place != i) ==> (
            #[trigger] out@[i])@ == Seq::<u32>::empty(),
{
    let mut out: Vec<Vec<NodeId>> = Vec::new();
    let mut i: usize = 0;
    while i < count
        invariant
            i <= count,
            out@.len() == i,
            forall|j: int| 0 <= j < i ==> (#[trigger] out@[j])@ == Seq::<u32>::empty(),
        decreases count - i,
    {
        out.push(Vec::new());
        i += 1;
    }
    let mut k: usize = 0;
    while k < reads.len()
        invariant
            k <= reads@.len(),
            buffers@.len() == reads@.len(),
            out@.len() == count,
            forall|k: int| 0 <= k < reads@.len() ==> (#[trigger] reads@[k]).place < count,
            forall|j: int, k: int|
                0 <= j < k < reads@.len() ==> (#[trigger] reads@[j]).place < (
                #[trigger] reads@[k]).place,
            forall|j: int|
                0 <= j < k ==> out@[(#[trigger] reads@[j]).place as int]@ == u32s_at(
                    buffers@[j]@,
                    0,
                    buffers@[j]@.len() / 4,
                ),
            forall|i: int|
                0 <= i < count && (forall|j: int|
                    0 <= j < k ==> (#[trigger] reads@[j]).place != i) ==> (#[trigger] out@[i])@
                    == Seq::<u32>::empty(),
        decreases reads@.len() - k,
    {
        let ghost before = out@;
        let at: usize = reads[k].place;
        let list = decode_neighbors(buffers[k].as_slice());
        out.set(at, list);
        proof {
            assert forall|j: int| 0 <= j < k + 1 implies out@[(#[trigger] reads@[j]).place as int]@
                == u32s_at(buffers@[j]@, 0, buffers@[j]@.len() / 4) by {
                if j < k {
                    assert(reads@[j].place < reads@[k as int].place);
                    assert(out@[reads@[j].place as int] == before[reads@[j].place as int]);
                }
            }
            assert forall|i: int|
                0 <= i < count && (forall|j: int|
                    0 <= j < k + 1 ==> (#[trigger] reads@[j]).place != i) implies (
            #[trigger] out@[i])@ == Seq::<u32>::empty() by {
                assert(reads@[k as int].place != i);
                assert(before[i]@ == Seq::<u32>::empty());
            }
        }
        k += 1;
    }
    out
}

/// The reads of a batch stand in the batch's order.
pub proof fn law_reads_keep_batch_order(v: AsyncGraphView, nodes: Seq<u32>, n: int)
    requires
        0 <= n <= nodes.len() <= usize::MAX,
    ensures
        ({
            let reads = v.reads_of(nodes, n);
            &&& forall|k: int| 0 <= k < reads.len() ==> (#[trigger] reads[k]).place < n
            &&& forall|k: int|
                0 <= k < reads.len() ==> v.read_of(
                    nodes[(#[trigger] reads[k]).place as int],
                    reads[k].place,
                ) == Some(reads[k])
            &&& forall|j: int, k: int|
                0 <= j < k < reads.len() ==> (#[trigger] reads[j]).place < (
                #[trigger] reads[k]).place
            &&& forall|i: int|
                0 <= i < n && (forall|k: int|
                    0 <= k < reads.len() ==> (#[trigger] reads[k]).place != i) ==> v.degree(
                    #[trigger] nodes[i] as int,
                ) == 0
        }),
    decreases n,
{
    if n > 0 {
        law_reads_keep_batch_order(v, nodes, n - 1);
        let before = v.reads_of(nodes, n - 1);
        let reads = v.reads_of(nodes, n);
        assert forall|i: int|
            0 <= i < n && (forall|k: int|
                0 <= k < reads.len() ==> (#[trigger] reads[k]).place != i) implies v.degree(
            #[trigger] nodes[i] as int,
        ) == 0 by {
            if i < n - 1 {
                assert forall|k: int| 0 <= k < before.len() implies (#[trigger] before[k]).place
                    != i by {
                    assert(reads[k] == before[k]);
                }
            } else if v.degree(nodes[i] as int) != 0 {
                assert(reads[reads.len() - 1].place == i);
            }
        }
    }
}

/// Reading neighbors from the file gives what the graph in memory gives: the bytes of
/// a node's read are its edges.
pub proof fn law_reads_bring_the_neighbors(
    file: Seq<u8>,
    l: GraphFileLayout,
    v: AsyncGraphView,
    node: u32,
    place: usize,
)
    requires
        v.wf(),
        v.num_nodes == l.num_nodes,
        v.num_edges == l.num_edges,
        v.offsets == stored_graph(file, l).offsets,
        l.offsets_end == offsets_end(l.num_nodes as int),
        edges_end(l.num_nodes as int, l.num_edges as int) <= file.len(),
    ensures
        match v.read_of(node, place) {
            Some(r) => u32s_at(
                file.subrange(r.offset as int, r.offset + r.len),
                0,
                (r.len / 4) as nat,
            ) == stored_graph(file, l).neighbors(node as int),
            None => stored_graph(file, l).neighbors(node as int).len() == 0,
        },
{
    let g = stored_graph(file, l);
    if node < v.num_nodes {
        lemma_run(v, node as int);
        let start = v.offsets[node as int] as int;
        let count = v.degree(node as int);
        if count > 0 {
            let r = v.read_of(node, place)->0;
            let part = file.subrange(r.offset as int, r.offset + r.len);
            assert(r.len / 4 == count);
            assert forall|i: int| 0 <= i < count implies #[trigger] u32s_at(
                part,
                0,
                (r.len / 4) as nat,
            )[i] == g.neighbors(node as int)[i] by {
                let at = r.offset + 4 * i;
                assert(part[4 * i] == file[at] && part[4 * i + 1] == file[at + 1] && part[4 * i + 2]
                    == file[at + 2] && part[4 * i + 3] == file[at + 3]);
                assert(g.edges[start + i] == g.neighbors(node as int)[i]);
                assert(l.offsets_end + 4 * (start + i) == at);
            }
            assert(u32s_at(part, 0, (r.len / 4) as nat) =~= g.neighbors(node as int));
        }
    }
}

/// The header of the file of a graph.
pub open spec fn async_header_for(g: GraphView) -> AsyncGraphHeader {
    AsyncGraphHeader {
        num_nodes: g.num_nodes as usize,
        num_edges: g.num_edges as usize,
        offsets_size: (8 * (g.num_nodes + 1)) as usize,
        edges_start: offsets_end(g.num_nodes as int) as u64,
    }
}

/// Words in a part of a file are the words of the file.
proof fn lemma_words_in_part(file: Seq<u8>, at: int, n: nat)
    requires
        0 <= at,
        at + 8 * n <= file.len(),
    ensures
        u64s_at(file.subrange(at, at + 8 * n), 0, n) == u64s_at(file, at, n),
{
    let part = file.subrange(at, at + 8 * n);
    assert forall|k: int| 0 <= k < n implies #[trigger] u64s_at(part, 0, n)[k] == u64s_at(
        file,
        at,
        n,
    )[k] by {
        let w = 8 * k;
        let f = at + 8 * k;
        assert(part[w] == file[f] && part[w + 1] == file[f + 1] && part[w + 2] == file[f + 2]
            && part[w + 3] == file[f + 3] && part[w + 4] == file[f + 4] && part[w + 5] == file[f
            + 5] && part[w + 6] == file[f + 6] && part[w + 7] == file[f + 7]);
    }
    assert(u64s_at(part, 0, n) =~= u64s_at(file, at, n));
}

/// Offsets that ascend to the number of edges are in order.
proof fn lemma_ascending_steps(offsets: Seq<u64>, n: int, edges: int)
    requires
        ascending(offsets),
        offsets.len() == n + 1,
        offsets[n] == edges,
    ensures
        steps_ok(offsets, edges),
{
    assert forall|k: int| 0 <= k < offsets.len() - 1 implies #[trigger] step_ok(
        offsets,
        edges,
        k,
    ) by {
        assert(offsets[k] <= offsets[k + 1]);
        assert(offsets[k + 1] <= offsets[n]);
    }
}

/// The header of a saved graph is read back from the start of its file.
pub proof fn law_saved_header_is_read_back(g: GraphView)
    requires
        g.valid(),
        g.num_nodes <= MAX_NODES,
        g.num_edges <= MAX_EDGES,
        graph_file(g).len() <= usize::MAX,
    ensures
        async_header_of(graph_file(g).take(HEADER_SIZE as int), graph_file(g).len() as u64) == Ok::<
            AsyncGraphHeader,
            AsyncGraphError,
        >(async_header_for(g)),
        async_header_for(g).wf(),
{
    let start = header_bytes(header_for(g));
    let file = graph_file(g);
    assert(file.take(HEADER_SIZE as int) == start && edges_end(
        g.num_nodes as int,
        g.num_edges as int,
    ) <= file.len()) by {
        lemma_file_sections(g);
        law_header_round_trip(header_for(g), Seq::empty());
        assert(file.take(HEADER_SIZE as int) =~= start);
    }
    assert(start.len() == HEADER_SIZE && header_of(start) == header_for(g)) by {
        law_header_round_trip(header_for(g), Seq::empty());
        assert(start + Seq::<u8>::empty() =~= start);
    }
    lemma_sound_header(start, file.len() as u64, header_for(g));
}

/// A header without a fault is taken as it is.
proof fn lemma_sound_header(b: Seq<u8>, size: u64, h: GraphHeader)
    requires
        b.len() >= HEADER_SIZE,
        header_of(b) == h,
        h.magic == MAGIC,
        h.version == VERSION,
        h.num_nodes <= MAX_NODES,
        h.num_edges <= MAX_EDGES,
        h.num_nodes <= usize::MAX,
        h.num_edges <= usize::MAX,
        8 * (h.num_nodes + 1) <= usize::MAX,
        edges_end(h.num_nodes as int, h.num_edges as int) <= size,
    ensures
        async_header_of(b, size) == Ok::<AsyncGraphHeader, AsyncGraphError>(
            AsyncGraphHeader {
                num_nodes: h.num_nodes as usize,
                num_edges: h.num_edges as usize,
                offsets_size: (8 * (h.num_nodes + 1)) as usize,
                edges_start: offsets_end(h.num_nodes as int) as u64,
            },
        ),
{
}

/// A saved graph opens for reading node by node, from the bytes of its offsets, and
/// every node's read brings the neighbors that it had.
pub proof fn law_saved_graph_is_read_back(
    g: GraphView,
    r: Result<AsyncCsrGraph, AsyncGraphError>,
    node: u32,
    place: usize,
)
    requires
        g.valid(),
        g.num_nodes <= MAX_NODES,
        g.num_edges <= MAX_EDGES,
        graph_file(g).len() <= usize::MAX,
        async_loads(
            async_header_for(g),
            graph_file(g).subrange(HEADER_SIZE as int, offsets_end(g.num_nodes as int)),
            r,
        ),
    ensures
        r is Ok,
        r->Ok_0@ == (AsyncGraphView {
            num_nodes: g.num_nodes,
            num_edges: g.num_edges,
            offsets: g.offsets,
        }),
        match r->Ok_0@.read_of(node, place) {
            Some(read) => u32s_at(
                graph_file(g).subrange(read.offset as int, read.offset + read.len),
                0,
                (read.len / 4) as nat,
            ) == g.neighbors(node as int),
            None => g.neighbors(node as int).len() == 0,
        },
{
    lemma_file_sections(g);
    let file = graph_file(g);
    let l = layout_of(file)->Ok_0;
    let stored = stored_graph(file, l);
    let v = AsyncGraphView { num_nodes: g.num_nodes, num_edges: g.num_edges, offsets: g.offsets };
    let bytes = file.subrange(HEADER_SIZE as int, offsets_end(g.num_nodes as int));
    assert(u64s_at(bytes, 0, (async_header_for(g).num_nodes + 1) as nat) == g.offsets) by {
        lemma_words_in_part(file, HEADER_SIZE as int, g.num_nodes + 1);
    }
    lemma_ascending_steps(g.offsets, g.num_nodes as int, g.num_edges as int);
    lemma_sound_offsets_load(async_header_for(g), bytes, g.offsets, r);
    law_reads_bring_the_neighbors(file, l, v, node, place);
    assert(stored.neighbors(node as int) == g.neighbors(node as int));
}

/// Offsets without a fault are taken as they are.
proof fn lemma_sound_offsets_load(
    header: AsyncGraphHeader,
    bytes: Seq<u8>,
    offsets: Seq<u64>,
    r: Result<AsyncCsrGraph, AsyncGraphError>,
)
    requires
        async_loads(header, bytes, r),
        bytes.len() >= header.offsets_size,
        u64s_at(bytes, 0, (header.num_nodes + 1) as nat) == offsets,
        offsets[0] == 0,
        steps_ok(offsets, header.num_edges as int),
        offsets[header.num_nodes as int] == header.num_edges,
    ensures
        r is Ok,
        r->Ok_0@ == (AsyncGraphView {
            num_nodes: header.num_nodes as nat,
            num_edges: header.num_edges as nat,
            offsets,
        }),
{
}

/// The header of a graph file that is read node by node: it is accepted exactly if
/// it is whole, has the magic number and version 1, claims no more than
/// 10,000,000,000 nodes and 100,000,000,000 edges that fit the machine, and the
/// file holds the offsets and edges that it claims.
pub proof fn law_async_header_is_accepted_when(b: Seq<u8>, size: u64)
    ensures
        ({
            let nodes = le8(b, 8);
            let edges = le8(b, 16);
            let needed = 32 + 8 * (nodes + 1) + 4 * edges;
            let headed = b.len() >= 32 && le4(b, 0) == 0x4145_5448 && le4(b, 4) == 1;
            let fits = headed && nodes <= 10_000_000_000 && edges <= 100_000_000_000 && nodes
                <= usize::MAX && edges <= usize::MAX && 8 * (nodes + 1) <= usize::MAX;
            let r = async_header_of(b, size);
            &&& r is Ok <==> {
                &&& b.len() >= 32
                &&& le4(b, 0) == 0x4145_5448
                &&& le4(b, 4) == 1
                &&& nodes <= 10_000_000_000
                &&& edges <= 100_000_000_000
                &&& nodes <= usize::MAX
                &&& edges <= usize::MAX
                &&& 8 * (nodes + 1) <= usize::MAX
                &&& size >= needed
            }
            &&& r matches Ok(h) ==> {
                &&& h.num_nodes == nodes
                &&& h.num_edges == edges
                &&& h.offsets_size == 8 * (nodes + 1)
                &&& h.edges_start == 32 + 8 * (nodes + 1)
            }
            &&& b.len() < 32 <==> r == Err::<AsyncGraphHeader, AsyncGraphError>(
                AsyncGraphError::HeaderUnreadable,
            )
            &&& b.len() >= 32 && le4(b, 0) != 0x4145_5448 <==> (r matches Err(
                AsyncGraphError::BadMagic { magic },
            ) && magic == le4(b, 0))
            &&& b.len() >= 32 && le4(b, 0) == 0x4145_5448 && le4(b, 4) != 1 <==> (r matches Err(
                AsyncGraphError::BadVersion { version },
            ) && version == le4(b, 4))
            &&& headed && nodes > 10_000_000_000 <==> (r matches Err(
                AsyncGraphError::TooManyNodes { nodes: n },
            ) && n == nodes)
            &&& headed && nodes <= 10_000_000_000 && edges > 100_000_000_000 <==> (r matches Err(
                AsyncGraphError::TooManyEdges { edges: n },
            ) && n == edges)
            &&& fits && size < needed <==> (r matches Err(
                AsyncGraphError::Truncated { required, len },
            ) && required == needed && len == size)
        }),
{
    assert(0 <= le4(b, 0) <= u32::MAX && 0 <= le4(b, 4) <= u32::MAX);
    assert(0 <= le4(b, 8) <= u32::MAX && 0 <= le4(b, 12) <= u32::MAX);
    assert(0 <= le4(b, 16) <= u32::MAX && 0 <= le4(b, 20) <= u32::MAX);
}

/// The offsets of a graph that is read node by node are accepted exactly if they
/// are all there, start at zero, never descend, and end at the number of edges.
/// The first step that descends, or goes past the edges, is reported otherwise.
pub proof fn law_async_offsets_are_accepted_when(
    header: AsyncGraphHeader,
    bytes: Seq<u8>,
    r: Result<AsyncCsrGraph, AsyncGraphError>,
)
    requires
        header.wf(),
        async_loads(header, bytes, r),
        bytes.len() >= header.offsets_size,
    ensures
        ({
            let at = |i: int| le8(bytes, 8 * i);
            let n = header.num_nodes as int;
            let edges = header.num_edges as int;
            &&& r is Ok <==> at(0) == 0 && at(n) == edges && forall|i: int|
                0 <= i < n ==> #[trigger] le8(bytes, 8 * i) <= le8(bytes, 8 * (i + 1)) <= edges
            &&& r matches Ok(g) ==> {
                &&& g@.num_nodes == n
                &&& g@.num_edges == edges
                &&& g@.offsets.len() == n + 1
                &&& forall|i: int| 0 <= i <= n ==> #[trigger] g@.offsets[i] == at(i)
            }
            &&& at(0) != 0 <==> r == Err::<AsyncCsrGraph, AsyncGraphError>(
                AsyncGraphError::FirstOffset,
            )
            &&& r matches Err(AsyncGraphError::Descending { at: i, offset, next_at, next }) ==> {
                &&& i < n
                &&& next_at == i + 1
                &&& offset == at(i as int)
                &&& next == at(i + 1)
                &&& offset > next
                &&& forall|k: int|
                    0 <= k < i ==> #[trigger] le8(bytes, 8 * k) <= le8(bytes, 8 * (k + 1)) <= edges
            }
            &&& r matches Err(AsyncGraphError::BeyondEdges { at: i, offset, edges: e }) ==> {
                &&& 0 < i <= n
                &&& offset == at(i as int)
                &&& offset > edges
                &&& e == edges
                &&& forall|k: int|
                    0 <= k < i - 1 ==> #[trigger] le8(bytes, 8 * k) <= le8(bytes, 8 * (k + 1))
                        <= edges
            }
        }),
{
    let offsets = u64s_at(bytes, 0, (header.num_nodes + 1) as nat);
    let n = header.num_nodes as int;
    let edges = header.num_edges as int;
    assert forall|i: int| 0 <= i <= n implies #[trigger] offsets[i] == le8(bytes, 8 * i) by {
        assert(0 <= le4(bytes, 8 * i) <= u32::MAX && 0 <= le4(bytes, 8 * i + 4) <= u32::MAX);
    }
    assert forall|i: int| 0 <= i < n implies (step_ok(offsets, edges, i) <==> #[trigger] le8(
        bytes,
        8 * i,
    ) <= le8(bytes, 8 * (i + 1)) <= edges) by {
        assert(offsets[i] == le8(bytes, 8 * i));
        assert(offsets[i + 1] == le8(bytes, 8 * (i + 1)));
    }
    if let Err(e) = r {
        if offsets[0] == 0 && !steps_ok(offsets, edges) {
            let i = choose|i: int| #[trigger]
                first_bad_step(offsets, edges, i) && e == (if offsets[i] > offsets[i + 1] {
                    AsyncGraphError::Descending {
                        at: i as usize,
                        offset: offsets[i],
                        next_at: (i + 1) as usize,
                        next: offsets[i + 1],
                    }
                } else {
                    AsyncGraphError::BeyondEdges {
                        at: (i + 1) as usize,
                        offset: offsets[i + 1],
                        edges: header.num_edges,
                    }
                });
            assert(!step_ok(offsets, edges, i));
            assert(le8(bytes, 8 * i) == offsets[i]);
            assert forall|k: int| 0 <= k < i implies #[trigger] le8(bytes, 8 * k) <= le8(
                bytes,
                8 * (k + 1),
            ) <= edges by {
                assert(step_ok(offsets, edges, k));
            }
        }
    }
    if let Ok(g) = r {
        assert forall|i: int| 0 <= i < n implies #[trigger] le8(bytes, 8 * i) <= le8(
            bytes,
            8 * (i + 1),
        ) <= edges by {
            assert(g@.offsets[i] <= g@.offsets[i + 1]);
            assert(g@.offsets[i + 1] <= g@.offsets[n]);
        }
    }
}

/// The degree of a node is the distance of its offsets, and zero beyond the graph;
/// a node without neighbours needs no read, and any other a read of four bytes per
/// neighbour, behind the header, the offsets and the neighbours before.
pub proof fn law_reads_follow_the_offsets(v: AsyncGraphView, node: u32, place: usize)
    requires
        v.wf(),
    ensures
        node >= v.num_nodes ==> v.degree(node as int) == 0,
        node < v.num_nodes ==> v.degree(node as int) == v.offsets[node + 1] - v.offsets[node as int],
        v.read_of(node, place) is None <==> v.degree(node as int) == 0,
        v.read_of(node, place) matches Some(r) ==> {
            &&& r.place == place
            &&& r.offset == 32 + 8 * (v.num_nodes + 1) + 4 * v.offsets[node as int]
            &&& r.len == 4 * (v.offsets[node + 1] - v.offsets[node as int])
        },
{
    if node < v.num_nodes {
        assert(v.offsets[node as int] <= v.offsets[node + 1]);
        assert(v.offsets[node + 1] <= v.offsets[v.num_nodes as int]);
    }
}

/// A message tells the numbers of its error, in this order.
pub proof fn law_async_graph_messages_tell_their_numbers(e: AsyncGraphError)
    ensures
        match e {
            AsyncGraphError::BadMagic { magic } => tells(
                e.text(),
                seq![hexadecimal(magic as nat)],
            ),
            AsyncGraphError::BadVersion { version } => tells(
                e.text(),
                seq![decimal(version as nat)],
            ),
            AsyncGraphError::TooManyNodes { nodes } => tells(
                e.text(),
                seq![decimal(nodes as nat)],
            ),
            AsyncGraphError::TooManyEdges { edges } => tells(
                e.text(),
                seq![decimal(edges as nat)],
            ),
            AsyncGraphError::Truncated { required, len } => tells(
                e.text(),
                seq![decimal(required as nat), decimal(len as nat)],
            ),
            AsyncGraphError::Descending { at, offset, next_at, next } => tells(
                e.text(),
                seq![
                    decimal(at as nat),
                    decimal(offset as nat),
                    decimal(next_at as nat),
                    decimal(next as nat),
                ],
            ),
            AsyncGraphError::BeyondEdges { at, offset, edges } => tells(
                e.text(),
                seq![decimal(at as nat), decimal(offset as nat), decimal(edges as nat)],
            ),
            AsyncGraphError::Tail { offset, edges } => tells(
                e.text(),
                seq![decimal(offset as nat), decimal(edges as nat)],
            ),
            _ => true,
        },
{
    match e {
        AsyncGraphError::BadMagic { magic } => {
            lemma_tells_one(
                e.text(),
                "invalid graph magic: expected 0x"@ + hexadecimal(MAGIC as nat) + ", got 0x"@,
                hexadecimal(magic as nat),
                Seq::<char>::empty(),
            );
        },
        AsyncGraphError::BadVersion { version } => {
            lemma_tells_one(
                e.text(),
                "unsupported graph version: expected "@ + decimal(VERSION as nat) + ", got "@,
                decimal(version as nat),
                Seq::<char>::empty(),
            );
        },
        AsyncGraphError::TooManyNodes { nodes } => {
            lemma_tells_one(
                e.text(),
                "num_nodes "@,
                decimal(nodes as nat),
                " exceeds maximum "@ + decimal(MAX_NODES as nat),
            );
        },
        AsyncGraphError::TooManyEdges { edges } => {
            lemma_tells_one(
                e.text(),
                "num_edges "@,
                decimal(edges as nat),
                " exceeds maximum "@ + decimal(MAX_EDGES as nat),
            );
        },
        AsyncGraphError::Truncated { required, len } => {
            lemma_tells_two(
                e.text(),
                "graph file truncated: expected at least "@,
                decimal(required as nat),
                " bytes, got "@,
                decimal(len as nat),
                Seq::<char>::empty(),
            );
        },
        AsyncGraphError::Descending { at, offset, next_at, next } => {
            lemma_tells_four(
                e.text(),
                "invalid offsets: offsets["@,
                decimal(at as nat),
                "]="@,
                decimal(offset as nat),
                " > offsets["@,
                decimal(next_at as nat),
                "]="@,
                decimal(next as nat),
                Seq::<char>::empty(),
            );
        },
        AsyncGraphError::BeyondEdges { at, offset, edges } => {
            lemma_tells_three(
                e.text(),
                "invalid offsets: offsets["@,
                decimal(at as nat),
                "]="@,
                decimal(offset as nat),
                " exceeds num_edges "@,
                decimal(edges as nat),
                Seq::<char>::empty(),
            );
        },
        AsyncGraphError::Tail { offset, edges } => {
            lemma_tells_two(
                e.text(),
                "invalid offsets tail: offsets[last]="@,
                decimal(offset as nat),
                " != num_edges "@,
                decimal(edges as nat),
                Seq::<char>::empty(),
            );
        },
        _ => {},
    }
}

} // verus!
