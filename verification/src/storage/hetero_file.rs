//! Files of heterogeneous graphs.
//!
//! A header of 64 bytes (magic number, number of node types, number of edge
//! types), a table of node types with entries of 72 bytes (name, count), a table
//! of edge types with entries of 216 bytes (three names, number of source nodes,
//! number of edges, whether there are weights), and then for each edge type its
//! offsets, edges and weights.
use vstd::prelude::*;
use vstd::string::StringExecFns;
use vstd::utf8::encode_utf8;
use crate::bytes::{
    holds_at, le4, le8, lemma_holds_between, lemma_holds_inside, lemma_u32_round_trip,
    lemma_u32s_round_trip, lemma_u64_round_trip, lemma_u64s_round_trip, push_u32, push_u32s,
    push_u64, push_u64s, push_zeros, read_u32, read_u32s, read_u64, read_u64s, u32_le, u32s_at,
    u32s_le, u64_le, u64s_at, u64s_le,
};
use crate::graph::csr::{Graph, GraphView};
use crate::graph::hetero::{
    first_bad_edge_part, good_edge_part, hetero_result, is_made_of, law_edge_names_are_unique,
    law_names_are_unique, names_distinct, new_name, EdgePart, HeteroBuildError, HeteroGraph,
    HeteroView, NodePart, NodeTypeView, MAX_TYPES,
};
use super::names::{
    law_name_round_trip, name_at, name_fits, padded, read_padded_name, without_zero,
    write_padded_name, NAME_BYTES,
};

verus! {

/// Magic number of heterogeneous graph files: "AETHHETG" in ASCII.
pub const HETERO_MAGIC: u64 = 0x4754_4548_4854_4541;

/// Bytes of the header.
pub const HETERO_HEADER_SIZE: usize = 64;

/// Bytes of a node type entry.
pub const NODE_TYPE_ENTRY_SIZE: usize = 72;

/// Bytes of an edge type entry.
pub const EDGE_TYPE_ENTRY_SIZE: usize = 216;

/// What is wrong with the bytes of a file.
#[derive(Debug, Clone, Copy, PartialEq, Eq, Structural)]
pub enum HeteroFileFault {
    /// The file is shorter than a header.
    TooSmall,
    /// The file does not start with the magic number.
    BadMagic,
    /// A table or a section goes beyond the end of the file.
    Truncated,
    /// A type name is not UTF-8.
    BadName,
}

/// Why a heterogeneous graph file could not be loaded.
#[derive(Debug, Clone, PartialEq, Eq)]
pub enum HeteroFileError {
    Fault(HeteroFileFault),
    /// The types that the file lists do not make up a graph.
    Build(HeteroBuildError),
}

impl HeteroFileError {
    /// The text of the message.
    pub open spec fn text(self) -> Seq<char> {
        match self {
            HeteroFileError::Fault(HeteroFileFault::TooSmall) => "file too small for header"@,
            HeteroFileError::Fault(HeteroFileFault::BadMagic) =>
                "invalid magic (expected AETHHETG)"@,
            HeteroFileError::Fault(HeteroFileFault::Truncated) => "file is truncated"@,
            HeteroFileError::Fault(HeteroFileFault::BadName) => "invalid UTF-8 in type name"@,
            HeteroFileError::Build(e) => e.text(),
        }
    }

    /// Describes the error.
    pub fn message(&self) -> (s: String)
        ensures
            s@ == self.text(),
    {
        match self {
            HeteroFileError::Fault(HeteroFileFault::TooSmall) => String::from_str(
                "file too small for header",
            ),
            HeteroFileError::Fault(HeteroFileFault::BadMagic) => String::from_str(
                "invalid magic (expected AETHHETG)",
            ),
            HeteroFileError::Fault(HeteroFileFault::Truncated) => String::from_str(
                "file is truncated",
            ),
            HeteroFileError::Fault(HeteroFileFault::BadName) => String::from_str(
                "invalid UTF-8 in type name",
            ),
            HeteroFileError::Build(e) => e.message(),
        }
    }
}

/// The bytes of the header.
pub open spec fn hetero_header(node_types: nat, edge_types: nat) -> Seq<u8> {
    u64_le(HETERO_MAGIC) + u32_le(node_types as u32) + u32_le(edge_types as u32) + Seq::new(
        48,
        |i: int| 0u8,
    )
}

/// The table entry of a node type.
pub open spec fn node_entry(t: NodeTypeView) -> Seq<u8> {
    padded(encode_utf8(t.name)) + u64_le(t.count as u64)
}

/// The table of the first `k` node types.
pub open spec fn node_table(h: HeteroView, k: nat) -> Seq<u8>
    decreases k,
{
    if k == 0 {
        Seq::empty()
    } else {
        node_table(h, (k - 1) as nat) + node_entry(h.node_types[k - 1])
    }
}

/// Name of the source type of edge type `i`.
pub open spec fn src_name(h: HeteroView, i: int) -> Seq<char> {
    h.node_types[h.edge_types[i].src_type as int].name
}

/// Name of the destination type of edge type `i`.
pub open spec fn dst_name(h: HeteroView, i: int) -> Seq<char> {
    h.node_types[h.edge_types[i].dst_type as int].name
}

/// The table entry of edge type `i`.
pub open spec fn edge_entry(h: HeteroView, i: int) -> Seq<u8> {
    padded(encode_utf8(src_name(h, i))) + padded(encode_utf8(h.edge_types[i].relation)) + padded(
        encode_utf8(dst_name(h, i)),
    ) + u64_le(h.graphs[i].num_nodes as u64) + u64_le(h.graphs[i].num_edges as u64) + u32_le(
        if h.graphs[i].weights is Some {
            1
        } else {
            0
        },
    ) + u32_le(0)
}

/// The table of the first `k` edge types.
pub open spec fn edge_table(h: HeteroView, k: nat) -> Seq<u8>
    decreases k,
{
    if k == 0 {
        Seq::empty()
    } else {
        edge_table(h, (k - 1) as nat) + edge_entry(h, k - 1)
    }
}

/// The arrays of a graph.
pub open spec fn section(g: GraphView) -> Seq<u8> {
    u64s_le(g.offsets) + u32s_le(g.edges) + match g.weights {
        Some(w) => u32s_le(w),
        None => Seq::empty(),
    }
}

/// The arrays of the first `k` graphs.
pub open spec fn sections(h: HeteroView, k: nat) -> Seq<u8>
    decreases k,
{
    if k == 0 {
        Seq::empty()
    } else {
        sections(h, (k - 1) as nat) + section(h.graphs[k - 1])
    }
}

/// The bytes of the file of a heterogeneous graph.
pub open spec fn hetero_file(h: HeteroView) -> Seq<u8> {
    hetero_header(h.node_types.len(), h.edge_types.len()) + node_table(h, h.node_types.len())
        + edge_table(h, h.edge_types.len()) + sections(h, h.edge_types.len())
}

/// The type names fit their fields.
pub open spec fn names_fit(h: HeteroView) -> bool {
    &&& forall|i: int| 0 <= i < h.node_types.len() ==> name_fits((#[trigger] h.node_types[i]).name)
    &&& forall|i: int|
        0 <= i < h.edge_types.len() ==> name_fits((#[trigger] h.edge_types[i]).relation)
}

/// Whether all type names fit their fields in a file.
pub fn fits_file(graph: &HeteroGraph) -> (b: bool)
    requires
        graph@.wf(),
    ensures
        b == names_fit(graph@),
{
    let nt = graph.node_type_count();
    let mut i: usize = 0;
    while i < nt
        invariant
            i <= nt == graph@.node_types.len() <= MAX_TYPES,
            forall|k: int| 0 <= k < i ==> name_fits((#[trigger] graph@.node_types[k]).name),
        decreases nt - i,
    {
        if !super::names::fits_field(graph.node_type_meta(i as u8).name.as_str()) {
            assert(!name_fits(graph@.node_types[i as int].name));
            return false;
        }
        i += 1;
    }
    let et = graph.edge_type_count();
    let mut i: usize = 0;
    while i < et
        invariant
            i <= et == graph@.edge_types.len() <= MAX_TYPES,
            forall|k: int| 0 <= k < i ==> name_fits((#[trigger] graph@.edge_types[k]).relation),
        decreases et - i,
    {
        if !super::names::fits_field(graph.edge_type_meta(i as u8).relation.as_str()) {
            assert(!name_fits(graph@.edge_types[i as int].relation));
            return false;
        }
        i += 1;
    }
    true
}

/// Writes a heterogeneous graph in its file format.
pub fn save_hetero_graph(graph: &HeteroGraph) -> (b: Vec<u8>)
    requires
        graph@.wf(),
        names_fit(graph@),
    ensures
        b@ == hetero_file(graph@),
{
    let ghost h = graph@;
    let nt = graph.node_type_count();
    let et = graph.edge_type_count();
    let mut out: Vec<u8> = Vec::new();
    push_u64(&mut out, HETERO_MAGIC);
    push_u32(&mut out, nt as u32);
    push_u32(&mut out, et as u32);
    push_zeros(&mut out, 48);
    let ghost head = hetero_header(h.node_types.len(), h.edge_types.len());
    assert(out@ =~= head + node_table(h, 0));
    let mut i: usize = 0;
    while i < nt
        invariant
            i <= nt == h.node_types.len() <= MAX_TYPES,
            h == graph@,
            names_fit(h),
            out@ == head + node_table(h, i as nat),
        decreases nt - i,
    {
        let meta = graph.node_type_meta(i as u8);
        let ghost before = out@;
        assert(name_fits(h.node_types[i as int].name));
        write_padded_name(&mut out, meta.name.as_str());
        push_u64(&mut out, meta.count as u64);
        assert(out@ =~= before + node_entry(h.node_types[i as int]));
        assert(out@ =~= head + node_table(h, (i + 1) as nat));
        i += 1;
    }
    let ghost head = head + node_table(h, h.node_types.len());
    assert(out@ =~= head + edge_table(h, 0));
    let mut i: usize = 0;
    while i < et
        invariant
            i <= et == h.edge_types.len() <= MAX_TYPES,
            h == graph@,
            h.wf(),
            names_fit(h),
            out@ == head + edge_table(h, i as nat),
        decreases et - i,
    {
        let meta = graph.edge_type_meta(i as u8);
        let ghost before = out@;
        assert(h.edge_types[i as int].src_type < h.node_types.len());
        let src = graph.node_type_meta(meta.src_type);
        let dst = graph.node_type_meta(meta.dst_type);
        let csr = graph.csr(i as u8);
        assert(name_fits(h.edge_types[i as int].relation));
        assert(name_fits(h.node_types[meta.src_type as int].name));
        assert(name_fits(h.node_types[meta.dst_type as int].name));
        write_padded_name(&mut out, src.name.as_str());
        write_padded_name(&mut out, meta.relation.as_str());
        write_padded_name(&mut out, dst.name.as_str());
        push_u64(&mut out, csr.num_nodes() as u64);
        push_u64(&mut out, csr.num_edges() as u64);
        let has_weights: u32 = if csr.weights().is_some() {
            1
        } else {
            0
        };
        push_u32(&mut out, has_weights);
        push_u32(&mut out, 0);
        assert(out@ =~= before + edge_entry(h, i as int));
        assert(out@ =~= head + edge_table(h, (i + 1) as nat));
        i += 1;
    }
    let ghost head = head + edge_table(h, h.edge_types.len());
    assert(out@ =~= head + sections(h, 0));
    let mut i: usize = 0;
    while i < et
        invariant
            i <= et == h.edge_types.len() <= MAX_TYPES,
            h == graph@,
            h.wf(),
            out@ == head + sections(h, i as nat),
        decreases et - i,
    {
        let csr = graph.csr(i as u8);
        let ghost before = out@;
        push_u64s(&mut out, csr.offsets());
        push_u32s(&mut out, csr.edges());
        if let Some(w) = csr.weights() {
            push_u32s(&mut out, w);
        }
        assert(out@ =~= before + section(h.graphs[i as int]));
        assert(out@ =~= head + sections(h, (i + 1) as nat));
        i += 1;
    }
    out
}

/// What the edge type table says of an edge type.
pub struct EdgeHeaderView {
    pub src: Seq<char>,
    pub rel: Seq<char>,
    pub dst: Seq<char>,
    pub num_src_nodes: nat,
    pub num_edges: nat,
    pub has_weights: bool,
}

/// The first `k` entries of the node type table of a file.
pub open spec fn nodes_listed(b: Seq<u8>, k: nat) -> Result<Seq<NodeTypeView>, HeteroFileFault>
    decreases k,
{
    if k == 0 {
        Ok(Seq::empty())
    } else {
        match nodes_listed(b, (k - 1) as nat) {
            Err(e) => Err(e),
            Ok(v) => {
                let at = HETERO_HEADER_SIZE + NODE_TYPE_ENTRY_SIZE * (k - 1);
                if at + NODE_TYPE_ENTRY_SIZE > b.len() {
                    Err(HeteroFileFault::Truncated)
                } else {
                    match name_at(b, at) {
                        None => Err(HeteroFileFault::BadName),
                        Some(name) => Ok(
                            v.push(
                                NodeTypeView {
                                    name,
                                    count: le8(b, at + NAME_BYTES) as usize as nat,
                                },
                            ),
                        ),
                    }
                }
            },
        }
    }
}

/// The edge type entry at `at`.
pub open spec fn edge_header_at(b: Seq<u8>, at: int) -> Result<EdgeHeaderView, HeteroFileFault> {
    if at + EDGE_TYPE_ENTRY_SIZE > b.len() {
        Err(HeteroFileFault::Truncated)
    } else if name_at(b, at) is None || name_at(b, at + NAME_BYTES) is None || name_at(
        b,
        at + 2 * NAME_BYTES,
    ) is None {
        Err(HeteroFileFault::BadName)
    } else {
        Ok(
            EdgeHeaderView {
                src: name_at(b, at)->0,
                rel: name_at(b, at + NAME_BYTES)->0,
                dst: name_at(b, at + 2 * NAME_BYTES)->0,
                num_src_nodes: le8(b, at + 192) as nat,
                num_edges: le8(b, at + 200) as nat,
                has_weights: le4(b, at + 208) != 0,
            },
        )
    }
}

/// The first `k` entries of the edge type table, which starts at `base`.
pub open spec fn edges_listed(b: Seq<u8>, base: int, k: nat) -> Result<
    Seq<EdgeHeaderView>,
    HeteroFileFault,
>
    decreases k,
{
    if k == 0 {
        Ok(Seq::empty())
    } else {
        match edges_listed(b, base, (k - 1) as nat) {
            Err(e) => Err(e),
            Ok(v) => match edge_header_at(b, base + EDGE_TYPE_ENTRY_SIZE * (k - 1)) {
                Err(e) => Err(e),
                Ok(e) => Ok(v.push(e)),
            },
        }
    }
}

/// Bytes of the arrays of an edge type.
pub open spec fn section_size(e: EdgeHeaderView) -> nat {
    8 * (e.num_src_nodes + 1) + 4 * e.num_edges + if e.has_weights {
        4 * e.num_edges
    } else {
        0
    }
}

/// Where the arrays of edge type `k` start, if those of the first start at
/// `start`.
pub open spec fn section_start(start: int, v: Seq<EdgeHeaderView>, k: nat) -> int
    decreases k,
{
    if k == 0 {
        start
    } else {
        section_start(start, v, (k - 1) as nat) + section_size(v[k - 1])
    }
}

/// The graph whose arrays start at `at`.
pub open spec fn graph_at(b: Seq<u8>, at: int, e: EdgeHeaderView) -> GraphView {
    let edges = at + 8 * (e.num_src_nodes + 1);
    GraphView {
        num_nodes: e.num_src_nodes,
        num_edges: e.num_edges,
        offsets: u64s_at(b, at, e.num_src_nodes + 1),
        edges: u32s_at(b, edges, e.num_edges),
        weights: if e.has_weights {
            Some(u32s_at(b, edges + 4 * e.num_edges, e.num_edges))
        } else {
            None
        },
        timestamps: None,
    }
}

/// What a file lists: node types, edge types, and where the arrays start.
pub open spec fn listed(b: Seq<u8>) -> Result<
    (Seq<NodeTypeView>, Seq<EdgeHeaderView>, int),
    HeteroFileFault,
> {
    if b.len() < HETERO_HEADER_SIZE {
        Err(HeteroFileFault::TooSmall)
    } else if le8(b, 0) != HETERO_MAGIC {
        Err(HeteroFileFault::BadMagic)
    } else {
        let nt = le4(b, 8) as nat;
        let et = le4(b, 12) as nat;
        match nodes_listed(b, nt) {
            Err(e) => Err(e),
            Ok(nodes) => {
                let base = HETERO_HEADER_SIZE + NODE_TYPE_ENTRY_SIZE * nt;
                match edges_listed(b, base, et) {
                    Err(e) => Err(e),
                    Ok(edges) => {
                        let start = base + EDGE_TYPE_ENTRY_SIZE * et;
                        if section_start(start, edges, et) > b.len() {
                            Err(HeteroFileFault::Truncated)
                        } else {
                            Ok((nodes, edges, start))
                        }
                    },
                }
            },
        }
    }
}

/// `np` and `ep` are the types that the file lists, with their graphs.
pub open spec fn are_listed(
    b: Seq<u8>,
    nodes: Seq<NodeTypeView>,
    edges: Seq<EdgeHeaderView>,
    start: int,
    np: Seq<NodePart>,
    ep: Seq<EdgePart>,
) -> bool {
    &&& np.len() == nodes.len()
    &&& forall|i: int|
        0 <= i < np.len() ==> (#[trigger] np[i]).0@ == nodes[i].name && np[i].1 == nodes[i].count
    &&& ep.len() == edges.len()
    &&& forall|i: int|
        0 <= i < ep.len() ==> {
            &&& (#[trigger] ep[i]).0@ == edges[i].src
            &&& ep[i].1@ == edges[i].rel
            &&& ep[i].2@ == edges[i].dst
            &&& ep[i].3@ == graph_at(b, section_start(start, edges, i as nat), edges[i])
        }
}

/// What loading a file comes to.
pub open spec fn hetero_loads(b: Seq<u8>, r: Result<HeteroGraph, HeteroFileError>) -> bool {
    match listed(b) {
        Err(fault) => r matches Err(HeteroFileError::Fault(f)) && f == fault,
        Ok((nodes, edges, start)) => exists|np: Seq<NodePart>, ep: Seq<EdgePart>|
            {
                &&& #[trigger] are_listed(b, nodes, edges, start, np, ep)
                &&& match r {
                    Ok(h) => hetero_result(np, ep, Ok(h)),
                    Err(HeteroFileError::Build(e)) => hetero_result(np, ep, Err(e)),
                    Err(HeteroFileError::Fault(_)) => false,
                }
            },
    }
}

/// An edge type entry, read.
struct EdgeTypeHeader {
    src_name: String,
    rel_name: String,
    dst_name: String,
    num_src_nodes: u64,
    num_edges: u64,
    has_weights: bool,
}

impl View for EdgeTypeHeader {
    type V = EdgeHeaderView;

    closed spec fn view(&self) -> EdgeHeaderView {
        EdgeHeaderView {
            src: self.src_name@,
            rel: self.rel_name@,
            dst: self.dst_name@,
            num_src_nodes: self.num_src_nodes as nat,
            num_edges: self.num_edges as nat,
            has_weights: self.has_weights,
        }
    }
}

/// The views of edge type entries.
spec fn header_views(v: Seq<EdgeTypeHeader>) -> Seq<EdgeHeaderView> {
    Seq::new(v.len(), |i: int| v[i]@)
}

/// The views of node types.
spec fn node_views(v: Seq<NodePart>) -> Seq<NodeTypeView> {
    Seq::new(v.len(), |i: int| NodeTypeView { name: v[i].0@, count: v[i].1 as nat })
}

/// Once an entry is faulty the whole table is.
proof fn lemma_nodes_fault(b: Seq<u8>, k: nat, n: nat)
    requires
        k <= n,
        nodes_listed(b, k) is Err,
    ensures
        nodes_listed(b, n) == nodes_listed(b, k),
    decreases n - k,
{
    if k < n {
        lemma_nodes_fault(b, k, (n - 1) as nat);
    }
}

proof fn lemma_edges_fault(b: Seq<u8>, base: int, k: nat, n: nat)
    requires
        k <= n,
        edges_listed(b, base, k) is Err,
    ensures
        edges_listed(b, base, n) == edges_listed(b, base, k),
    decreases n - k,
{
    if k < n {
        lemma_edges_fault(b, base, k, (n - 1) as nat);
    }
}

/// Later sections start later.
proof fn lemma_section_start_grows(start: int, v: Seq<EdgeHeaderView>, k: nat, n: nat)
    requires
        k <= n,
    ensures
        section_start(start, v, k) <= section_start(start, v, n),
    decreases n - k,
{
    if k < n {
        lemma_section_start_grows(start, v, k, (n - 1) as nat);
    }
}

/// Reads the node type table.
fn read_nodes(b: &[u8], nt: usize) -> (r: Result<Vec<NodePart>, HeteroFileFault>)
    requires
        nt <= u32::MAX,
        b@.len() >= HETERO_HEADER_SIZE,
    ensures
        match r {
            Ok(v) => nodes_listed(b@, nt as nat) == Ok::<Seq<NodeTypeView>, HeteroFileFault>(
                node_views(v@),
            ) && v@.len() == nt && HETERO_HEADER_SIZE + NODE_TYPE_ENTRY_SIZE * nt <= b@.len(),
            Err(e) => nodes_listed(b@, nt as nat) == Err::<Seq<NodeTypeView>, HeteroFileFault>(e),
        },
{
    let len: usize = b.len();
    let mut v: Vec<NodePart> = Vec::new();
    let mut at: usize = HETERO_HEADER_SIZE;
    let mut i: usize = 0;
    assert(node_views(v@) =~= Seq::empty());
    while i < nt
        invariant
            i <= nt <= u32::MAX,
            len == b@.len(),
            at == HETERO_HEADER_SIZE + NODE_TYPE_ENTRY_SIZE * i <= len,
            v@.len() == i,
            nodes_listed(b@, i as nat) == Ok::<Seq<NodeTypeView>, HeteroFileFault>(node_views(v@)),
        decreases nt - i,
    {
        if len - at < NODE_TYPE_ENTRY_SIZE {
            proof {
                lemma_nodes_fault(b@, (i + 1) as nat, nt as nat);
            }
            return Err(HeteroFileFault::Truncated);
        }
        let name = match read_padded_name(b, at) {
            Some(name) => name,
            None => {
                proof {
                    lemma_nodes_fault(b@, (i + 1) as nat, nt as nat);
                }
                return Err(HeteroFileFault::BadName);
            },
        };
        let count: usize = read_u64(b, at + NAME_BYTES) as usize;
        let ghost before = v@;
        v.push((name, count));
        assert(node_views(v@) =~= node_views(before).push(
            NodeTypeView { name: name@, count: count as nat },
        ));
        at += NODE_TYPE_ENTRY_SIZE;
        i += 1;
    }
    Ok(v)
}

/// Reads the edge type entry at `at`.
fn read_edge_header(b: &[u8], at: usize) -> (r: Result<EdgeTypeHeader, HeteroFileFault>)
    requires
        at + EDGE_TYPE_ENTRY_SIZE <= b@.len(),
    ensures
        match r {
            Ok(h) => edge_header_at(b@, at as int) == Ok::<EdgeHeaderView, HeteroFileFault>(h@),
            Err(e) => edge_header_at(b@, at as int) == Err::<EdgeHeaderView, HeteroFileFault>(e),
        },
{
    let len: usize = b.len();
    assert(at + EDGE_TYPE_ENTRY_SIZE <= len);
    match (
        read_padded_name(b, at),
        read_padded_name(b, at + NAME_BYTES),
        read_padded_name(b, at + 2 * NAME_BYTES),
    ) {
        (Some(src_name), Some(rel_name), Some(dst_name)) => Ok(
            EdgeTypeHeader {
                src_name,
                rel_name,
                dst_name,
                num_src_nodes: read_u64(b, at + 192),
                num_edges: read_u64(b, at + 200),
                has_weights: read_u32(b, at + 208) != 0,
            },
        ),
        _ => Err(HeteroFileFault::BadName),
    }
}

/// Reads the edge type table.
fn read_edge_headers(b: &[u8], base: usize, et: usize) -> (r: Result<
    Vec<EdgeTypeHeader>,
    HeteroFileFault,
>)
    requires
        et <= u32::MAX,
        base <= b@.len(),
    ensures
        match r {
            Ok(v) => edges_listed(b@, base as int, et as nat) == Ok::<
                Seq<EdgeHeaderView>,
                HeteroFileFault,
            >(header_views(v@)) && v@.len() == et && base + EDGE_TYPE_ENTRY_SIZE * et <= b@.len(),
            Err(e) => edges_listed(b@, base as int, et as nat) == Err::<
                Seq<EdgeHeaderView>,
                HeteroFileFault,
            >(e),
        },
{
    let len: usize = b.len();
    let mut v: Vec<EdgeTypeHeader> = Vec::new();
    let mut at: usize = base;
    let mut i: usize = 0;
    assert(header_views(v@) =~= Seq::empty());
    while i < et
        invariant
            i <= et <= u32::MAX,
            len == b@.len(),
            at == base + EDGE_TYPE_ENTRY_SIZE * i <= len,
            v@.len() == i,
            edges_listed(b@, base as int, i as nat) == Ok::<Seq<EdgeHeaderView>, HeteroFileFault>(
                header_views(v@),
            ),
        decreases et - i,
    {
        if len - at < EDGE_TYPE_ENTRY_SIZE {
            proof {
                lemma_edges_fault(b@, base as int, (i + 1) as nat, et as nat);
            }
            return Err(HeteroFileFault::Truncated);
        }
        match read_edge_header(b, at) {
            Ok(e) => {
                let ghost before = v@;
                v.push(e);
                assert(header_views(v@) =~= header_views(before).push(e@));
            },
            Err(e) => {
                proof {
                    lemma_edges_fault(b@, base as int, (i + 1) as nat, et as nat);
                }
                return Err(e);
            },
        }
        at += EDGE_TYPE_ENTRY_SIZE;
        i += 1;
    }
    Ok(v)
}

/// Bytes of the arrays of an edge type.
fn size_of_section(h: &EdgeTypeHeader) -> (n: u128)
    ensures
        n == section_size(h@),
{
    let arrays: u128 = 8 * (h.num_src_nodes as u128 + 1) + 4 * (h.num_edges as u128);
    if h.has_weights {
        arrays + 4 * (h.num_edges as u128)
    } else {
        arrays
    }
}

/// Reads the graphs of the edge types.
fn read_sections(b: &[u8], start: usize, headers: &Vec<EdgeTypeHeader>) -> (r: Option<Vec<EdgePart>>)
    requires
        start <= b@.len(),
    ensures
        ({
            let v = header_views(headers@);
            match r {
                Some(ep) => {
                    &&& section_start(start as int, v, v.len()) <= b@.len()
                    &&& ep@.len() == v.len()
                    &&& forall|i: int|
                        0 <= i < ep@.len() ==> {
                            &&& (#[trigger] ep@[i]).0@ == v[i].src
                            &&& ep@[i].1@ == v[i].rel
                            &&& ep@[i].2@ == v[i].dst
                            &&& ep@[i].3@ == graph_at(
                                b@,
                                section_start(start as int, v, i as nat),
                                v[i],
                            )
                        }
                },
                None => section_start(start as int, v, v.len()) > b@.len(),
            }
        }),
{
    let ghost v = header_views(headers@);
    let len: usize = b.len();
    let mut ep: Vec<EdgePart> = Vec::new();
    let mut at: usize = start;
    let mut i: usize = 0;
    while i < headers.len()
        invariant
            i <= headers@.len(),
            v == header_views(headers@),
            len == b@.len(),
            at == section_start(start as int, v, i as nat) <= len,
            ep@.len() == i,
            forall|k: int|
                0 <= k < ep@.len() ==> {
                    &&& (#[trigger] ep@[k]).0@ == v[k].src
                    &&& ep@[k].1@ == v[k].rel
                    &&& ep@[k].2@ == v[k].dst
                    &&& ep@[k].3@ == graph_at(b@, section_start(start as int, v, k as nat), v[k])
                },
        decreases headers@.len() - i,
    {
        let hdr = &headers[i];
        let size = size_of_section(hdr);
        if size > (len - at) as u128 {
            proof {
                lemma_section_start_grows(start as int, v, (i + 1) as nat, v.len());
            }
            return None;
        }
        let n: usize = hdr.num_src_nodes as usize;
        let m: usize = hdr.num_edges as usize;
        let edges_at: usize = at + 8 * (n + 1);
        let offsets = read_u64s(b, at, n + 1);
        let edges = read_u32s(b, edges_at, m);
        let weights: Option<Vec<u32>> = if hdr.has_weights {
            Some(read_u32s(b, edges_at + 4 * m, m))
        } else {
            None
        };
        let graph = Graph::from_owned_parts(n, m, offsets, edges, weights);
        assert(graph@ =~= graph_at(b@, at as int, v[i as int]));
        ep.push((hdr.src_name.clone(), hdr.rel_name.clone(), hdr.dst_name.clone(), graph));
        at += size as usize;
        i += 1;
    }
    Some(ep)
}

/// Reads the types that a file lists.
fn read_parts(bytes: &[u8]) -> (r: Result<(Vec<NodePart>, Vec<EdgePart>), HeteroFileFault>)
    ensures
        match r {
            Ok(parts) => match listed(bytes@) {
                Ok((nodes, edges, start)) => are_listed(
                    bytes@,
                    nodes,
                    edges,
                    start,
                    parts.0@,
                    parts.1@,
                ),
                Err(_) => false,
            },
            Err(e) => listed(bytes@) == Err::<
                (Seq<NodeTypeView>, Seq<EdgeHeaderView>, int),
                HeteroFileFault,
            >(e),
        },
{
    if bytes.len() < HETERO_HEADER_SIZE {
        return Err(HeteroFileFault::TooSmall);
    }
    if read_u64(bytes, 0) != HETERO_MAGIC {
        return Err(HeteroFileFault::BadMagic);
    }
    let nt: usize = read_u32(bytes, 8) as usize;
    let et: usize = read_u32(bytes, 12) as usize;
    let len: usize = bytes.len();
    let nodes = match read_nodes(bytes, nt) {
        Ok(v) => v,
        Err(e) => {
            return Err(e);
        },
    };
    let base: usize = HETERO_HEADER_SIZE + NODE_TYPE_ENTRY_SIZE * nt;
    let headers = match read_edge_headers(bytes, base, et) {
        Ok(v) => v,
        Err(e) => {
            return Err(e);
        },
    };
    let start: usize = base + EDGE_TYPE_ENTRY_SIZE * et;
    match read_sections(bytes, start, &headers) {
        Some(edges) => Ok((nodes, edges)),
        None => Err(HeteroFileFault::Truncated),
    }
}

/// Loads a heterogeneous graph from the bytes of its file.
pub fn load_hetero_graph(bytes: &[u8]) -> (r: Result<HeteroGraph, HeteroFileError>)
    ensures
        hetero_loads(bytes@, r),
{
    match read_parts(bytes) {
        Ok((nodes, edges)) => match HeteroGraph::try_from_parts(nodes, edges) {
            Ok(h) => Ok(h),
            Err(e) => Err(HeteroFileError::Build(e)),
        },
        Err(e) => Err(HeteroFileError::Fault(e)),
    }
}

/// A graph that its file can hold in full: names fit their fields and do not
/// hold the zero character, and every edge type has a well-shaped graph.
pub open spec fn storable(h: HeteroView) -> bool {
    &&& h.wf()
    &&& names_fit(h)
    &&& forall|i: int|
        0 <= i < h.node_types.len() ==> without_zero((#[trigger] h.node_types[i]).name)
            && h.node_types[i].count <= usize::MAX
    &&& forall|i: int|
        0 <= i < h.edge_types.len() ==> without_zero((#[trigger] h.edge_types[i]).relation)
    &&& forall|i: int|
        0 <= i < h.graphs.len() ==> (#[trigger] h.graphs[i]).shaped() && h.graphs[i].edge_data_fits()
            && h.graphs[i].num_nodes <= usize::MAX && h.graphs[i].num_edges <= usize::MAX
}

/// What the edge type table says of edge type `i` of `h`.
spec fn header_of_edge(h: HeteroView, i: int) -> EdgeHeaderView {
    EdgeHeaderView {
        src: src_name(h, i),
        rel: h.edge_types[i].relation,
        dst: dst_name(h, i),
        num_src_nodes: h.graphs[i].num_nodes,
        num_edges: h.graphs[i].num_edges,
        has_weights: h.graphs[i].weights is Some,
    }
}

spec fn headers_of(h: HeteroView, k: nat) -> Seq<EdgeHeaderView> {
    Seq::new(k, |i: int| header_of_edge(h, i))
}

proof fn lemma_node_table_len(h: HeteroView, k: nat)
    requires
        storable(h),
        k <= h.node_types.len(),
    ensures
        node_table(h, k).len() == NODE_TYPE_ENTRY_SIZE * k,
    decreases k,
{
    if k > 0 {
        lemma_node_table_len(h, (k - 1) as nat);
        assert(name_fits(h.node_types[k - 1].name));
    }
}

proof fn lemma_node_table_entry(h: HeteroView, k: nat, i: int)
    requires
        storable(h),
        0 <= i < k <= h.node_types.len(),
    ensures
        holds_at(node_table(h, k), NODE_TYPE_ENTRY_SIZE * i, node_entry(h.node_types[i])),
    decreases k,
{
    let prev = (k - 1) as nat;
    let before = node_table(h, prev);
    let last = node_entry(h.node_types[k - 1]);
    lemma_node_table_len(h, prev);
    if i < k - 1 {
        lemma_node_table_entry(h, prev, i);
        lemma_holds_between(Seq::empty(), before, last);
        assert(Seq::<u8>::empty() + before + last =~= node_table(h, k));
        lemma_holds_inside(
            node_table(h, k),
            0,
            before,
            NODE_TYPE_ENTRY_SIZE * i,
            node_entry(h.node_types[i]),
        );
    } else {
        lemma_holds_between(before, last, Seq::empty());
        assert(before + last + Seq::<u8>::empty() =~= node_table(h, k));
    }
}

proof fn lemma_edge_entry_len(h: HeteroView, i: int)
    requires
        storable(h),
        0 <= i < h.edge_types.len(),
    ensures
        edge_entry(h, i).len() == EDGE_TYPE_ENTRY_SIZE,
        name_fits(src_name(h, i)),
        name_fits(dst_name(h, i)),
        name_fits(h.edge_types[i].relation),
        without_zero(src_name(h, i)),
        without_zero(dst_name(h, i)),
        without_zero(h.edge_types[i].relation),
{
    let e = h.edge_types[i];
    assert(e.src_type < h.node_types.len() && e.dst_type < h.node_types.len());
    assert(name_fits(h.node_types[e.src_type as int].name));
    assert(name_fits(h.node_types[e.dst_type as int].name));
}

proof fn lemma_edge_table_len(h: HeteroView, k: nat)
    requires
        storable(h),
        k <= h.edge_types.len(),
    ensures
        edge_table(h, k).len() == EDGE_TYPE_ENTRY_SIZE * k,
    decreases k,
{
    if k > 0 {
        lemma_edge_table_len(h, (k - 1) as nat);
        lemma_edge_entry_len(h, k - 1);
    }
}

proof fn lemma_edge_table_entry(h: HeteroView, k: nat, i: int)
    requires
        storable(h),
        0 <= i < k <= h.edge_types.len(),
    ensures
        holds_at(edge_table(h, k), EDGE_TYPE_ENTRY_SIZE * i, edge_entry(h, i)),
    decreases k,
{
    let prev = (k - 1) as nat;
    let before = edge_table(h, prev);
    let last = edge_entry(h, k - 1);
    lemma_edge_table_len(h, prev);
    if i < k - 1 {
        lemma_edge_table_entry(h, prev, i);
        lemma_holds_between(Seq::empty(), before, last);
        assert(Seq::<u8>::empty() + before + last =~= edge_table(h, k));
        lemma_holds_inside(edge_table(h, k), 0, before, EDGE_TYPE_ENTRY_SIZE * i, edge_entry(h, i));
    } else {
        lemma_holds_between(before, last, Seq::empty());
        assert(before + last + Seq::<u8>::empty() =~= edge_table(h, k));
    }
}

proof fn lemma_section_place(h: HeteroView, k: nat, i: nat)
    requires
        storable(h),
        i < k <= h.graphs.len(),
    ensures
        holds_at(sections(h, k), sections(h, i).len() as int, section(h.graphs[i as int])),
    decreases k,
{
    let prev = (k - 1) as nat;
    let before = sections(h, prev);
    let last = section(h.graphs[k - 1]);
    if i < k - 1 {
        lemma_section_place(h, prev, i);
        lemma_holds_between(Seq::empty(), before, last);
        assert(Seq::<u8>::empty() + before + last =~= sections(h, k));
        lemma_holds_inside(
            sections(h, k),
            0,
            before,
            sections(h, i).len() as int,
            section(h.graphs[i as int]),
        );
    } else {
        lemma_holds_between(before, last, Seq::empty());
        assert(before + last + Seq::<u8>::empty() =~= sections(h, k));
    }
}

/// A node entry reads back.
proof fn lemma_node_reads_back(b: Seq<u8>, at: int, t: NodeTypeView)
    requires
        name_fits(t.name),
        without_zero(t.name),
        t.count <= usize::MAX,
        holds_at(b, at, node_entry(t)),
    ensures
        name_at(b, at) == Some(t.name),
        le8(b, at + NAME_BYTES) == t.count,
{
    let name = padded(encode_utf8(t.name));
    let count = u64_le(t.count as u64);
    lemma_holds_between(Seq::empty(), name, count);
    assert(Seq::<u8>::empty() + name + count =~= node_entry(t));
    lemma_holds_between(name, count, Seq::empty());
    assert(name + count + Seq::<u8>::empty() =~= node_entry(t));
    lemma_holds_inside(b, at, node_entry(t), 0, name);
    lemma_holds_inside(b, at, node_entry(t), NAME_BYTES as int, count);
    law_name_round_trip(b, at, t.name);
    lemma_u64_round_trip(b, at + NAME_BYTES, t.count as u64);
}

/// An edge entry reads back.
proof fn lemma_edge_reads_back(b: Seq<u8>, at: int, h: HeteroView, i: int)
    requires
        storable(h),
        0 <= i < h.edge_types.len(),
        holds_at(b, at, edge_entry(h, i)),
    ensures
        edge_header_at(b, at) == Ok::<EdgeHeaderView, HeteroFileFault>(header_of_edge(h, i)),
{
    lemma_edge_entry_len(h, i);
    let g = h.graphs[i];
    assert(g.shaped());
    let src = padded(encode_utf8(src_name(h, i)));
    let rel = padded(encode_utf8(h.edge_types[i].relation));
    let dst = padded(encode_utf8(dst_name(h, i)));
    let n = u64_le(g.num_nodes as u64);
    let m = u64_le(g.num_edges as u64);
    let flag: u32 = if g.weights is Some {
        1
    } else {
        0
    };
    let w = u32_le(flag);
    let z = u32_le(0);
    let e = edge_entry(h, i);
    assert(e =~= Seq::<u8>::empty() + src + (rel + dst + n + m + w + z));
    lemma_holds_between(Seq::empty(), src, rel + dst + n + m + w + z);
    assert(e =~= src + rel + (dst + n + m + w + z));
    lemma_holds_between(src, rel, dst + n + m + w + z);
    assert(e =~= (src + rel) + dst + (n + m + w + z));
    lemma_holds_between(src + rel, dst, n + m + w + z);
    assert(e =~= (src + rel + dst) + n + (m + w + z));
    lemma_holds_between(src + rel + dst, n, m + w + z);
    assert(e =~= (src + rel + dst + n) + m + (w + z));
    lemma_holds_between(src + rel + dst + n, m, w + z);
    assert(e =~= (src + rel + dst + n + m) + w + z);
    lemma_holds_between(src + rel + dst + n + m, w, z);
    lemma_holds_inside(b, at, e, 0, src);
    lemma_holds_inside(b, at, e, NAME_BYTES as int, rel);
    lemma_holds_inside(b, at, e, 2 * NAME_BYTES, dst);
    lemma_holds_inside(b, at, e, 192, n);
    lemma_holds_inside(b, at, e, 200, m);
    lemma_holds_inside(b, at, e, 208, w);
    law_name_round_trip(b, at, src_name(h, i));
    law_name_round_trip(b, at + NAME_BYTES, h.edge_types[i].relation);
    law_name_round_trip(b, at + 2 * NAME_BYTES, dst_name(h, i));
    lemma_u64_round_trip(b, at + 192, g.num_nodes as u64);
    lemma_u64_round_trip(b, at + 200, g.num_edges as u64);
    lemma_u32_round_trip(b, at + 208, flag);
}

/// The arrays of a graph read back.
proof fn lemma_section_reads_back(b: Seq<u8>, at: int, h: HeteroView, i: int)
    requires
        storable(h),
        0 <= i < h.graphs.len(),
        holds_at(b, at, section(h.graphs[i])),
    ensures
        graph_at(b, at, header_of_edge(h, i)) == (GraphView { timestamps: None, ..h.graphs[i] }),
        section(h.graphs[i]).len() == section_size(header_of_edge(h, i)),
{
    let g = h.graphs[i];
    assert(g.shaped() && g.edge_data_fits());
    let o = u64s_le(g.offsets);
    let e = u32s_le(g.edges);
    let w = match g.weights {
        Some(w) => u32s_le(w),
        None => Seq::empty(),
    };
    let s = section(g);
    assert(s =~= Seq::<u8>::empty() + o + (e + w));
    lemma_holds_between(Seq::empty(), o, e + w);
    assert(s =~= o + e + w);
    lemma_holds_between(o, e, w);
    lemma_holds_inside(b, at, s, 0, o);
    lemma_holds_inside(b, at, s, o.len() as int, e);
    lemma_u64s_round_trip(b, at, g.offsets);
    lemma_u32s_round_trip(b, at + o.len(), g.edges);
    if let Some(ws) = g.weights {
        assert(s =~= (o + e) + w + Seq::<u8>::empty());
        lemma_holds_between(o + e, w, Seq::empty());
        lemma_holds_inside(b, at, s, (o + e).len() as int, w);
        lemma_u32s_round_trip(b, at + (o + e).len(), ws);
    }
    assert(graph_at(b, at, header_of_edge(h, i)) =~= GraphView { timestamps: None, ..g });
}

/// The parts of a file stand where they should.
proof fn lemma_file_parts(h: HeteroView)
    requires
        storable(h),
    ensures
        ({
            let b = hetero_file(h);
            let nt = h.node_types.len();
            let et = h.edge_types.len();
            let base = HETERO_HEADER_SIZE + NODE_TYPE_ENTRY_SIZE * nt;
            let start = base + EDGE_TYPE_ENTRY_SIZE * et;
            &&& le8(b, 0) == HETERO_MAGIC
            &&& le4(b, 8) == nt
            &&& le4(b, 12) == et
            &&& b.len() == start + sections(h, et).len()
            &&& holds_at(b, HETERO_HEADER_SIZE as int, node_table(h, nt))
            &&& holds_at(b, base as int, edge_table(h, et))
            &&& holds_at(b, start as int, sections(h, et))
        }),
{
    let b = hetero_file(h);
    let nt = h.node_types.len();
    let et = h.edge_types.len();
    let head = hetero_header(nt, et);
    let nodes = node_table(h, nt);
    let edges = edge_table(h, et);
    let arrays = sections(h, et);
    lemma_node_table_len(h, nt);
    lemma_edge_table_len(h, et);
    assert(head.len() == HETERO_HEADER_SIZE);
    assert(b =~= head + nodes + (edges + arrays));
    lemma_holds_between(head, nodes, edges + arrays);
    assert(b =~= (head + nodes) + edges + arrays);
    lemma_holds_between(head + nodes, edges, arrays);
    assert(b =~= (head + nodes + edges) + arrays + Seq::<u8>::empty());
    lemma_holds_between(head + nodes + edges, arrays, Seq::empty());
    assert(b =~= Seq::<u8>::empty() + head + (nodes + edges + arrays));
    lemma_holds_between(Seq::empty(), head, nodes + edges + arrays);
    let magic = u64_le(HETERO_MAGIC);
    let a = u32_le(nt as u32);
    let c = u32_le(et as u32);
    let z = Seq::new(48, |i: int| 0u8);
    assert(head =~= Seq::<u8>::empty() + magic + (a + c + z));
    lemma_holds_between(Seq::empty(), magic, a + c + z);
    assert(head =~= magic + a + (c + z));
    lemma_holds_between(magic, a, c + z);
    assert(head =~= (magic + a) + c + z);
    lemma_holds_between(magic + a, c, z);
    lemma_holds_inside(b, 0, head, 0, magic);
    lemma_holds_inside(b, 0, head, 8, a);
    lemma_holds_inside(b, 0, head, 12, c);
    lemma_u64_round_trip(b, 0, HETERO_MAGIC);
    lemma_u32_round_trip(b, 8, nt as u32);
    lemma_u32_round_trip(b, 12, et as u32);
}

proof fn lemma_nodes_listed(b: Seq<u8>, h: HeteroView, k: nat)
    requires
        storable(h),
        k <= h.node_types.len(),
        holds_at(b, HETERO_HEADER_SIZE as int, node_table(h, h.node_types.len())),
    ensures
        nodes_listed(b, k) == Ok::<Seq<NodeTypeView>, HeteroFileFault>(
            h.node_types.take(k as int),
        ),
    decreases k,
{
    if k == 0 {
        assert(h.node_types.take(0) =~= Seq::empty());
    } else {
        lemma_nodes_listed(b, h, (k - 1) as nat);
        let t = h.node_types[k - 1];
        let at = HETERO_HEADER_SIZE + NODE_TYPE_ENTRY_SIZE * (k - 1);
        assert(name_fits(t.name) && without_zero(t.name));
        assert(at + NODE_TYPE_ENTRY_SIZE <= b.len()) by {
            lemma_node_table_len(h, h.node_types.len());
        }
        assert(name_at(b, at) == Some(t.name) && le8(b, at + NAME_BYTES) == t.count) by {
            lemma_node_table_entry(h, h.node_types.len(), k - 1);
            lemma_holds_inside(
                b,
                HETERO_HEADER_SIZE as int,
                node_table(h, h.node_types.len()),
                NODE_TYPE_ENTRY_SIZE * (k - 1),
                node_entry(t),
            );
            lemma_node_reads_back(b, at, t);
        }
        assert(h.node_types.take(k as int) =~= h.node_types.take(k - 1).push(t));
    }
}

proof fn lemma_edges_listed(b: Seq<u8>, base: int, h: HeteroView, k: nat)
    requires
        storable(h),
        k <= h.edge_types.len(),
        holds_at(b, base, edge_table(h, h.edge_types.len())),
    ensures
        edges_listed(b, base, k) == Ok::<Seq<EdgeHeaderView>, HeteroFileFault>(headers_of(h, k)),
    decreases k,
{
    if k == 0 {
        assert(headers_of(h, 0) =~= Seq::empty());
    } else {
        lemma_edges_listed(b, base, h, (k - 1) as nat);
        let at = base + EDGE_TYPE_ENTRY_SIZE * (k - 1);
        assert(edge_header_at(b, at) == Ok::<EdgeHeaderView, HeteroFileFault>(
            header_of_edge(h, k - 1),
        )) by {
            lemma_edge_table_entry(h, h.edge_types.len(), k - 1);
            lemma_holds_inside(
                b,
                base,
                edge_table(h, h.edge_types.len()),
                EDGE_TYPE_ENTRY_SIZE * (k - 1),
                edge_entry(h, k - 1),
            );
            lemma_edge_reads_back(b, at, h, k - 1);
        }
        assert(headers_of(h, k) =~= headers_of(h, (k - 1) as nat).push(header_of_edge(h, k - 1)));
    }
}

proof fn lemma_section_starts(h: HeteroView, start: int, k: nat)
    requires
        storable(h),
        k <= h.edge_types.len(),
    ensures
        section_start(start, headers_of(h, h.edge_types.len()), k) == start + sections(h, k).len(),
    decreases k,
{
    if k > 0 {
        lemma_section_starts(h, start, (k - 1) as nat);
        let s = section(h.graphs[k - 1]);
        lemma_holds_between(Seq::empty(), s, Seq::empty());
        assert(Seq::<u8>::empty() + s + Seq::<u8>::empty() =~= s);
        lemma_section_reads_back(s, 0, h, k - 1);
    }
}

/// What the file of a graph lists.
proof fn lemma_file_listed(h: HeteroView)
    requires
        storable(h),
    ensures
        ({
            let start = HETERO_HEADER_SIZE + NODE_TYPE_ENTRY_SIZE * h.node_types.len()
                + EDGE_TYPE_ENTRY_SIZE * h.edge_types.len();
            listed(hetero_file(h)) == Ok::<
                (Seq<NodeTypeView>, Seq<EdgeHeaderView>, int),
                HeteroFileFault,
            >((h.node_types, headers_of(h, h.edge_types.len()), start as int))
        }),
{
    let b = hetero_file(h);
    let nt = h.node_types.len();
    let et = h.edge_types.len();
    let base = (HETERO_HEADER_SIZE + NODE_TYPE_ENTRY_SIZE * nt) as int;
    let start = base + EDGE_TYPE_ENTRY_SIZE * et;
    lemma_file_parts(h);
    lemma_nodes_listed(b, h, nt);
    assert(h.node_types.take(nt as int) =~= h.node_types);
    lemma_edges_listed(b, base, h, et);
    lemma_section_starts(h, start, et);
}

/// The graph of edge type `i` in the file of a graph.
proof fn lemma_file_graph(h: HeteroView, i: int)
    requires
        storable(h),
        0 <= i < h.edge_types.len(),
    ensures
        ({
            let start = HETERO_HEADER_SIZE + NODE_TYPE_ENTRY_SIZE * h.node_types.len()
                + EDGE_TYPE_ENTRY_SIZE * h.edge_types.len();
            let headers = headers_of(h, h.edge_types.len());
            graph_at(hetero_file(h), section_start(start as int, headers, i as nat), headers[i])
                == (GraphView { timestamps: None, ..h.graphs[i] })
        }),
{
    let b = hetero_file(h);
    let et = h.edge_types.len();
    let start = (HETERO_HEADER_SIZE + NODE_TYPE_ENTRY_SIZE * h.node_types.len()
        + EDGE_TYPE_ENTRY_SIZE * et) as int;
    lemma_file_parts(h);
    lemma_section_place(h, et, i as nat);
    lemma_holds_inside(
        b,
        start,
        sections(h, et),
        sections(h, i as nat).len() as int,
        section(h.graphs[i]),
    );
    lemma_section_reads_back(b, start + sections(h, i as nat).len(), h, i);
    lemma_section_starts(h, start, i as nat);
}

/// A graph built from the types and graphs of `h` is `h`, but for timestamps.
proof fn lemma_rebuilt(h: HeteroView, back: HeteroView, np: Seq<NodePart>, ep: Seq<EdgePart>)
    requires
        h.wf(),
        back.wf(),
        is_made_of(back, np, ep),
        np.len() == h.node_types.len(),
        forall|i: int|
            0 <= i < np.len() ==> (#[trigger] np[i]).0@ == h.node_types[i].name && np[i].1
                == h.node_types[i].count,
        ep.len() == h.edge_types.len(),
        forall|i: int|
            0 <= i < ep.len() ==> (#[trigger] ep[i]).0@ == src_name(h, i) && ep[i].1@
                == h.edge_types[i].relation && ep[i].2@ == dst_name(h, i) && ep[i].3@ == (
            GraphView { timestamps: None, ..h.graphs[i] }),
    ensures
        back.node_types == h.node_types,
        back.edge_types == h.edge_types,
        back.graphs == Seq::new(
            h.graphs.len(),
            |i: int| GraphView { timestamps: None, ..h.graphs[i] },
        ),
{
    assert forall|i: int| 0 <= i < np.len() implies back.node_types[i] == h.node_types[i] by {
        assert(np[i].0@ == h.node_types[i].name);
    }
    assert(back.node_types =~= h.node_types);
    assert forall|i: int| 0 <= i < ep.len() implies back.edge_types[i] == h.edge_types[i] by {
        assert(ep[i].0@ == src_name(h, i));
        let e = back.edge_types[i];
        let f = h.edge_types[i];
        assert(f.src_type < h.node_types.len() && f.dst_type < h.node_types.len());
        law_names_are_unique(h, src_name(h, i), e.src_type as int, f.src_type as int);
        law_names_are_unique(h, dst_name(h, i), e.dst_type as int, f.dst_type as int);
    }
    assert(back.edge_types =~= h.edge_types);
    assert(back.graphs =~= Seq::new(
        h.graphs.len(),
        |i: int| GraphView { timestamps: None, ..h.graphs[i] },
    )) by {
        assert forall|i: int| 0 <= i < ep.len() implies back.graphs[i] == (GraphView {
            timestamps: None,
            ..h.graphs[i]
        }) by {
            assert(ep[i].0@ == src_name(h, i));
        }
    }
}

/// A saved heterogeneous graph loads back as itself (without timestamps, which
/// files do not hold).
pub proof fn law_hetero_file_round_trip(h: HeteroView, r: Result<HeteroGraph, HeteroFileError>)
    requires
        storable(h),
        hetero_loads(hetero_file(h), r),
    ensures
        r is Ok,
        r->Ok_0@.node_types == h.node_types,
        r->Ok_0@.edge_types == h.edge_types,
        r->Ok_0@.graphs == Seq::new(
            h.graphs.len(),
            |i: int| GraphView { timestamps: None, ..h.graphs[i] },
        ),
{
    let b = hetero_file(h);
    let headers = headers_of(h, h.edge_types.len());
    let start = (HETERO_HEADER_SIZE + NODE_TYPE_ENTRY_SIZE * h.node_types.len()
        + EDGE_TYPE_ENTRY_SIZE * h.edge_types.len()) as int;
    lemma_file_listed(h);
    let (np, ep) = choose|np: Seq<NodePart>, ep: Seq<EdgePart>|
        {
            &&& #[trigger] are_listed(b, h.node_types, headers, start, np, ep)
            &&& match r {
                Ok(h) => hetero_result(np, ep, Ok(h)),
                Err(HeteroFileError::Build(e)) => hetero_result(np, ep, Err(e)),
                Err(HeteroFileError::Fault(_)) => false,
            }
        };
    lemma_parts_build(h, np, ep, headers);
    assert forall|i: int| 0 <= i < ep.len() implies (#[trigger] ep[i]).0@ == src_name(h, i)
        && ep[i].1@ == h.edge_types[i].relation && ep[i].2@ == dst_name(h, i) && ep[i].3@ == (
    GraphView { timestamps: None, ..h.graphs[i] }) by {
        lemma_file_graph(h, i);
    }
    lemma_rebuilt(h, r->Ok_0@, np, ep);
}

/// Types listed from a well-formed graph build a graph.
proof fn lemma_parts_build(
    h: HeteroView,
    np: Seq<NodePart>,
    ep: Seq<EdgePart>,
    headers: Seq<EdgeHeaderView>,
)
    requires
        h.wf(),
        headers == headers_of(h, h.edge_types.len()),
        np.len() == h.node_types.len(),
        forall|i: int| 0 <= i < np.len() ==> (#[trigger] np[i]).0@ == h.node_types[i].name,
        ep.len() == headers.len(),
        forall|i: int|
            0 <= i < ep.len() ==> (#[trigger] ep[i]).0@ == headers[i].src && ep[i].1@
                == headers[i].rel && ep[i].2@ == headers[i].dst,
    ensures
        names_distinct(np),
        !(exists|i: int| first_bad_edge_part(np, ep, i)),
{
    assert forall|k: int| 0 <= k < np.len() implies #[trigger] new_name(np, k) by {
        assert forall|j: int| 0 <= j < k implies (#[trigger] np[j]).0@ != np[k].0@ by {
            assert(h.node_types[j].name != h.node_types[k].name);
        }
    }
    assert forall|k: int| 0 <= k < ep.len() implies #[trigger] good_edge_part(np, ep, k) by {
        let e = h.edge_types[k];
        assert(e.src_type < np.len() && e.dst_type < np.len());
        assert(ep[k].0@ == headers[k].src);
        assert(np[e.src_type as int].0@ == ep[k].0@);
        assert(np[e.dst_type as int].0@ == ep[k].2@);
        assert forall|j: int| 0 <= j < k implies !((#[trigger] ep[j]).0@ == ep[k].0@ && ep[j].1@
            == ep[k].1@ && ep[j].2@ == ep[k].2@) by {
            let f = h.edge_types[j];
            assert(f.src_type < np.len() && f.dst_type < np.len());
            if ep[j].0@ == ep[k].0@ && ep[j].1@ == ep[k].1@ && ep[j].2@ == ep[k].2@ {
                law_edge_names_are_unique(
                    h,
                    src_name(h, k),
                    e.relation,
                    dst_name(h, k),
                    j,
                    k,
                );
            }
        }
    }
    assert forall|i: int| !first_bad_edge_part(np, ep, i) by {
        if 0 <= i < ep.len() {
            assert(good_edge_part(np, ep, i));
        }
    }
}

/// What is read of the tables of a heterogeneous graph file: after a header of 64
/// bytes (magic number, number of node types, number of edge types) every node
/// type has 72 bytes, its name and its count, and every edge type 216 bytes, the
/// names of its source, relation and destination, its source nodes, its edges and
/// whether it has weights. The sections of the edge types follow, and end inside
/// the file.
pub proof fn law_listed_reads_the_tables(b: Seq<u8>, i: int)
    ensures
        b.len() < 64 <==> listed(b) == Err::<
            (Seq<NodeTypeView>, Seq<EdgeHeaderView>, int),
            HeteroFileFault,
        >(HeteroFileFault::TooSmall),
        b.len() >= 64 && le8(b, 0) != 0x4754_4548_4854_4541 <==> listed(b) == Err::<
            (Seq<NodeTypeView>, Seq<EdgeHeaderView>, int),
            HeteroFileFault,
        >(HeteroFileFault::BadMagic),
        listed(b) matches Ok((nodes, edges, start)) ==> {
            let node_at = 64 + 72 * i;
            let edge_at = 64 + 72 * nodes.len() + 216 * i;
            &&& nodes.len() == le4(b, 8)
            &&& edges.len() == le4(b, 12)
            &&& start == 64 + 72 * nodes.len() + 216 * edges.len()
            &&& section_start(start, edges, edges.len()) <= b.len()
            &&& 0 <= i < nodes.len() ==> {
                &&& node_at + 72 <= b.len()
                &&& name_at(b, node_at) == Some(nodes[i].name)
                &&& nodes[i].count == le8(b, node_at + 64) as usize
            }
            &&& 0 <= i < edges.len() ==> {
                &&& edge_at + 216 <= b.len()
                &&& name_at(b, edge_at) == Some(edges[i].src)
                &&& name_at(b, edge_at + 64) == Some(edges[i].rel)
                &&& name_at(b, edge_at + 128) == Some(edges[i].dst)
                &&& edges[i].num_src_nodes == le8(b, edge_at + 192)
                &&& edges[i].num_edges == le8(b, edge_at + 200)
                &&& edges[i].has_weights == (le4(b, edge_at + 208) != 0)
            }
        },
{
    if b.len() >= 64 && le8(b, 0) == HETERO_MAGIC {
        let nt = le4(b, 8) as nat;
        let et = le4(b, 12) as nat;
        let base = HETERO_HEADER_SIZE + NODE_TYPE_ENTRY_SIZE * nt;
        lemma_nodes_listed_shape(b, nt, i);
        if nodes_listed(b, nt) is Ok {
            lemma_edges_listed_shape(b, base as int, et, i);
        }
    }
}

proof fn lemma_nodes_listed_shape(b: Seq<u8>, k: nat, i: int)
    ensures
        nodes_listed(b, k) matches Ok(v) ==> {
            let at = 64 + 72 * i;
            &&& v.len() == k
            &&& 0 <= i < k ==> {
                &&& at + 72 <= b.len()
                &&& name_at(b, at) == Some(v[i].name)
                &&& v[i].count == le8(b, at + 64) as usize
            }
        },
        nodes_listed(b, k) matches Err(e) ==> e is Truncated || e is BadName,
    decreases k,
{
    if k > 0 {
        lemma_nodes_listed_shape(b, (k - 1) as nat, i);
    }
}

proof fn lemma_edges_listed_shape(b: Seq<u8>, base: int, k: nat, i: int)
    ensures
        edges_listed(b, base, k) matches Ok(v) ==> {
            let at = base + 216 * i;
            &&& v.len() == k
            &&& 0 <= i < k ==> {
                &&& at + 216 <= b.len()
                &&& name_at(b, at) == Some(v[i].src)
                &&& name_at(b, at + 64) == Some(v[i].rel)
                &&& name_at(b, at + 128) == Some(v[i].dst)
                &&& v[i].num_src_nodes == le8(b, at + 192)
                &&& v[i].num_edges == le8(b, at + 200)
                &&& v[i].has_weights == (le4(b, at + 208) != 0)
            }
        },
        edges_listed(b, base, k) matches Err(e) ==> e is Truncated || e is BadName,
    decreases k,
{
    if k > 0 {
        lemma_edges_listed_shape(b, base, (k - 1) as nat, i);
    }
}

/// The tables of a file are refused only where they or the sections run past its
/// end, or a name is not valid.
pub proof fn law_tables_are_listed_when_they_fit(b: Seq<u8>)
    requires
        b.len() >= 64,
        le8(b, 0) == 0x4754_4548_4854_4541,
        64 + 72 * le4(b, 8) + 216 * le4(b, 12) <= b.len(),
        forall|i: int| 0 <= i < le4(b, 8) ==> name_at(b, #[trigger] (64 + 72 * i)) is Some,
        forall|i: int|
            0 <= i < le4(b, 12) ==> name_at(b, #[trigger] (64 + 72 * le4(b, 8) + 216 * i)) is Some
                && name_at(b, 64 + 72 * le4(b, 8) + 216 * i + 64) is Some && name_at(
                b,
                64 + 72 * le4(b, 8) + 216 * i + 128,
            ) is Some,
    ensures
        listed(b) is Ok || listed(b) == Err::<
            (Seq<NodeTypeView>, Seq<EdgeHeaderView>, int),
            HeteroFileFault,
        >(HeteroFileFault::Truncated),
{
    let nt = le4(b, 8) as nat;
    let et = le4(b, 12) as nat;
    lemma_nodes_listed_ok(b, nt);
    lemma_edges_listed_ok(b, 64 + 72 * nt as int, et);
}

proof fn lemma_nodes_listed_ok(b: Seq<u8>, k: nat)
    requires
        64 + 72 * k <= b.len(),
        forall|i: int| 0 <= i < k ==> name_at(b, #[trigger] (64 + 72 * i)) is Some,
    ensures
        nodes_listed(b, k) is Ok,
    decreases k,
{
    if k > 0 {
        lemma_nodes_listed_ok(b, (k - 1) as nat);
        assert(name_at(b, 64 + 72 * (k - 1)) is Some);
    }
}

proof fn lemma_edges_listed_ok(b: Seq<u8>, base: int, k: nat)
    requires
        base + 216 * k <= b.len(),
        forall|i: int|
            0 <= i < k ==> name_at(b, #[trigger] (base + 216 * i)) is Some && name_at(
                b,
                base + 216 * i + 64,
            ) is Some && name_at(b, base + 216 * i + 128) is Some,
    ensures
        edges_listed(b, base, k) is Ok,
    decreases k,
{
    if k > 0 {
        lemma_edges_listed_ok(b, base, (k - 1) as nat);
        assert(name_at(b, base + 216 * (k - 1)) is Some);
    }
}

/// Each section starts where the one before it ends: behind its offsets, its
/// edges and, if it has them, its weights.
pub proof fn law_sections_follow_each_other(start: int, v: Seq<EdgeHeaderView>, k: nat)
    requires
        k < v.len(),
    ensures
        section_start(start, v, 0) == start,
        section_start(start, v, k + 1) == section_start(start, v, k) + 8 * (v[k as int].num_src_nodes
            + 1) + 4 * v[k as int].num_edges + (if v[k as int].has_weights {
            4 * v[k as int].num_edges
        } else {
            0
        }),
{
}

/// The graph in a section: offsets, then edges, then weights.
pub proof fn law_section_holds_the_graph(b: Seq<u8>, at: int, e: EdgeHeaderView, i: int)
    ensures
        ({
            let g = graph_at(b, at, e);
            let edges = at + 8 * (e.num_src_nodes + 1);
            &&& g.num_nodes == e.num_src_nodes
            &&& g.num_edges == e.num_edges
            &&& g.offsets.len() == e.num_src_nodes + 1
            &&& g.edges.len() == e.num_edges
            &&& g.timestamps is None
            &&& g.weights is Some <==> e.has_weights
            &&& 0 <= i <= e.num_src_nodes ==> g.offsets[i] == le8(b, at + 8 * i)
            &&& 0 <= i < e.num_edges ==> g.edges[i] == le4(b, edges + 4 * i)
            &&& e.has_weights ==> g.weights->0.len() == e.num_edges
            &&& e.has_weights && 0 <= i < e.num_edges ==> g.weights->0[i] == le4(
                b,
                edges + 4 * e.num_edges + 4 * i,
            )
        }),
{
    let edges = at + 8 * (e.num_src_nodes + 1);
    lemma_le4_bounds(b, at + 8 * i);
    lemma_le4_bounds(b, at + 8 * i + 4);
    lemma_le4_bounds(b, edges + 4 * i);
    lemma_le4_bounds(b, edges + 4 * e.num_edges + 4 * i);
}

proof fn lemma_le4_bounds(b: Seq<u8>, at: int)
    ensures
        0 <= le4(b, at) <= u32::MAX,
{
}

/// A saved heterogeneous graph: the header with the numbers of types and zeros,
/// then the tables, each entry at its place.
pub proof fn law_hetero_file_layout(h: HeteroView, i: int)
    requires
        storable(h),
    ensures
        ({
            let b = hetero_file(h);
            let node_at = 64 + 72 * i;
            let edge_at = 64 + 72 * h.node_types.len() + 216 * i;
            &&& b.len() >= 64 + 72 * h.node_types.len() + 216 * h.edge_types.len()
            &&& le8(b, 0) == 0x4754_4548_4854_4541
            &&& le4(b, 8) == h.node_types.len()
            &&& le4(b, 12) == h.edge_types.len()
            &&& 16 <= i < 64 ==> b[i] == 0
            &&& 0 <= i < h.node_types.len() ==> {
                &&& name_at(b, node_at) == Some(h.node_types[i].name)
                &&& h.node_types[i].count == le8(b, node_at + 64) as usize
            }
            &&& 0 <= i < h.edge_types.len() ==> {
                let e = h.edge_types[i];
                let g = h.graphs[i];
                &&& name_at(b, edge_at) == Some(h.node_types[e.src_type as int].name)
                &&& name_at(b, edge_at + 64) == Some(e.relation)
                &&& name_at(b, edge_at + 128) == Some(h.node_types[e.dst_type as int].name)
                &&& g.num_nodes == le8(b, edge_at + 192)
                &&& g.num_edges == le8(b, edge_at + 200)
                &&& g.weights is Some <==> le4(b, edge_at + 208) != 0
            }
        }),
{
    let b = hetero_file(h);
    lemma_file_listed(h);
    lemma_file_parts(h);
    law_listed_reads_the_tables(b, i);
    if 16 <= i < 64 {
        let head = hetero_header(h.node_types.len(), h.edge_types.len());
        assert(head.len() == 64);
        assert(head[i] == 0);
        assert(b[i] == head[i]);
    }
}

} // verus!
