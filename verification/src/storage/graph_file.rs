//! Graph files: a 32-byte header, the offsets, the edges, and the weights where
//! the graph has them, all little-endian.
use vstd::prelude::*;
use vstd::slice::slice_subrange;
use vstd::string::StringExecFns;
use crate::bytes::{
    holds_at, le4, le8, lemma_holds_between, lemma_u32_round_trip, lemma_u32s_round_trip,
    lemma_u64_round_trip, lemma_u64s_round_trip, push_bytes, push_u32, push_u32s, push_u64,
    push_u64s, read_u32, read_u32s, read_u64, read_u64s, u32_le, u32s_at, u32s_le, u64_le, u64s_at,
    u64s_le,
};
use crate::graph::csr::{Graph, GraphValidationMode, GraphView};
use crate::graph::error::GraphError;
use crate::text::{
    decimal, hexadecimal, label_pair, lemma_tells_one, lemma_tells_two, push_hexadecimal, tells,
};
use super::checksum::{crc32, crc32_of};

verus! {

/// Magic number of graph files: "AETH" in ASCII.
pub const MAGIC: u32 = 0x4145_5448;

/// Version of files with plain arrays.
pub const VERSION: u32 = 1;

/// Bytes of a file header.
pub const HEADER_SIZE: usize = 32;

/// Most nodes that a file may claim.
pub const MAX_NODES: u64 = 10_000_000_000;

/// Most edges that a file may claim.
pub const MAX_EDGES: u64 = 100_000_000_000;

/// Files up to this size are validated in full by default.
pub const FULL_VALIDATION_THRESHOLD_BYTES: u64 = 536_870_912;

/// Why a graph file could not be loaded.
#[derive(Debug, Clone, Copy, PartialEq, Eq, Structural)]
pub enum GraphFileError {
    /// The file is shorter than a header.
    HeaderTruncated { len: usize },
    /// The file does not start with the magic number.
    BadMagic,
    /// The file has a version that the reader does not take.
    BadVersion { expected: u32, version: u32 },
    /// The file has compressed sections, which cannot be used in place.
    Compressed,
    /// The header claims more nodes than any file may have.
    TooManyNodes { nodes: u64 },
    /// The header claims more edges than any file may have.
    TooManyEdges { edges: u64 },
    /// The file is shorter than its header says.
    TooSmall { required: u64, len: usize },
    /// The body does not have the checksum that the header gives.
    ChecksumMismatch { expected: u32, actual: u32 },
    /// The payload of a compressed file does not have the checksum that the
    /// header gives.
    PayloadChecksumMismatch { expected: u32, actual: u32 },
    /// The offsets section does not have one entry more than there are nodes.
    OffsetsSection { entries: usize, nodes: u64 },
    /// The edges section does not have one entry per edge.
    EdgesSection { entries: usize, edges: u64 },
    /// The weights section does not have four bytes per edge.
    WeightsSection { len: usize, edges: u64 },
    /// Bytes follow the last section.
    TrailingBytes,
    /// The arrays are not a graph.
    Invalid(GraphError),
}

impl GraphFileError {
    /// The text of the message.
    pub open spec fn text(self) -> Seq<char> {
        match self {
            GraphFileError::HeaderTruncated { len } => "insufficient bytes for header: got "@
                + decimal(len as nat) + ", need "@ + decimal(HEADER_SIZE as nat),
            GraphFileError::BadMagic => "invalid magic number"@,
            GraphFileError::BadVersion { expected, version } => "unsupported version: expected "@
                + decimal(expected as nat) + ", got "@ + decimal(version as nat),
            GraphFileError::Compressed =>
                "graph file is compressed; load it as an owned graph instead of mapping it"@,
            GraphFileError::TooManyNodes { nodes } => "num_nodes "@ + decimal(nodes as nat)
                + " exceeds maximum "@ + decimal(MAX_NODES as nat),
            GraphFileError::TooManyEdges { edges } => "num_edges "@ + decimal(edges as nat)
                + " exceeds maximum "@ + decimal(MAX_EDGES as nat),
            GraphFileError::TooSmall { required, len } => "file too small: expected at least "@
                + decimal(required as nat) + " bytes, got "@ + decimal(len as nat),
            GraphFileError::ChecksumMismatch { expected, actual } =>
                "graph integrity checksum mismatch: expected 0x"@ + hexadecimal(expected as nat)
                + ", got 0x"@ + hexadecimal(actual as nat),
            GraphFileError::PayloadChecksumMismatch { expected, actual } =>
                "compressed graph checksum mismatch: expected 0x"@ + hexadecimal(expected as nat)
                + ", got 0x"@ + hexadecimal(actual as nat),
            GraphFileError::OffsetsSection { entries, nodes } => "offsets section has "@ + decimal(
                entries as nat,
            ) + " entries for "@ + decimal(nodes as nat) + " nodes"@,
            GraphFileError::EdgesSection { entries, edges } => "edges section has "@ + decimal(
                entries as nat,
            ) + " entries, header says "@ + decimal(edges as nat),
            GraphFileError::WeightsSection { len, edges } => "weights section is "@ + decimal(
                len as nat,
            ) + " bytes for "@ + decimal(edges as nat) + " edges"@,
            GraphFileError::TrailingBytes => "trailing bytes after edges section"@,
            GraphFileError::Invalid(e) => e.text(),
        }
    }

    /// Describes the error.
    pub fn message(&self) -> (s: String)
        ensures
            s@ == self.text(),
    {
        match *self {
            GraphFileError::HeaderTruncated { len } => label_pair(
                "insufficient bytes for header: got ",
                len as u64,
                ", need ",
                HEADER_SIZE as u64,
            ),
            GraphFileError::BadMagic => String::from_str("invalid magic number"),
            GraphFileError::BadVersion { expected, version } => label_pair(
                "unsupported version: expected ",
                expected as u64,
                ", got ",
                version as u64,
            ),
            GraphFileError::Compressed => String::from_str(
                "graph file is compressed; load it as an owned graph instead of mapping it",
            ),
            GraphFileError::TooManyNodes { nodes } => label_pair(
                "num_nodes ",
                nodes,
                " exceeds maximum ",
                MAX_NODES,
            ),
            GraphFileError::TooManyEdges { edges } => label_pair(
                "num_edges ",
                edges,
                " exceeds maximum ",
                MAX_EDGES,
            ),
            GraphFileError::TooSmall { required, len } => label_pair(
                "file too small: expected at least ",
                required,
                " bytes, got ",
                len as u64,
            ),
            GraphFileError::ChecksumMismatch { expected, actual } => {
                let mut s = String::from_str("graph integrity checksum mismatch: expected 0x");
                push_hexadecimal(&mut s, expected as u64);
                s.append(", got 0x");
                push_hexadecimal(&mut s, actual as u64);
                s
            },
            GraphFileError::PayloadChecksumMismatch { expected, actual } => {
                let mut s = String::from_str("compressed graph checksum mismatch: expected 0x");
                push_hexadecimal(&mut s, expected as u64);
                s.append(", got 0x");
                push_hexadecimal(&mut s, actual as u64);
                s
            },
            GraphFileError::OffsetsSection { entries, nodes } => {
                let mut s = label_pair(
                    "offsets section has ",
                    entries as u64,
                    " entries for ",
                    nodes,
                );
                s.append(" nodes");
                s
            },
            GraphFileError::EdgesSection { entries, edges } => label_pair(
                "edges section has ",
                entries as u64,
                " entries, header says ",
                edges,
            ),
            GraphFileError::WeightsSection { len, edges } => {
                let mut s = label_pair("weights section is ", len as u64, " bytes for ", edges);
                s.append(" edges");
                s
            },
            GraphFileError::TrailingBytes => String::from_str("trailing bytes after edges section"),
            GraphFileError::Invalid(e) => e.message(),
        }
    }
}

/// File header. A checksum of zero stands for none.
#[derive(Debug, Clone, Copy, PartialEq, Eq, Structural)]
pub struct GraphHeader {
    pub magic: u32,
    pub version: u32,
    pub num_nodes: u64,
    pub num_edges: u64,
    pub has_weights: u32,
    pub integrity_checksum32: u32,
}

/// The bytes of a header.
pub open spec fn header_bytes(h: GraphHeader) -> Seq<u8> {
    u32_le(h.magic) + u32_le(h.version) + u64_le(h.num_nodes) + u64_le(h.num_edges) + u32_le(
        h.has_weights,
    ) + u32_le(h.integrity_checksum32)
}

/// The header that a file starts with.
pub open spec fn header_of(b: Seq<u8>) -> GraphHeader {
    GraphHeader {
        magic: le4(b, 0) as u32,
        version: le4(b, 4) as u32,
        num_nodes: le8(b, 8) as u64,
        num_edges: le8(b, 16) as u64,
        has_weights: le4(b, 24) as u32,
        integrity_checksum32: le4(b, 28) as u32,
    }
}

/// A header reads back as it was written, whatever follows it.
pub proof fn law_header_round_trip(h: GraphHeader, rest: Seq<u8>)
    ensures
        header_bytes(h).len() == HEADER_SIZE,
        header_of(header_bytes(h) + rest) == h,
{
    let b = header_bytes(h) + rest;
    assert(holds_at(b, 0, u32_le(h.magic)));
    assert(holds_at(b, 4, u32_le(h.version)));
    assert(holds_at(b, 8, u64_le(h.num_nodes)));
    assert(holds_at(b, 16, u64_le(h.num_edges)));
    assert(holds_at(b, 24, u32_le(h.has_weights)));
    assert(holds_at(b, 28, u32_le(h.integrity_checksum32)));
    lemma_u32_round_trip(b, 0, h.magic);
    lemma_u32_round_trip(b, 4, h.version);
    lemma_u64_round_trip(b, 8, h.num_nodes);
    lemma_u64_round_trip(b, 16, h.num_edges);
    lemma_u32_round_trip(b, 24, h.has_weights);
    lemma_u32_round_trip(b, 28, h.integrity_checksum32);
}

impl GraphHeader {
    /// A header of the plain version.
    pub fn new(
        num_nodes: usize,
        num_edges: usize,
        has_weights: bool,
        integrity_checksum32: Option<u32>,
    ) -> (h: GraphHeader)
        ensures
            h == (GraphHeader {
                magic: MAGIC,
                version: VERSION,
                num_nodes: num_nodes as u64,
                num_edges: num_edges as u64,
                has_weights: if has_weights {
                    1
                } else {
                    0
                },
                integrity_checksum32: match integrity_checksum32 {
                    Some(c) => c,
                    None => 0,
                },
            }),
    {
        GraphHeader {
            magic: MAGIC,
            version: VERSION,
            num_nodes: num_nodes as u64,
            num_edges: num_edges as u64,
            has_weights: if has_weights {
                1
            } else {
                0
            },
            integrity_checksum32: match integrity_checksum32 {
                Some(c) => c,
                None => 0,
            },
        }
    }

    /// What is wrong with the header for a reader of `version`.
    pub open spec fn complaint(self, version: u32) -> Option<GraphFileError> {
        if self.magic != MAGIC {
            Some(GraphFileError::BadMagic)
        } else if self.version != version {
            Some(GraphFileError::BadVersion { expected: version, version: self.version })
        } else {
            None
        }
    }

    /// Checks magic number and version.
    pub fn validate(&self, version: u32) -> (r: Result<(), GraphFileError>)
        ensures
            match self.complaint(version) {
                Some(e) => r == Err::<(), GraphFileError>(e),
                None => r == Ok::<(), GraphFileError>(()),
            },
    {
        if self.magic != MAGIC {
            return Err(GraphFileError::BadMagic);
        }
        if self.version != version {
            return Err(GraphFileError::BadVersion { expected: version, version: self.version });
        }
        Ok(())
    }

    /// The checksum that the header gives, if any.
    pub open spec fn stored_checksum(self) -> Option<u32> {
        if self.integrity_checksum32 == 0 {
            None
        } else {
            Some(self.integrity_checksum32)
        }
    }

    /// The checksum that the header gives, if any.
    pub fn checksum32(&self) -> (c: Option<u32>)
        ensures
            c == self.stored_checksum(),
    {
        if self.integrity_checksum32 == 0 {
            None
        } else {
            Some(self.integrity_checksum32)
        }
    }

    /// Writes the header out.
    pub fn to_bytes(&self) -> (b: Vec<u8>)
        ensures
            b@ == header_bytes(*self),
    {
        let mut b: Vec<u8> = Vec::with_capacity(HEADER_SIZE);
        push_u32(&mut b, self.magic);
        push_u32(&mut b, self.version);
        push_u64(&mut b, self.num_nodes);
        push_u64(&mut b, self.num_edges);
        push_u32(&mut b, self.has_weights);
        push_u32(&mut b, self.integrity_checksum32);
        assert(b@ =~= header_bytes(*self));
        b
    }

    /// Reads the header that `bytes` starts with.
    pub fn from_bytes(bytes: &[u8]) -> (r: Result<GraphHeader, GraphFileError>)
        ensures
            bytes@.len() < HEADER_SIZE ==> r == Err::<GraphHeader, GraphFileError>(
                GraphFileError::HeaderTruncated { len: bytes@.len() as usize },
            ),
            bytes@.len() >= HEADER_SIZE ==> r == Ok::<GraphHeader, GraphFileError>(
                header_of(bytes@),
            ),
    {
        if bytes.len() < HEADER_SIZE {
            return Err(GraphFileError::HeaderTruncated { len: bytes.len() });
        }
        Ok(
            GraphHeader {
                magic: read_u32(bytes, 0),
                version: read_u32(bytes, 4),
                num_nodes: read_u64(bytes, 8),
                num_edges: read_u64(bytes, 16),
                has_weights: read_u32(bytes, 24),
                integrity_checksum32: read_u32(bytes, 28),
            },
        )
    }
}

/// Where the sections of a plain file lie. The offsets start behind the header,
/// the edges behind the offsets, the weights behind the edges.
#[derive(Debug, Clone, Copy, PartialEq, Eq, Structural)]
pub struct GraphFileLayout {
    pub num_nodes: usize,
    pub num_edges: usize,
    pub offsets_end: usize,
    pub edges_end: usize,
    pub has_weights: bool,
    pub checksum32: Option<u32>,
}

/// Where the offsets of a plain file end.
pub open spec fn offsets_end(num_nodes: int) -> int {
    HEADER_SIZE + 8 * (num_nodes + 1)
}

/// Where the edges of a plain file end.
pub open spec fn edges_end(num_nodes: int, num_edges: int) -> int {
    offsets_end(num_nodes) + 4 * num_edges
}

/// Size of a plain file.
pub open spec fn file_size(num_nodes: int, num_edges: int, has_weights: bool) -> int {
    edges_end(num_nodes, num_edges) + if has_weights {
        4 * num_edges
    } else {
        0
    }
}

/// The layout of a plain file, or what is wrong with it.
pub open spec fn layout_of(b: Seq<u8>) -> Result<GraphFileLayout, GraphFileError> {
    let h = header_of(b);
    if b.len() < HEADER_SIZE {
        Err(GraphFileError::HeaderTruncated { len: b.len() as usize })
    } else if h.complaint(VERSION) is Some {
        Err(h.complaint(VERSION)->0)
    } else if h.num_nodes > MAX_NODES {
        Err(GraphFileError::TooManyNodes { nodes: h.num_nodes })
    } else if h.num_edges > MAX_EDGES {
        Err(GraphFileError::TooManyEdges { edges: h.num_edges })
    } else if b.len() < file_size(h.num_nodes as int, h.num_edges as int, h.has_weights != 0) {
        Err(
            GraphFileError::TooSmall {
                required: file_size(
                    h.num_nodes as int,
                    h.num_edges as int,
                    h.has_weights != 0,
                ) as u64,
                len: b.len() as usize,
            },
        )
    } else {
        Ok(
            GraphFileLayout {
                num_nodes: h.num_nodes as usize,
                num_edges: h.num_edges as usize,
                offsets_end: offsets_end(h.num_nodes as int) as usize,
                edges_end: edges_end(h.num_nodes as int, h.num_edges as int) as usize,
                has_weights: h.has_weights != 0,
                checksum32: h.stored_checksum(),
            },
        )
    }
}

/// The arrays that a plain file stores.
pub open spec fn stored_graph(b: Seq<u8>, l: GraphFileLayout) -> GraphView {
    GraphView {
        num_nodes: l.num_nodes as nat,
        num_edges: l.num_edges as nat,
        offsets: u64s_at(b, HEADER_SIZE as int, (l.num_nodes + 1) as nat),
        edges: u32s_at(b, l.offsets_end as int, l.num_edges as nat),
        weights: if l.has_weights {
            Some(u32s_at(b, l.edges_end as int, l.num_edges as nat))
        } else {
            None
        },
        timestamps: None,
    }
}

/// The checksum of the offsets and edges of a plain file.
pub open spec fn body_checksum(b: Seq<u8>, l: GraphFileLayout) -> u32 {
    crc32(b.subrange(HEADER_SIZE as int, l.edges_end as int))
}

/// What loading a plain file in `mode` comes to. Only full validation reads the
/// checksum.
pub open spec fn loads(
    b: Seq<u8>,
    mode: GraphValidationMode,
    r: Result<Graph, GraphFileError>,
) -> bool {
    match layout_of(b) {
        Err(e) => r == Err::<Graph, GraphFileError>(e),
        Ok(l) => if mode == GraphValidationMode::Full && l.checksum32 is Some && body_checksum(b, l)
            != l.checksum32->0 {
            r == Err::<Graph, GraphFileError>(
                GraphFileError::ChecksumMismatch {
                    expected: l.checksum32->0,
                    actual: body_checksum(b, l),
                },
            )
        } else {
            match r {
                Ok(g) => g@ == stored_graph(b, l) && stored_graph(b, l).validation(mode, Ok(())),
                Err(GraphFileError::Invalid(e)) => stored_graph(b, l).validation(mode, Err(e)),
                Err(_) => false,
            }
        },
    }
}

/// Finds the sections of a plain file.
pub fn parse_layout(bytes: &[u8]) -> (r: Result<GraphFileLayout, GraphFileError>)
    ensures
        r == layout_of(bytes@),
{
    let header = match GraphHeader::from_bytes(bytes) {
        Ok(h) => h,
        Err(e) => {
            return Err(e);
        },
    };
    match header.validate(VERSION) {
        Ok(_) => {},
        Err(e) => {
            return Err(e);
        },
    }
    if header.num_nodes > MAX_NODES {
        return Err(GraphFileError::TooManyNodes { nodes: header.num_nodes });
    }
    if header.num_edges > MAX_EDGES {
        return Err(GraphFileError::TooManyEdges { edges: header.num_edges });
    }
    let has_weights = header.has_weights != 0;
    let offsets_end: u64 = HEADER_SIZE as u64 + 8 * (header.num_nodes + 1);
    let edges_end: u64 = offsets_end + 4 * header.num_edges;
    let required: u64 = if has_weights {
        edges_end + 4 * header.num_edges
    } else {
        edges_end
    };
    if (bytes.len() as u64) < required {
        return Err(GraphFileError::TooSmall { required, len: bytes.len() });
    }
    Ok(
        GraphFileLayout {
            num_nodes: header.num_nodes as usize,
            num_edges: header.num_edges as usize,
            offsets_end: offsets_end as usize,
            edges_end: edges_end as usize,
            has_weights,
            checksum32: header.checksum32(),
        },
    )
}

/// Compares the body with the checksum, under full validation and where the
/// file has one.
fn validate_checksum_if_present(
    bytes: &[u8],
    layout: &GraphFileLayout,
    validation: GraphValidationMode,
) -> (r: Result<(), GraphFileError>)
    requires
        HEADER_SIZE <= layout.edges_end <= bytes@.len(),
    ensures
        if validation == GraphValidationMode::Full && layout.checksum32 is Some && body_checksum(
            bytes@,
            *layout,
        ) != layout.checksum32->0 {
            r == Err::<(), GraphFileError>(
                GraphFileError::ChecksumMismatch {
                    expected: layout.checksum32->0,
                    actual: body_checksum(bytes@, *layout),
                },
            )
        } else {
            r == Ok::<(), GraphFileError>(())
        },
{
    if validation != GraphValidationMode::Full {
        return Ok(());
    }
    match layout.checksum32 {
        None => Ok(()),
        Some(expected) => {
            let actual = crc32_of(slice_subrange(bytes, HEADER_SIZE, layout.edges_end));
            if actual != expected {
                return Err(GraphFileError::ChecksumMismatch { expected, actual });
            }
            Ok(())
        },
    }
}

/// Loads a graph from the bytes of a plain file.
pub fn load_graph_from_mmap_with_validation(
    mmap: &[u8],
    validation: GraphValidationMode,
) -> (r: Result<Graph, GraphFileError>)
    ensures
        loads(mmap@, validation, r),
{
    let layout = match parse_layout(mmap) {
        Ok(l) => l,
        Err(e) => {
            return Err(e);
        },
    };
    let len: usize = mmap.len();
    assert(layout.edges_end <= len);
    match validate_checksum_if_present(mmap, &layout, validation) {
        Ok(_) => {},
        Err(e) => {
            return Err(e);
        },
    }
    let offsets = read_u64s(mmap, HEADER_SIZE, layout.num_nodes + 1);
    let edges = read_u32s(mmap, layout.offsets_end, layout.num_edges);
    let weights: Option<Vec<u32>> = if layout.has_weights {
        Some(read_u32s(mmap, layout.edges_end, layout.num_edges))
    } else {
        None
    };
    let graph = Graph::from_owned_parts(
        layout.num_nodes,
        layout.num_edges,
        offsets,
        edges,
        weights,
    );
    assert(graph@ == stored_graph(mmap@, layout));
    match graph.validate_with_mode(validation) {
        Ok(_) => Ok(graph),
        Err(e) => Err(GraphFileError::Invalid(e)),
    }
}

/// Loads a graph from the bytes of a plain file with full validation.
pub fn load_graph_from_mmap(mmap: &[u8]) -> (r: Result<Graph, GraphFileError>)
    ensures
        loads(mmap@, GraphValidationMode::Full, r),
{
    load_graph_from_mmap_with_validation(mmap, GraphValidationMode::Full)
}

/// The validation that a file of this size gets by default.
pub open spec fn default_mode(size: int) -> GraphValidationMode {
    if size > FULL_VALIDATION_THRESHOLD_BYTES {
        GraphValidationMode::OffsetsOnly
    } else {
        GraphValidationMode::Full
    }
}

/// The validation that a file of this size gets by default.
pub fn default_validation_mode(file_size: u64) -> (mode: GraphValidationMode)
    ensures
        mode == default_mode(file_size as int),
{
    if file_size > FULL_VALIDATION_THRESHOLD_BYTES {
        GraphValidationMode::OffsetsOnly
    } else {
        GraphValidationMode::Full
    }
}

/// The header of the file of a graph.
pub open spec fn header_for(g: GraphView) -> GraphHeader {
    GraphHeader {
        magic: MAGIC,
        version: VERSION,
        num_nodes: g.num_nodes as u64,
        num_edges: g.num_edges as u64,
        has_weights: if g.weights is Some {
            1
        } else {
            0
        },
        integrity_checksum32: crc32(u64s_le(g.offsets) + u32s_le(g.edges)),
    }
}

/// The bytes of the file of a graph.
pub open spec fn graph_file(g: GraphView) -> Seq<u8> {
    header_bytes(header_for(g)) + (u64s_le(g.offsets) + u32s_le(g.edges)) + match g.weights {
        Some(w) => u32s_le(w),
        None => Seq::empty(),
    }
}

/// Writes a CSR graph in the plain file format. Timestamps are not stored.
pub fn save_graph(graph: &Graph) -> (b: Vec<u8>)
    ensures
        b@ == graph_file(graph@),
{
    let mut body: Vec<u8> = Vec::new();
    push_u64s(&mut body, graph.offsets());
    push_u32s(&mut body, graph.edges());
    assert(body@ =~= u64s_le(graph@.offsets) + u32s_le(graph@.edges));
    let checksum = crc32_of(body.as_slice());
    let weights = graph.weights();
    let header = GraphHeader::new(
        graph.num_nodes(),
        graph.num_edges(),
        weights.is_some(),
        Some(checksum),
    );
    let mut out = header.to_bytes();
    push_bytes(&mut out, body.as_slice());
    if let Some(w) = weights {
        push_u32s(&mut out, w);
    }
    assert(out@ =~= graph_file(graph@));
    out
}

/// The bytes of the weights of a graph in its file.
spec fn weight_section(g: GraphView) -> Seq<u8> {
    match g.weights {
        Some(w) => u32s_le(w),
        None => Seq::empty(),
    }
}

/// The file of a graph has the layout of the graph.
proof fn lemma_file_layout(g: GraphView)
    requires
        g.shaped(),
        g.edge_data_fits(),
        g.num_nodes <= MAX_NODES,
        g.num_edges <= MAX_EDGES,
        graph_file(g).len() <= usize::MAX,
    ensures
        layout_of(graph_file(g)) == Ok::<GraphFileLayout, GraphFileError>(
            GraphFileLayout {
                num_nodes: g.num_nodes as usize,
                num_edges: g.num_edges as usize,
                offsets_end: offsets_end(g.num_nodes as int) as usize,
                edges_end: edges_end(g.num_nodes as int, g.num_edges as int) as usize,
                has_weights: g.weights is Some,
                checksum32: header_for(g).stored_checksum(),
            },
        ),
        graph_file(g).len() == file_size(g.num_nodes as int, g.num_edges as int, g.weights is Some),
        header_bytes(header_for(g)).len() == HEADER_SIZE,
{
    let h = header_for(g);
    let rest = u64s_le(g.offsets) + u32s_le(g.edges) + weight_section(g);
    law_header_round_trip(h, rest);
    assert(graph_file(g) =~= header_bytes(h) + rest);
}

/// The arrays of a graph stand one after the other behind a header of any content.
proof fn lemma_file_arrays(hb: Seq<u8>, g: GraphView)
    requires
        g.shaped(),
        g.edge_data_fits(),
        hb.len() == HEADER_SIZE,
    ensures
        ({
            let b = hb + (u64s_le(g.offsets) + u32s_le(g.edges)) + weight_section(g);
            let n = g.num_nodes as int;
            let m = g.num_edges as int;
            &&& u64s_at(b, HEADER_SIZE as int, g.num_nodes + 1) == g.offsets
            &&& u32s_at(b, offsets_end(n), g.num_edges) == g.edges
            &&& g.weights matches Some(w) ==> u32s_at(b, edges_end(n, m), g.num_edges) == w
            &&& b.subrange(HEADER_SIZE as int, edges_end(n, m)) == u64s_le(g.offsets) + u32s_le(
                g.edges,
            )
        }),
{
    let n = g.num_nodes as int;
    let m = g.num_edges as int;
    let ob = u64s_le(g.offsets);
    let eb = u32s_le(g.edges);
    let wb = weight_section(g);
    let b = hb + (ob + eb) + wb;
    assert(ob.len() == 8 * (n + 1));
    assert(eb.len() == 4 * m);
    assert(u64s_at(b, HEADER_SIZE as int, g.num_nodes + 1) == g.offsets) by {
        assert(b =~= hb + ob + (eb + wb));
        lemma_holds_between(hb, ob, eb + wb);
        lemma_u64s_round_trip(b, HEADER_SIZE as int, g.offsets);
    }
    assert(u32s_at(b, offsets_end(n), g.num_edges) == g.edges) by {
        assert(b =~= (hb + ob) + eb + wb);
        lemma_holds_between(hb + ob, eb, wb);
        lemma_u32s_round_trip(b, offsets_end(n), g.edges);
    }
    if let Some(w) = g.weights {
        assert(u32s_at(b, edges_end(n, m), g.num_edges) == w) by {
            assert(b =~= (hb + ob + eb) + wb + Seq::empty());
            lemma_holds_between(hb + ob + eb, wb, Seq::empty());
            lemma_u32s_round_trip(b, edges_end(n, m), w);
        }
    }
    assert(b.subrange(HEADER_SIZE as int, edges_end(n, m)) =~= ob + eb);
}

/// The file of a graph has the layout of the graph and stores its arrays.
pub proof fn lemma_file_sections(g: GraphView)
    requires
        g.shaped(),
        g.edge_data_fits(),
        g.num_nodes <= MAX_NODES,
        g.num_edges <= MAX_EDGES,
        graph_file(g).len() <= usize::MAX,
    ensures
        layout_of(graph_file(g)) is Ok,
        ({
            let l = layout_of(graph_file(g))->Ok_0;
            &&& l.num_nodes == g.num_nodes
            &&& l.num_edges == g.num_edges
            &&& l.offsets_end == offsets_end(g.num_nodes as int)
            &&& edges_end(g.num_nodes as int, g.num_edges as int) <= graph_file(g).len()
            &&& l.checksum32 is Some ==> body_checksum(graph_file(g), l) == l.checksum32->0
            &&& stored_graph(graph_file(g), l) == (GraphView { timestamps: None, ..g })
        }),
{
    lemma_file_layout(g);
    lemma_file_arrays(header_bytes(header_for(g)), g);
}

/// A saved graph loads back as itself (without timestamps, which files do not
/// hold), in every validation mode.
pub proof fn law_graph_file_round_trip(
    g: GraphView,
    mode: GraphValidationMode,
    r: Result<Graph, GraphFileError>,
)
    requires
        g.valid(),
        g.num_nodes <= MAX_NODES,
        g.num_edges <= MAX_EDGES,
        graph_file(g).len() <= usize::MAX,
        loads(graph_file(g), mode, r),
    ensures
        r is Ok,
        r->Ok_0@ == (GraphView { timestamps: None, ..g }),
{
    lemma_file_sections(g);
    let s = GraphView { timestamps: None, ..g };
    assert(s.valid());
}

/// What a graph file says of itself: the first 32 bytes are the magic number, the
/// version, the number of nodes, the number of edges, whether there are weights,
/// and the checksum (none where it is zero), all little-endian. The offsets
/// follow, then the edges, then the weights.
pub proof fn law_layout_reads_the_header(b: Seq<u8>)
    requires
        b.len() <= usize::MAX,
    ensures
        ({
            let nodes = le8(b, 8);
            let edges = le8(b, 16);
            let weighted = le4(b, 24) != 0;
            let needed = 32 + 8 * (nodes + 1) + 4 * edges + (if weighted {
                4 * edges
            } else {
                0
            });
            let headed = b.len() >= 32 && le4(b, 0) == 0x4145_5448 && le4(b, 4) == 1;
            &&& layout_of(b) is Ok <==> headed && nodes <= 10_000_000_000 && edges
                <= 100_000_000_000 && b.len() >= needed
            &&& layout_of(b) matches Ok(l) ==> {
                &&& l.num_nodes == nodes
                &&& l.num_edges == edges
                &&& l.has_weights == weighted
                &&& l.offsets_end == 32 + 8 * (nodes + 1)
                &&& l.edges_end == 32 + 8 * (nodes + 1) + 4 * edges
                &&& l.checksum32 is None <==> le4(b, 28) == 0
                &&& l.checksum32 matches Some(c) ==> c == le4(b, 28)
            }
            &&& b.len() < 32 <==> (layout_of(b) matches Err(GraphFileError::HeaderTruncated { len })
                && len == b.len())
            &&& b.len() >= 32 && le4(b, 0) != 0x4145_5448 <==> layout_of(b) == Err::<
                GraphFileLayout,
                GraphFileError,
            >(GraphFileError::BadMagic)
            &&& b.len() >= 32 && le4(b, 0) == 0x4145_5448 && le4(b, 4) != 1 <==> (layout_of(b)
                matches Err(GraphFileError::BadVersion { expected, version }) && expected == 1
                && version == le4(b, 4))
            &&& headed && nodes > 10_000_000_000 <==> (layout_of(b) matches Err(
                GraphFileError::TooManyNodes { nodes: n },
            ) && n == nodes)
            &&& headed && nodes <= 10_000_000_000 && edges > 100_000_000_000 <==> (layout_of(b)
                matches Err(GraphFileError::TooManyEdges { edges: n }) && n == edges)
            &&& headed && nodes <= 10_000_000_000 && edges <= 100_000_000_000 && b.len() < needed
                <==> (layout_of(b) matches Err(GraphFileError::TooSmall { required, len })
                && required == needed && len == b.len())
        }),
{
    lemma_le_bounds(b, 0);
    lemma_le_bounds(b, 4);
    lemma_le_bounds(b, 8);
    lemma_le_bounds(b, 12);
    lemma_le_bounds(b, 16);
    lemma_le_bounds(b, 20);
    lemma_le_bounds(b, 24);
    lemma_le_bounds(b, 28);
}

proof fn lemma_le_bounds(b: Seq<u8>, at: int)
    ensures
        0 <= le4(b, at) <= u32::MAX,
{
}

/// A stored graph holds the offsets, edges and weights that stand in the file, in
/// their order.
pub proof fn law_stored_graph_reads_the_arrays(b: Seq<u8>, l: GraphFileLayout, i: int)
    ensures
        ({
            let g = stored_graph(b, l);
            &&& g.num_nodes == l.num_nodes
            &&& g.num_edges == l.num_edges
            &&& g.offsets.len() == l.num_nodes + 1
            &&& g.edges.len() == l.num_edges
            &&& g.weights is Some <==> l.has_weights
            &&& g.timestamps is None
            &&& 0 <= i <= l.num_nodes ==> g.offsets[i] == le8(b, 32 + 8 * i)
            &&& 0 <= i < l.num_edges ==> g.edges[i] == le4(b, l.offsets_end + 4 * i)
            &&& l.has_weights ==> g.weights->0.len() == l.num_edges
            &&& l.has_weights && 0 <= i < l.num_edges ==> g.weights->0[i] == le4(
                b,
                l.edges_end + 4 * i,
            )
        }),
{
    lemma_le_bounds(b, 32 + 8 * i);
    lemma_le_bounds(b, 32 + 8 * i + 4);
    lemma_le_bounds(b, l.offsets_end + 4 * i);
    lemma_le_bounds(b, l.edges_end + 4 * i);
}

/// A file whose stored checksum is not that of its offsets and edges is refused
/// when validated in full, with both checksums, before anything else of the body
/// is looked at; in the other modes, and where no checksum is stored, the body is
/// not checksummed. What loads is what is stored.
pub proof fn law_checksum_guards_full_validation(
    b: Seq<u8>,
    mode: GraphValidationMode,
    r: Result<Graph, GraphFileError>,
)
    requires
        loads(b, mode, r),
        b.len() <= usize::MAX,
        layout_of(b) is Ok,
    ensures
        ({
            let l = layout_of(b)->Ok_0;
            let sum = crc32(b.subrange(32, l.edges_end as int));
            let damaged = mode == GraphValidationMode::Full && le4(b, 28) != 0 && le4(b, 28) != sum;
            &&& damaged <==> (r matches Err(GraphFileError::ChecksumMismatch { expected, actual })
                && expected == le4(b, 28) && actual == sum)
            &&& !damaged ==> (r is Ok <==> stored_graph(b, l).validation(mode, Ok(())))
            &&& r matches Ok(g) ==> g@ == stored_graph(b, l)
        }),
{
    law_layout_reads_the_header(b);
    let l = layout_of(b)->Ok_0;
    if let Err(GraphFileError::Invalid(e)) = r {
        lemma_validation_is_one_sided(stored_graph(b, l), mode, e);
    }
}

/// A graph is not both accepted and refused.
proof fn lemma_validation_is_one_sided(g: GraphView, mode: GraphValidationMode, e: GraphError)
    requires
        g.validation(mode, Err(e)),
    ensures
        !g.validation(mode, Ok(())),
{
}

/// Files above half a gibibyte get their offsets checked and no more; smaller
/// ones are validated in full.
pub proof fn law_large_files_are_checked_lightly(size: int)
    ensures
        size > 512 * 1024 * 1024 ==> default_mode(size) == GraphValidationMode::OffsetsOnly,
        size <= 512 * 1024 * 1024 ==> default_mode(size) == GraphValidationMode::Full,
{
}

/// A saved graph starts with its header, followed by the offsets, the edges and
/// the weights if there are any, and nothing else; the checksum covers offsets
/// and edges.
pub proof fn law_saved_graph_layout(g: GraphView)
    requires
        g.shaped(),
        g.edge_data_fits(),
        g.num_nodes <= u64::MAX,
        g.num_edges <= u64::MAX,
    ensures
        ({
            let b = graph_file(g);
            let body = u64s_le(g.offsets) + u32s_le(g.edges);
            &&& b.len() == 32 + 8 * (g.num_nodes + 1) + 4 * g.num_edges + (if g.weights is Some {
                4 * g.num_edges
            } else {
                0
            })
            &&& le4(b, 0) == 0x4145_5448
            &&& le4(b, 4) == 1
            &&& le8(b, 8) == g.num_nodes
            &&& le8(b, 16) == g.num_edges
            &&& le4(b, 24) == (if g.weights is Some {
                1int
            } else {
                0int
            })
            &&& le4(b, 28) == crc32(body)
            &&& b.subrange(32, 32int + body.len()) == body
            &&& g.weights matches Some(w) ==> b.subrange(32int + body.len(), b.len() as int)
                == u32s_le(w)
        }),
{
    let b = graph_file(g);
    let h = header_for(g);
    let body = u64s_le(g.offsets) + u32s_le(g.edges);
    let rest = body + weight_section(g);
    law_header_round_trip(h, rest);
    assert(b =~= header_bytes(h) + rest);
    assert(header_of(b) == h);
    lemma_le_bounds(b, 0);
    lemma_le_bounds(b, 4);
    lemma_le_bounds(b, 8);
    lemma_le_bounds(b, 12);
    lemma_le_bounds(b, 16);
    lemma_le_bounds(b, 20);
    lemma_le_bounds(b, 24);
    lemma_le_bounds(b, 28);
    assert(b.subrange(32, 32int + body.len()) =~= body);
    if let Some(w) = g.weights {
        assert(b.subrange(32int + body.len(), b.len() as int) =~= u32s_le(w));
    }
}

/// A message tells the numbers of its error, in this order.
pub proof fn law_graph_file_messages_tell_their_numbers(e: GraphFileError)
    ensures
        match e {
            GraphFileError::HeaderTruncated { len } => tells(
                e.text(),
                seq![decimal(len as nat)],
            ),
            GraphFileError::BadVersion { expected, version } => tells(
                e.text(),
                seq![decimal(expected as nat), decimal(version as nat)],
            ),
            GraphFileError::TooManyNodes { nodes } => tells(
                e.text(),
                seq![decimal(nodes as nat)],
            ),
            GraphFileError::TooManyEdges { edges } => tells(
                e.text(),
                seq![decimal(edges as nat)],
            ),
            GraphFileError::TooSmall { required, len } => tells(
                e.text(),
                seq![decimal(required as nat), decimal(len as nat)],
            ),
            GraphFileError::ChecksumMismatch { expected, actual } => tells(
                e.text(),
                seq![hexadecimal(expected as nat), hexadecimal(actual as nat)],
            ),
            GraphFileError::PayloadChecksumMismatch { expected, actual } => tells(
                e.text(),
                seq![hexadecimal(expected as nat), hexadecimal(actual as nat)],
            ),
            GraphFileError::OffsetsSection { entries, nodes } => tells(
                e.text(),
                seq![decimal(entries as nat), decimal(nodes as nat)],
            ),
            GraphFileError::EdgesSection { entries, edges } => tells(
                e.text(),
                seq![decimal(entries as nat), decimal(edges as nat)],
            ),
            GraphFileError::WeightsSection { len, edges } => tells(
                e.text(),
                seq![decimal(len as nat), decimal(edges as nat)],
            ),
            _ => true,
        },
{
    match e {
        GraphFileError::HeaderTruncated { len } => {
            lemma_tells_one(
                e.text(),
                "insufficient bytes for header: got "@,
                decimal(len as nat),
                ", need "@ + decimal(HEADER_SIZE as nat),
            );
        },
        GraphFileError::BadVersion { expected, version } => {
            lemma_tells_two(
                e.text(),
                "unsupported version: expected "@,
                decimal(expected as nat),
                ", got "@,
                decimal(version as nat),
                Seq::<char>::empty(),
            );
        },
        GraphFileError::TooManyNodes { nodes } => {
            lemma_tells_one(
                e.text(),
                "num_nodes "@,
                decimal(nodes as nat),
                " exceeds maximum "@ + decimal(MAX_NODES as nat),
            );
        },
        GraphFileError::TooManyEdges { edges } => {
            lemma_tells_one(
                e.text(),
                "num_edges "@,
                decimal(edges as nat),
                " exceeds maximum "@ + decimal(MAX_EDGES as nat),
            );
        },
        GraphFileError::TooSmall { required, len } => {
            lemma_tells_two(
                e.text(),
                "file too small: expected at least "@,
                decimal(required as nat),
                " bytes, got "@,
                decimal(len as nat),
                Seq::<char>::empty(),
            );
        },
        GraphFileError::ChecksumMismatch { expected, actual } => {
            lemma_tells_two(
                e.text(),
                "graph integrity checksum mismatch: expected 0x"@,
                hexadecimal(expected as nat),
                ", got 0x"@,
                hexadecimal(actual as nat),
                Seq::<char>::empty(),
            );
        },
        GraphFileError::PayloadChecksumMismatch { expected, actual } => {
            lemma_tells_two(
                e.text(),
                "compressed graph checksum mismatch: expected 0x"@,
                hexadecimal(expected as nat),
                ", got 0x"@,
                hexadecimal(actual as nat),
                Seq::<char>::empty(),
            );
        },
        GraphFileError::OffsetsSection { entries, nodes } => {
            lemma_tells_two(
                e.text(),
                "offsets section has "@,
                decimal(entries as nat),
                " entries for "@,
                decimal(nodes as nat),
                " nodes"@,
            );
        },
        GraphFileError::EdgesSection { entries, edges } => {
            lemma_tells_two(
                e.text(),
                "edges section has "@,
                decimal(entries as nat),
                " entries, header says "@,
                decimal(edges as nat),
                Seq::<char>::empty(),
            );
        },
        GraphFileError::WeightsSection { len, edges } => {
            lemma_tells_two(
                e.text(),
                "weights section is "@,
                decimal(len as nat),
                " bytes for "@,
                decimal(edges as nat),
                " edges"@,
            );
        },
        _ => {},
    }
}

} // verus!
