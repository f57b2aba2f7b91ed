//! Compressed graph files, and the choice between the two file formats.
//!
//! A compressed file has the header of a plain file with another version. Its
//! payload is an encoded offsets section, an encoded edges section and, where
//! the graph has them, the weights as they are. The caller encodes and decodes
//! the two sections; what is here frames them, checks them against the header
//! and puts the graph together.
use vstd::prelude::*;
use vstd::slice::slice_subrange;
use crate::bytes::{
    le4, le8, lemma_holds_between, lemma_u32s_round_trip, push_bytes, push_u32s, read_u32s, u32s_at, u32s_le,
    u64s_le,
};
use crate::graph::csr::{Graph, GraphValidationMode, GraphView};
use super::checksum::{crc32, crc32_of};
use super::graph_file::{
    default_mode, default_validation_mode, graph_file, header_bytes, header_for, header_of,
    law_graph_file_round_trip, law_header_round_trip, load_graph_from_mmap_with_validation, loads,
    GraphFileError, GraphHeader, HEADER_SIZE, MAGIC, MAX_EDGES, MAX_NODES,
};

verus! {

/// Version of files with compressed sections.
pub const COMPRESSED_VERSION: u32 = 2;

/// The sections of a compressed file, decoded, with the number of bytes that
/// each took in the file.
#[derive(Debug, Clone, PartialEq, Eq)]
pub struct DecodedSections {
    pub offsets: Vec<u64>,
    pub offsets_len: usize,
    pub edges: Vec<u32>,
    pub edges_len: usize,
}

/// The payload of a compressed file.
pub open spec fn compressed_payload(
    offsets_section: Seq<u8>,
    edges_section: Seq<u8>,
    weights: Option<Seq<u32>>,
) -> Seq<u8> {
    offsets_section + edges_section + match weights {
        Some(w) => u32s_le(w),
        None => Seq::empty(),
    }
}

/// The bytes of the compressed file of a graph whose arrays are encoded as
/// given.
pub open spec fn compressed_file(
    g: GraphView,
    offsets_section: Seq<u8>,
    edges_section: Seq<u8>,
) -> Seq<u8> {
    let payload = compressed_payload(offsets_section, edges_section, g.weights);
    header_bytes(
        GraphHeader {
            magic: MAGIC,
            version: COMPRESSED_VERSION,
            num_nodes: g.num_nodes as u64,
            num_edges: g.num_edges as u64,
            has_weights: if g.weights is Some {
                1
            } else {
                0
            },
            integrity_checksum32: crc32(payload),
        },
    ) + payload
}

/// Writes the compressed file of a graph, given the encoded sections.
pub fn save_graph_compressed(
    graph: &Graph,
    offsets_section: &[u8],
    edges_section: &[u8],
) -> (b: Vec<u8>)
    ensures
        b@ == compressed_file(graph@, offsets_section@, edges_section@),
{
    let mut payload: Vec<u8> = Vec::new();
    push_bytes(&mut payload, offsets_section);
    push_bytes(&mut payload, edges_section);
    let weights = graph.weights();
    if let Some(w) = weights {
        push_u32s(&mut payload, w);
    }
    assert(payload@ =~= compressed_payload(offsets_section@, edges_section@, graph@.weights));
    let header = GraphHeader {
        magic: MAGIC,
        version: COMPRESSED_VERSION,
        num_nodes: graph.num_nodes() as u64,
        num_edges: graph.num_edges() as u64,
        has_weights: if weights.is_some() {
            1
        } else {
            0
        },
        integrity_checksum32: crc32_of(payload.as_slice()),
    };
    let mut out = header.to_bytes();
    push_bytes(&mut out, payload.as_slice());
    out
}

/// The payload of a compressed file, or what is wrong with the file before any
/// section is decoded. Whatever the validation, a checksum that is there is
/// compared.
pub open spec fn payload_of(b: Seq<u8>) -> Result<Seq<u8>, GraphFileError> {
    let h = header_of(b);
    let payload = b.skip(HEADER_SIZE as int);
    if b.len() < HEADER_SIZE {
        Err(GraphFileError::HeaderTruncated { len: b.len() as usize })
    } else if h.complaint(COMPRESSED_VERSION) is Some {
        Err(h.complaint(COMPRESSED_VERSION)->0)
    } else if h.stored_checksum() is Some && crc32(payload) != h.stored_checksum()->0 {
        Err(
            GraphFileError::PayloadChecksumMismatch {
                expected: h.stored_checksum()->0,
                actual: crc32(payload),
            },
        )
    } else {
        Ok(payload)
    }
}

/// The graph that decoded sections and the rest of a payload make up.
pub open spec fn graph_of_sections(
    h: GraphHeader,
    payload: Seq<u8>,
    offsets: Seq<u64>,
    edges: Seq<u32>,
    weights_at: int,
) -> GraphView {
    GraphView {
        num_nodes: h.num_nodes as nat,
        num_edges: h.num_edges as nat,
        offsets,
        edges,
        weights: if h.has_weights != 0 {
            Some(u32s_at(payload, weights_at, h.num_edges as nat))
        } else {
            None
        },
        timestamps: None,
    }
}

/// What putting a compressed file together with its decoded sections comes to.
pub open spec fn loads_compressed(
    b: Seq<u8>,
    s: DecodedSections,
    mode: GraphValidationMode,
    r: Result<Graph, GraphFileError>,
) -> bool {
    match payload_of(b) {
        Err(e) => r == Err::<Graph, GraphFileError>(e),
        Ok(payload) => {
            let h = header_of(b);
            let used = s.offsets_len + s.edges_len;
            let rest = payload.len() - used;
            if s.offsets@.len() != h.num_nodes + 1 {
                r == Err::<Graph, GraphFileError>(
                    GraphFileError::OffsetsSection {
                        entries: s.offsets@.len() as usize,
                        nodes: h.num_nodes,
                    },
                )
            } else if s.edges@.len() != h.num_edges {
                r == Err::<Graph, GraphFileError>(
                    GraphFileError::EdgesSection {
                        entries: s.edges@.len() as usize,
                        edges: h.num_edges,
                    },
                )
            } else if h.has_weights != 0 && rest != 4 * h.num_edges {
                r == Err::<Graph, GraphFileError>(
                    GraphFileError::WeightsSection { len: rest as usize, edges: h.num_edges },
                )
            } else if h.has_weights == 0 && rest != 0 {
                r == Err::<Graph, GraphFileError>(GraphFileError::TrailingBytes)
            } else {
                let g = graph_of_sections(h, payload, s.offsets@, s.edges@, used);
                match r {
                    Ok(graph) => graph@ == g && g.validation(mode, Ok(())),
                    Err(GraphFileError::Invalid(e)) => g.validation(mode, Err(e)),
                    Err(_) => false,
                }
            }
        },
    }
}

/// Checks a compressed file before its sections are decoded and gives its
/// payload.
pub fn open_payload(bytes: &[u8]) -> (r: Result<&[u8], GraphFileError>)
    ensures
        match r {
            Ok(p) => payload_of(bytes@) == Ok::<Seq<u8>, GraphFileError>(p@),
            Err(e) => payload_of(bytes@) == Err::<Seq<u8>, GraphFileError>(e),
        },
{
    let header = match GraphHeader::from_bytes(bytes) {
        Ok(h) => h,
        Err(e) => {
            return Err(e);
        },
    };
    match header.validate(COMPRESSED_VERSION) {
        Ok(_) => {},
        Err(e) => {
            return Err(e);
        },
    }
    let payload = slice_subrange(bytes, HEADER_SIZE, bytes.len());
    assert(payload@ =~= bytes@.skip(HEADER_SIZE as int));
    if let Some(expected) = header.checksum32() {
        let actual = crc32_of(payload);
        if actual != expected {
            return Err(GraphFileError::PayloadChecksumMismatch { expected, actual });
        }
    }
    Ok(payload)
}

/// The sections take no more bytes than there are behind the header.
pub open spec fn sections_fit(b: Seq<u8>, sections: DecodedSections) -> bool {
    b.len() >= HEADER_SIZE ==> HEADER_SIZE + sections.offsets_len + sections.edges_len <= b.len()
}

/// Puts a compressed file together with its decoded sections.
pub fn load_graph_compressed(
    bytes: &[u8],
    sections: DecodedSections,
    validation: GraphValidationMode,
) -> (r: Result<Graph, GraphFileError>)
    requires
        sections_fit(bytes@, sections),
    ensures
        loads_compressed(bytes@, sections, validation, r),
{
    let payload = match open_payload(bytes) {
        Ok(p) => p,
        Err(e) => {
            return Err(e);
        },
    };
    let header = match GraphHeader::from_bytes(bytes) {
        Ok(h) => h,
        Err(e) => {
            return Err(e);
        },
    };
    let len: usize = payload.len();
    let used: usize = sections.offsets_len + sections.edges_len;
    let rest: usize = len - used;
    let entries: usize = sections.offsets.len();
    if entries == 0 || (entries - 1) as u64 != header.num_nodes {
        return Err(GraphFileError::OffsetsSection { entries, nodes: header.num_nodes });
    }
    let num_edges: usize = sections.edges.len();
    if num_edges as u64 != header.num_edges {
        return Err(GraphFileError::EdgesSection { entries: num_edges, edges: header.num_edges });
    }
    let weights: Option<Vec<u32>> = if header.has_weights != 0 {
        if rest % 4 != 0 || rest / 4 != num_edges {
            return Err(GraphFileError::WeightsSection { len: rest, edges: header.num_edges });
        }
        Some(read_u32s(payload, used, num_edges))
    } else {
        if rest != 0 {
            return Err(GraphFileError::TrailingBytes);
        }
        None
    };
    let graph = Graph::from_owned_parts(
        entries - 1,
        num_edges,
        sections.offsets,
        sections.edges,
        weights,
    );
    match graph.validate_with_mode(validation) {
        Ok(_) => Ok(graph),
        Err(e) => Err(GraphFileError::Invalid(e)),
    }
}

/// Whether the file is a compressed one.
pub open spec fn is_compressed(b: Seq<u8>) -> bool {
    b.len() >= HEADER_SIZE && header_of(b).complaint(COMPRESSED_VERSION) is None
}

/// Whether the file is a compressed one.
pub fn stored_compressed(bytes: &[u8]) -> (c: bool)
    ensures
        c == is_compressed(bytes@),
{
    match GraphHeader::from_bytes(bytes) {
        Ok(h) => h.validate(COMPRESSED_VERSION).is_ok(),
        Err(_) => false,
    }
}

/// Loads a graph file for use in place. Compressed files are refused: they have
/// no arrays to use.
pub fn load_graph_mmap(bytes: &[u8], validation: GraphValidationMode) -> (r: Result<
    Graph,
    GraphFileError,
>)
    ensures
        is_compressed(bytes@) ==> r == Err::<Graph, GraphFileError>(GraphFileError::Compressed),
        !is_compressed(bytes@) ==> loads(bytes@, validation, r),
{
    if stored_compressed(bytes) {
        return Err(GraphFileError::Compressed);
    }
    load_graph_from_mmap_with_validation(bytes, validation)
}

/// The same as [`load_graph_mmap`].
pub fn load_graph_with_validation(bytes: &[u8], validation: GraphValidationMode) -> (r: Result<
    Graph,
    GraphFileError,
>)
    ensures
        is_compressed(bytes@) ==> r == Err::<Graph, GraphFileError>(GraphFileError::Compressed),
        !is_compressed(bytes@) ==> loads(bytes@, validation, r),
{
    load_graph_mmap(bytes, validation)
}

/// What loading a file of either format in `mode` comes to. A compressed one needs
/// its sections.
pub open spec fn loads_either(
    b: Seq<u8>,
    sections: Option<DecodedSections>,
    mode: GraphValidationMode,
    r: Result<Graph, GraphFileError>,
) -> bool {
    if !is_compressed(b) {
        loads(b, mode, r)
    } else {
        match sections {
            Some(s) => loads_compressed(b, s, mode, r),
            None => r == Err::<Graph, GraphFileError>(GraphFileError::Compressed),
        }
    }
}

/// Loads a graph file of either format; a compressed one needs its sections.
pub fn load_graph_owned(
    bytes: &[u8],
    sections: Option<DecodedSections>,
    validation: GraphValidationMode,
) -> (r: Result<Graph, GraphFileError>)
    requires
        sections matches Some(s) ==> sections_fit(bytes@, s),
    ensures
        loads_either(bytes@, sections, validation, r),
{
    if !stored_compressed(bytes) {
        return load_graph_from_mmap_with_validation(bytes, validation);
    }
    match sections {
        Some(s) => load_graph_compressed(bytes, s, validation),
        None => Err(GraphFileError::Compressed),
    }
}

/// Loads a graph file of either format with the validation that its size calls
/// for.
pub fn load_graph(bytes: &[u8], sections: Option<DecodedSections>) -> (r: Result<
    Graph,
    GraphFileError,
>)
    requires
        sections matches Some(s) ==> sections_fit(bytes@, s),
    ensures
        loads_either(bytes@, sections, default_mode(bytes@.len() as int), r),
{
    let len: usize = bytes.len();
    load_graph_owned(bytes, sections, default_validation_mode(len as u64))
}

/// The header of a compressed file, and the payload behind it.
proof fn lemma_compressed_payload(g: GraphView, offsets_section: Seq<u8>, edges_section: Seq<u8>)
    requires
        g.num_nodes < u64::MAX,
        g.num_edges <= u64::MAX,
    ensures
        is_compressed(compressed_file(g, offsets_section, edges_section)),
        compressed_file(g, offsets_section, edges_section).skip(HEADER_SIZE as int)
            == compressed_payload(offsets_section, edges_section, g.weights),
{
    let payload = compressed_payload(offsets_section, edges_section, g.weights);
    let h = GraphHeader {
        magic: MAGIC,
        version: COMPRESSED_VERSION,
        num_nodes: g.num_nodes as u64,
        num_edges: g.num_edges as u64,
        has_weights: if g.weights is Some {
            1
        } else {
            0
        },
        integrity_checksum32: crc32(payload),
    };
    law_header_round_trip(h, payload);
    assert(compressed_file(g, offsets_section, edges_section).skip(HEADER_SIZE as int) =~= payload);
}

/// A graph saved in compressed form loads back as itself (without timestamps)
/// once its sections decode to its arrays.
pub proof fn law_compressed_round_trip(
    g: GraphView,
    offsets_section: Seq<u8>,
    edges_section: Seq<u8>,
    s: DecodedSections,
    mode: GraphValidationMode,
    r: Result<Graph, GraphFileError>,
)
    requires
        g.valid(),
        g.num_nodes < u64::MAX,
        g.num_edges <= u64::MAX,
        s.offsets@ == g.offsets,
        s.offsets_len == offsets_section.len(),
        s.edges@ == g.edges,
        s.edges_len == edges_section.len(),
        loads_compressed(compressed_file(g, offsets_section, edges_section), s, mode, r),
    ensures
        is_compressed(compressed_file(g, offsets_section, edges_section)),
        r is Ok,
        r->Ok_0@ == (GraphView { timestamps: None, ..g }),
{
    let payload = compressed_payload(offsets_section, edges_section, g.weights);
    let h = GraphHeader {
        magic: MAGIC,
        version: COMPRESSED_VERSION,
        num_nodes: g.num_nodes as u64,
        num_edges: g.num_edges as u64,
        has_weights: if g.weights is Some {
            1
        } else {
            0
        },
        integrity_checksum32: crc32(payload),
    };
    let b = compressed_file(g, offsets_section, edges_section);
    law_header_round_trip(h, payload);
    assert(b.skip(HEADER_SIZE as int) =~= payload);
    let used = s.offsets_len + s.edges_len;
    if let Some(w) = g.weights {
        assert(payload =~= (offsets_section + edges_section) + u32s_le(w) + Seq::<u8>::empty());
        lemma_holds_between(offsets_section + edges_section, u32s_le(w), Seq::empty());
        lemma_u32s_round_trip(payload, used, w);
    }
    let back = graph_of_sections(h, payload, s.offsets@, s.edges@, used);
    assert(back =~= GraphView { timestamps: None, ..g });
    assert(back.valid());
}

/// How the sections of compressed files are encoded and decoded.
pub ghost struct SectionCodec {
    /// The section of the offsets.
    pub encode_offsets: spec_fn(Seq<u64>) -> Seq<u8>,
    /// The section of the edges.
    pub encode_edges: spec_fn(Seq<u32>) -> Seq<u8>,
    /// Both arrays at the start of a payload, each with the length of its section.
    pub decode: spec_fn(Seq<u8>) -> (Seq<u64>, nat, Seq<u32>, nat),
}

impl SectionCodec {
    /// Decoding gives back what was encoded, whatever stands behind it.
    pub open spec fn lossless(self) -> bool {
        forall|offsets: Seq<u64>, edges: Seq<u32>, rest: Seq<u8>|
            (self.decode)(
                #[trigger] ((self.encode_offsets)(offsets) + (self.encode_edges)(edges) + rest),
            ) == (
                offsets,
                (self.encode_offsets)(offsets).len(),
                edges,
                (self.encode_edges)(edges).len(),
            )
    }

    /// The sections are those that the codec finds in a payload.
    pub open spec fn finds(self, payload: Seq<u8>, s: DecodedSections) -> bool {
        (self.decode)(payload) == (
            s.offsets@,
            s.offsets_len as nat,
            s.edges@,
            s.edges_len as nat,
        )
    }
}

/// With every codec that loses nothing, [`load_graph`] gives back the graph that
/// [`save_graph_compressed`] wrote (without timestamps, which files do not hold).
pub proof fn law_load_graph_restores_compressed(
    g: GraphView,
    codec: SectionCodec,
    s: DecodedSections,
    r: Result<Graph, GraphFileError>,
)
    requires
        g.valid(),
        g.num_nodes < u64::MAX,
        g.num_edges <= u64::MAX,
        codec.lossless(),
        ({
            let b = compressed_file(
                g,
                (codec.encode_offsets)(g.offsets),
                (codec.encode_edges)(g.edges),
            );
            &&& codec.finds(b.skip(HEADER_SIZE as int), s)
            &&& loads_either(b, Some(s), default_mode(b.len() as int), r)
        }),
    ensures
        r is Ok,
        r->Ok_0@ == (GraphView { timestamps: None, ..g }),
{
    let o = (codec.encode_offsets)(g.offsets);
    let e = (codec.encode_edges)(g.edges);
    let b = compressed_file(g, o, e);
    let mode = default_mode(b.len() as int);
    let payload = compressed_payload(o, e, g.weights);
    lemma_compressed_payload(g, o, e);
    let rest = match g.weights {
        Some(w) => u32s_le(w),
        None => Seq::empty(),
    };
    assert(payload == o + e + rest);
    law_compressed_round_trip(g, o, e, s, mode, r);
}

/// [`load_graph`] gives back the graph that was saved in the plain format (without
/// timestamps), whatever sections it is handed.
pub proof fn law_load_graph_restores_plain(
    g: GraphView,
    sections: Option<DecodedSections>,
    r: Result<Graph, GraphFileError>,
)
    requires
        g.valid(),
        g.num_nodes <= MAX_NODES,
        g.num_edges <= MAX_EDGES,
        graph_file(g).len() <= usize::MAX,
        loads_either(graph_file(g), sections, default_mode(graph_file(g).len() as int), r),
    ensures
        r is Ok,
        r->Ok_0@ == (GraphView { timestamps: None, ..g }),
{
    let b = graph_file(g);
    let h = header_for(g);
    let rest = u64s_le(g.offsets) + u32s_le(g.edges) + match g.weights {
        Some(w) => u32s_le(w),
        None => Seq::empty(),
    };
    law_header_round_trip(h, rest);
    assert(b =~= header_bytes(h) + rest);
    law_graph_file_round_trip(g, default_mode(b.len() as int), r);
}

/// A file is compressed if it has a whole header with the magic number and
/// version 2.
pub proof fn law_version_tells_compressed_files(b: Seq<u8>)
    ensures
        is_compressed(b) <==> b.len() >= 32 && le4(b, 0) == 0x4145_5448 && le4(b, 4) == 2,
{
}

/// The payload of a compressed file is all that follows its 32-byte header. It is
/// refused where the header is short, has another magic number or version, or
/// stores a checksum (other than zero) that is not that of the payload.
pub proof fn law_payload_is_checked(b: Seq<u8>)
    requires
        b.len() <= usize::MAX,
    ensures
        ({
            let payload = b.subrange(32, b.len() as int);
            let whole = b.len() >= 32;
            let headed = whole && le4(b, 0) == 0x4145_5448 && le4(b, 4) == 2;
            let stored = le4(b, 28);
            &&& payload_of(b) is Ok <==> headed && (stored == 0 || stored == crc32(payload))
            &&& payload_of(b) matches Ok(p) ==> p == payload
            &&& !whole <==> (payload_of(b) matches Err(GraphFileError::HeaderTruncated { len })
                && len == b.len())
            &&& whole && le4(b, 0) != 0x4145_5448 <==> payload_of(b) == Err::<
                Seq<u8>,
                GraphFileError,
            >(GraphFileError::BadMagic)
            &&& whole && le4(b, 0) == 0x4145_5448 && le4(b, 4) != 2 <==> (payload_of(b) matches Err(
                GraphFileError::BadVersion { expected, version },
            ) && expected == 2 && version == le4(b, 4))
            &&& headed && stored != 0 && stored != crc32(payload) <==> (payload_of(b) matches Err(
                GraphFileError::PayloadChecksumMismatch { expected, actual },
            ) && expected == stored && actual == crc32(payload))
        }),
{
    if b.len() >= 32 {
        assert(b.skip(HEADER_SIZE as int) =~= b.subrange(32, b.len() as int));
    }
}

/// A compressed file loads exactly if its payload is sound, its sections have one
/// offset more than the header says nodes and as many edges as it says, what is
/// left of the payload is one word per edge with weights and nothing without, and
/// the graph passes validation. The graph is made of the sections and of the
/// weights behind them.
pub proof fn law_compressed_file_loads_when(
    b: Seq<u8>,
    s: DecodedSections,
    mode: GraphValidationMode,
    r: Result<Graph, GraphFileError>,
)
    requires
        loads_compressed(b, s, mode, r),
        payload_of(b) is Ok,
        b.len() <= usize::MAX,
        32 + s.offsets_len + s.edges_len <= b.len(),
    ensures
        ({
            let nodes = le8(b, 8);
            let edges = le8(b, 16);
            let weighted = le4(b, 24) != 0;
            let rest = b.len() - 32 - s.offsets_len - s.edges_len;
            let fits = s.offsets@.len() == nodes + 1 && s.edges@.len() == edges && rest == (
            if weighted {
                4 * edges
            } else {
                0
            });
            &&& r is Ok ==> fits
            &&& fits ==> r is Ok || (r is Err && r->Err_0 is Invalid)
            &&& s.offsets@.len() != nodes + 1 <==> (r is Err && r->Err_0 is OffsetsSection)
            &&& s.offsets@.len() == nodes + 1 && s.edges@.len() != edges <==> (r is Err
                && r->Err_0 is EdgesSection)
            &&& s.offsets@.len() == nodes + 1 && s.edges@.len() == edges && weighted && rest != 4
                * edges <==> (r is Err && r->Err_0 is WeightsSection)
            &&& s.offsets@.len() == nodes + 1 && s.edges@.len() == edges && !weighted && rest != 0
                <==> (r is Err && r->Err_0 is TrailingBytes)
            &&& r matches Err(GraphFileError::OffsetsSection { entries, nodes: n }) ==> entries
                == s.offsets@.len() && n == nodes
            &&& r matches Err(GraphFileError::EdgesSection { entries, edges: n }) ==> entries
                == s.edges@.len() && n == edges
            &&& r matches Err(GraphFileError::WeightsSection { len, edges: n }) ==> len == rest && n
                == edges
            &&& r matches Ok(g) ==> {
                &&& g@.num_nodes == nodes
                &&& g@.num_edges == edges
                &&& g@.offsets == s.offsets@
                &&& g@.edges == s.edges@
                &&& g@.timestamps is None
                &&& g@.weights is Some <==> weighted
                &&& weighted ==> g@.weights->0.len() == edges && forall|i: int|
                    0 <= i < edges ==> #[trigger] g@.weights->0[i] == le4(
                        b,
                        32 + s.offsets_len + s.edges_len + 4 * i,
                    )
            }
        }),
{
    let payload = payload_of(b)->Ok_0;
    law_payload_is_checked(b);
    lemma_header_words(b);
    assert(s.offsets.len() == s.offsets@.len() && s.edges.len() == s.edges@.len());
    if let Ok(g) = r {
        if le4(b, 24) != 0 {
            assert forall|i: int| 0 <= i < le8(b, 16) implies #[trigger] g@.weights->0[i] == le4(
                b,
                32 + s.offsets_len + s.edges_len + 4 * i,
            ) by {
                let at = s.offsets_len + s.edges_len + 4 * i;
                assert(payload[at] == b[32 + at]);
                assert(payload[at + 1] == b[33 + at]);
                assert(payload[at + 2] == b[34 + at]);
                assert(payload[at + 3] == b[35 + at]);
                assert(0 <= le4(b, 32 + at) <= u32::MAX);
            }
        }
    }
}

proof fn lemma_header_words(b: Seq<u8>)
    ensures
        header_of(b).magic == le4(b, 0),
        header_of(b).version == le4(b, 4),
        header_of(b).num_nodes == le8(b, 8),
        header_of(b).num_edges == le8(b, 16),
        header_of(b).has_weights == le4(b, 24),
        header_of(b).integrity_checksum32 == le4(b, 28),
{
    assert(0 <= le4(b, 8) <= u32::MAX && 0 <= le4(b, 12) <= u32::MAX);
    assert(0 <= le4(b, 16) <= u32::MAX && 0 <= le4(b, 20) <= u32::MAX);
}

/// A compressed file is a header with version 2 and the checksum of all that
/// follows, the offsets section, the edges section, and the weights if there are
/// any.
pub proof fn law_compressed_file_layout(
    g: GraphView,
    offsets_section: Seq<u8>,
    edges_section: Seq<u8>,
)
    requires
        g.num_nodes <= u64::MAX,
        g.num_edges <= u64::MAX,
    ensures
        ({
            let b = compressed_file(g, offsets_section, edges_section);
            let o = offsets_section.len() as int;
            let e = edges_section.len() as int;
            &&& le4(b, 0) == 0x4145_5448
            &&& le4(b, 4) == 2
            &&& le8(b, 8) == g.num_nodes
            &&& le8(b, 16) == g.num_edges
            &&& le4(b, 24) == (if g.weights is Some {
                1int
            } else {
                0int
            })
            &&& le4(b, 28) == crc32(b.subrange(32, b.len() as int))
            &&& b.len() == 32 + o + e + (if g.weights is Some {
                4 * g.weights->0.len()
            } else {
                0
            })
            &&& b.subrange(32, 32 + o) == offsets_section
            &&& b.subrange(32 + o, 32 + o + e) == edges_section
            &&& g.weights matches Some(w) ==> b.subrange(32 + o + e, b.len() as int) == u32s_le(w)
        }),
{
    let b = compressed_file(g, offsets_section, edges_section);
    let payload = compressed_payload(offsets_section, edges_section, g.weights);
    let h = GraphHeader {
        magic: MAGIC,
        version: COMPRESSED_VERSION,
        num_nodes: g.num_nodes as u64,
        num_edges: g.num_edges as u64,
        has_weights: if g.weights is Some {
            1
        } else {
            0
        },
        integrity_checksum32: crc32(payload),
    };
    let o = offsets_section.len() as int;
    let e = edges_section.len() as int;
    law_header_round_trip(h, payload);
    lemma_header_words(b);
    assert(b.subrange(32, b.len() as int) =~= payload);
    assert(b.subrange(32, 32 + o) =~= offsets_section);
    assert(b.subrange(32 + o, 32 + o + e) =~= edges_section);
    if let Some(w) = g.weights {
        assert(b.subrange(32 + o + e, b.len() as int) =~= u32s_le(w));
    }
}

} // verus!
