//! Control block and staging of the delta parser.
use super::dpa::{DpaParsePipeline, EdgeField};
use crate::bytes::{push_u32, u32_le};
use vstd::prelude::*;
use vstd::string::StringExecFns;

verus! {

/// Host memory that the accelerator writes deltas into.
#[derive(Debug, Clone, Copy, PartialEq, Eq, Structural)]
pub struct DpaStagingRegion {
    /// Address of the first byte.
    pub host_va: u64,
    /// Bytes of the region.
    pub bytes: u32,
}

impl DpaStagingRegion {
    /// The region, where it has an address and is not empty.
    pub fn new(host_va: u64, bytes: u32) -> (r: Option<Self>)
        ensures
            r == (if host_va != 0 && bytes > 0 {
                Some(DpaStagingRegion { host_va, bytes })
            } else {
                None
            }),
    {
        if host_va != 0 && bytes > 0 {
            Some(DpaStagingRegion { host_va, bytes })
        } else {
            None
        }
    }
}

/// Header of a batch of deltas.
#[derive(Debug, Clone, Copy, PartialEq, Eq, Structural)]
pub struct DpaDeltaHeader {
    /// Magic number.
    pub magic: u32,
    /// Edges in the batch.
    pub n_edges: u32,
    /// Flags.
    pub flags: u32,
    /// Zero.
    pub reserved: u32,
}

/// Magic number of a batch.
pub const DPA_DELTA_MAGIC: u32 = 0x4145_4450;

/// Flag that duplicates were dropped.
pub const DPA_FLAG_DEDUP: u32 = 1;

impl DpaDeltaHeader {
    /// Header of a batch of `n_edges`.
    pub fn new(n_edges: u32, deduplicate: bool) -> (header: Self)
        ensures
            header == (DpaDeltaHeader {
                magic: DPA_DELTA_MAGIC,
                n_edges,
                flags: if deduplicate {
                    DPA_FLAG_DEDUP
                } else {
                    0
                },
                reserved: 0,
            }),
            header.magic == 0x4145_4450,
            header.flags == (if deduplicate {
                1u32
            } else {
                0u32
            }),
    {
        DpaDeltaHeader {
            magic: DPA_DELTA_MAGIC,
            n_edges,
            flags: if deduplicate {
                DPA_FLAG_DEDUP
            } else {
                0
            },
            reserved: 0,
        }
    }

    /// Whether the magic number is right.
    pub fn valid(self) -> (ok: bool)
        ensures
            ok == (self.magic == DPA_DELTA_MAGIC),
            ok == (self.magic == 0x4145_4450),
    {
        self.magic == DPA_DELTA_MAGIC
    }

    /// The 16 bytes of the header.
    pub fn to_bytes(self) -> (out: Vec<u8>)
        ensures
            out@ == u32_le(self.magic) + u32_le(self.n_edges) + u32_le(self.flags) + u32_le(
                self.reserved,
            ),
    {
        let mut out: Vec<u8> = Vec::new();
        push_u32(&mut out, self.magic);
        push_u32(&mut out, self.n_edges);
        push_u32(&mut out, self.flags);
        push_u32(&mut out, self.reserved);
        assert(out@ =~= u32_le(self.magic) + u32_le(self.n_edges) + u32_le(self.flags) + u32_le(
            self.reserved,
        ));
        out
    }
}

/// `weight`, where `field` is among the fields.
pub open spec fn weight(fields: Seq<EdgeField>, field: EdgeField, weight: u32) -> u32 {
    if fields.contains(field) {
        weight
    } else {
        0
    }
}

/// The mask with a bit for each field: source 1, destination 2, type 4, time 8.
pub open spec fn mask_of(fields: Seq<EdgeField>) -> u32 {
    (weight(fields, EdgeField::SourceNode, 1) + weight(fields, EdgeField::DestinationNode, 2)
        + weight(fields, EdgeField::EdgeType, 4) + weight(
        fields,
        EdgeField::EventTimestamp,
        8,
    )) as u32
}

/// The mask of a set of fields.
pub fn field_mask(fields: &[EdgeField]) -> (mask: u32)
    ensures
        mask == mask_of(fields@),
{
    let mut source = false;
    let mut destination = false;
    let mut kind = false;
    let mut time = false;
    let mut i: usize = 0;
    while i < fields.len()
        invariant
            i <= fields@.len(),
            source == fields@.take(i as int).contains(EdgeField::SourceNode),
            destination == fields@.take(i as int).contains(EdgeField::DestinationNode),
            kind == fields@.take(i as int).contains(EdgeField::EdgeType),
            time == fields@.take(i as int).contains(EdgeField::EventTimestamp),
        decreases fields@.len() - i,
    {
        match fields[i] {
            EdgeField::SourceNode => source = true,
            EdgeField::DestinationNode => destination = true,
            EdgeField::EdgeType => kind = true,
            EdgeField::EventTimestamp => time = true,
        }
        proof {
            lemma_taken(fields@, i as int, EdgeField::SourceNode);
            lemma_taken(fields@, i as int, EdgeField::DestinationNode);
            lemma_taken(fields@, i as int, EdgeField::EdgeType);
            lemma_taken(fields@, i as int, EdgeField::EventTimestamp);
        }
        i += 1;
    }
    assert(fields@.take(i as int) =~= fields@);
    let mut mask: u32 = 0;
    if source {
        mask += 1;
    }
    if destination {
        mask += 2;
    }
    if kind {
        mask += 4;
    }
    if time {
        mask += 8;
    }
    mask
}

proof fn lemma_taken(fields: Seq<EdgeField>, i: int, field: EdgeField)
    requires
        0 <= i < fields.len(),
    ensures
        fields.take(i + 1).contains(field) == (fields.take(i).contains(field) || fields[i]
            == field),
{
    let short = fields.take(i);
    let long = fields.take(i + 1);
    if short.contains(field) {
        let k = choose|k: int| 0 <= k < short.len() && short[k] == field;
        assert(long[k] == field);
    }
    if fields[i] == field {
        assert(long[i] == field);
    }
    if long.contains(field) {
        let k = choose|k: int| 0 <= k < long.len() && long[k] == field;
        if k < i {
            assert(short[k] == field);
        }
    }
}

/// A pipeline with the staging that it fills.
#[derive(Debug)]
pub struct FlexIoHost {
    /// The pipeline.
    pub pipeline: DpaParsePipeline,
    /// The staging.
    pub staging: DpaStagingRegion,
    /// The mask of the pipeline's fields.
    pub field_mask: u32,
}

impl FlexIoHost {
    /// The staging holds what the pipeline fills, and the mask is the pipeline's.
    pub open spec fn wf(self) -> bool {
        &&& self.staging.bytes >= self.pipeline.csr_delta_bytes
        &&& self.field_mask == mask_of(self.pipeline.fields@)
    }

    /// Pipeline, flag and size in one word of the control block. The top bit of the
    /// size does not fit and is dropped.
    pub open spec fn pipeline_word(self) -> u64 {
        (self.field_mask + (if self.pipeline.deduplicate {
            0x1_0000_0000int
        } else {
            0
        }) + 0x2_0000_0000 * (self.pipeline.csr_delta_bytes % 0x8000_0000)) as u64
    }

    /// Joins a pipeline and its staging, where that is large enough.
    pub fn plan(pipeline: DpaParsePipeline, staging: DpaStagingRegion) -> (r: Option<Self>)
        ensures
            r is Some <==> staging.bytes >= pipeline.csr_delta_bytes,
            r matches Some(host) ==> host.wf() && host.pipeline == pipeline && host.staging
                == staging,
    {
        if staging.bytes < pipeline.csr_delta_bytes {
            return None;
        }
        let mask: u32 = field_mask(pipeline.fields.as_slice());
        Some(FlexIoHost { pipeline, staging, field_mask: mask })
    }

    /// The control block that the accelerator reads when it starts.
    pub fn control_block(&self) -> (block: [u64; 4])
        requires
            self.wf(),
        ensures
            block@ == seq![
                self.staging.host_va,
                self.staging.bytes as u64,
                self.pipeline_word(),
                DPA_DELTA_MAGIC as u64,
            ],
    {
        let flag: u64 = if self.pipeline.deduplicate {
            0x1_0000_0000
        } else {
            0
        };
        let size: u64 = (self.pipeline.csr_delta_bytes % 0x8000_0000) as u64;
        let block: [u64; 4] = [
            self.staging.host_va,
            self.staging.bytes as u64,
            self.field_mask as u64 + flag + 0x2_0000_0000 * size,
            DPA_DELTA_MAGIC as u64,
        ];
        assert(block@ =~= seq![
            self.staging.host_va,
            self.staging.bytes as u64,
            self.pipeline_word(),
            DPA_DELTA_MAGIC as u64,
        ]);
        block
    }

    /// Starting the accelerator needs its runtime, which this library does not link:
    /// the error says so.
    pub fn attach(&self) -> (r: Result<(), String>)
        ensures
            r matches Err(text) && text@
                == "FlexIoHost::attach needs BlueField-3 FlexIO runtime (modules/aether_dpa + DOCA FlexIO)"@,
    {
        Err(
            String::from_str(
                "FlexIoHost::attach needs BlueField-3 FlexIO runtime (modules/aether_dpa + DOCA FlexIO)",
            ),
        )
    }
}

/// A control block gives back fields, flag and size, as long as the size is under
/// 2^31.
pub proof fn law_control_block_round_trip(host: FlexIoHost)
    requires
        host.wf(),
        host.pipeline.csr_delta_bytes < 0x8000_0000,
    ensures
        host.pipeline_word() % 0x1_0000_0000 == mask_of(host.pipeline.fields@),
        ((host.pipeline_word() / 0x1_0000_0000) % 2 == 1) == host.pipeline.deduplicate,
        host.pipeline_word() / 0x2_0000_0000 == host.pipeline.csr_delta_bytes,
{
}

/// Each field has its own bit in the mask, set exactly if the field is listed,
/// however often.
pub proof fn law_mask_has_a_bit_per_field(fields: Seq<EdgeField>)
    ensures
        ({
            let mask = mask_of(fields) as int;
            &&& (mask % 2 == 1) == fields.contains(EdgeField::SourceNode)
            &&& ((mask / 2) % 2 == 1) == fields.contains(EdgeField::DestinationNode)
            &&& ((mask / 4) % 2 == 1) == fields.contains(EdgeField::EdgeType)
            &&& ((mask / 8) % 2 == 1) == fields.contains(EdgeField::EventTimestamp)
            &&& mask < 16
        }),
{
}

} // verus!
