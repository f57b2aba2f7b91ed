//! What can go wrong with stored features.
use vstd::prelude::*;
use vstd::string::StringExecFns;
use crate::text::{decimal, label, label_pair, lemma_tells_one, lemma_tells_two, tells};
use super::header::{FEATURE_HEADER_SIZE, MAX_FEATURE_DIM, MAX_FEATURE_NODES};

verus! {

/// Why features could not be loaded, read or saved.
#[derive(Debug, Clone, Copy, PartialEq, Eq, Structural)]
pub enum FeatureError {
    /// The file is shorter than a header.
    TooSmall { len: usize },
    /// The header could not be read.
    HeaderUnreadable,
    /// The file does not start with the magic number.
    BadMagic,
    /// The file that a header was read from does not start with the magic number.
    InvalidFormat,
    /// The header claims more nodes than any file may have.
    TooManyNodes { nodes: u64 },
    /// The header claims more nodes than the machine can count.
    NodesDoNotFit,
    /// The header claims wider rows than any file may have.
    TooManyDims { dim: u64 },
    /// The payload starts inside the header.
    OffsetInHeader { offset: u64 },
    /// The payload starts beyond the end of the file.
    OffsetBeyondFile { offset: u64, len: usize },
    /// The payload does not start at a multiple of four bytes.
    OffsetUnaligned { offset: u64 },
    /// The header places the payload inside itself.
    PayloadInHeader { offset: u64 },
    /// The header does not place the payload at a multiple of four bytes.
    PayloadUnaligned { offset: u64 },
    /// The element type could not be read.
    TagUnreadable,
    /// The element type is not known.
    UnknownDtype { tag: u8 },
    /// The end of the payload is not a file position.
    SizeOverflow,
    /// The file is shorter than its header says.
    Truncated { required: u64, len: u64 },
    /// The payload is shorter than the header says.
    PayloadTruncated { required: u64, len: u64 },
    /// The node does not exist.
    NodeOutOfBounds { node: u32, num_nodes: usize },
    /// A node of a batch does not exist.
    BatchNodeOutOfBounds { node: u32 },
    /// A number of a batch names no node.
    InvalidNodeId,
    /// The length of a batch times dimensions is no array length.
    BatchOverflow,
    /// The buffer is shorter than what goes into it.
    BufferTooSmall { len: usize, required: usize },
    /// The buffer is not of the length that goes into it.
    BufferLength { len: usize, required: usize },
    /// Single rows of half-precision features cannot be handed out in place.
    HalfPrecisionRow,
    /// Half-precision features cannot be handed out in place.
    HalfPrecisionPayload,
    /// The array does not have one value per node and dimension.
    ArrayLength { expected: usize, len: usize },
    /// Nodes times dimensions is no array length.
    ArrayOverflow,
}

impl FeatureError {
    /// The text of the message.
    pub open spec fn text(self) -> Seq<char> {
        match self {
            FeatureError::TooSmall { len } => "feature file too small: "@ + decimal(len as nat)
                + " bytes"@,
            FeatureError::HeaderUnreadable => "failed to read header"@,
            FeatureError::BadMagic => "invalid feature file format (bad magic)"@,
            FeatureError::InvalidFormat => "Invalid feature file format"@,
            FeatureError::TooManyNodes { nodes } => "num_nodes "@ + decimal(nodes as nat)
                + " exceeds maximum "@ + decimal(MAX_FEATURE_NODES as nat),
            FeatureError::NodesDoNotFit => "num_nodes does not fit in usize"@,
            FeatureError::TooManyDims { dim } => "feature_dim "@ + decimal(dim as nat)
                + " exceeds maximum "@ + decimal(MAX_FEATURE_DIM as nat),
            FeatureError::OffsetInHeader { offset } => "invalid data_offset "@ + decimal(
                offset as nat,
            ) + " (must be > "@ + decimal(FEATURE_HEADER_SIZE as nat) + ")"@,
            FeatureError::OffsetBeyondFile { offset, len } => "invalid data_offset "@ + decimal(
                offset as nat,
            ) + " for file size "@ + decimal(len as nat),
            FeatureError::OffsetUnaligned { offset } => "invalid data_offset "@ + decimal(
                offset as nat,
            ) + " (must be 4-byte aligned)"@,
            FeatureError::PayloadInHeader { offset } => "invalid feature payload offset "@ + decimal(
                offset as nat,
            ) + " (must be > "@ + decimal(FEATURE_HEADER_SIZE as nat) + ")"@,
            FeatureError::PayloadUnaligned { offset } => "invalid feature payload offset "@ + decimal(
                offset as nat,
            ) + " (must be 4-byte aligned)"@,
            FeatureError::TagUnreadable => "failed to read dtype tag"@,
            FeatureError::UnknownDtype { tag } => "unknown feature dtype tag: "@ + decimal(
                tag as nat,
            ),
            FeatureError::SizeOverflow => "minimum feature file size overflow"@,
            FeatureError::Truncated { required, len } =>
                "feature file truncated: expected at least "@ + decimal(required as nat)
                + " bytes, got "@ + decimal(len as nat),
            FeatureError::PayloadTruncated { required, len } =>
                "feature file truncated: expected "@ + decimal(required as nat)
                + " bytes of data, got "@ + decimal(len as nat),
            FeatureError::NodeOutOfBounds { node, num_nodes } => "node "@ + decimal(node as nat)
                + " out of bounds (num_nodes="@ + decimal(num_nodes as nat) + ")"@,
            FeatureError::BatchNodeOutOfBounds { node } => "node "@ + decimal(node as nat)
                + " out of bounds"@,
            FeatureError::InvalidNodeId => "invalid node id: TryFromIntError(())"@,
            FeatureError::BatchOverflow => "nodes.len() * feature_dim overflows usize"@,
            FeatureError::BufferTooSmall { len, required } => "output buffer too small: "@
                + decimal(len as nat) + " < "@ + decimal(required as nat),
            FeatureError::BufferLength { len, required } => "output length "@ + decimal(len as nat)
                + " != "@ + decimal(required as nat),
            FeatureError::HalfPrecisionRow =>
                "get() is not supported for F16 features -- use get_batch() or get_into() instead"@,
            FeatureError::HalfPrecisionPayload =>
                "features() is not supported for F16 stores -- the raw payload is not f32. Use get_batch() to upcast."@,
            FeatureError::ArrayLength { expected, len } =>
                "feature array size mismatch: expected "@ + decimal(expected as nat) + ", got "@
                + decimal(len as nat),
            FeatureError::ArrayOverflow => "num_nodes * feature_dim overflows usize"@,
        }
    }

    /// Describes the error.
    pub fn message(&self) -> (s: String)
        ensures
            s@ == self.text(),
    {
        match *self {
            FeatureError::TooSmall { len } => {
                let mut s = label("feature file too small: ", len as u64);
                s.append(" bytes");
                s
            },
            FeatureError::HeaderUnreadable => String::from_str("failed to read header"),
            FeatureError::BadMagic => String::from_str("invalid feature file format (bad magic)"),
            FeatureError::InvalidFormat => String::from_str("Invalid feature file format"),
            FeatureError::TooManyNodes { nodes } => label_pair(
                "num_nodes ",
                nodes,
                " exceeds maximum ",
                MAX_FEATURE_NODES,
            ),
            FeatureError::NodesDoNotFit => String::from_str("num_nodes does not fit in usize"),
            FeatureError::TooManyDims { dim } => label_pair(
                "feature_dim ",
                dim,
                " exceeds maximum ",
                MAX_FEATURE_DIM,
            ),
            FeatureError::OffsetInHeader { offset } => {
                let mut s = label_pair(
                    "invalid data_offset ",
                    offset,
                    " (must be > ",
                    FEATURE_HEADER_SIZE as u64,
                );
                s.append(")");
                s
            },
            FeatureError::OffsetBeyondFile { offset, len } => label_pair(
                "invalid data_offset ",
                offset,
                " for file size ",
                len as u64,
            ),
            FeatureError::OffsetUnaligned { offset } => {
                let mut s = label("invalid data_offset ", offset);
                s.append(" (must be 4-byte aligned)");
                s
            },
            FeatureError::PayloadInHeader { offset } => {
                let mut s = label_pair(
                    "invalid feature payload offset ",
                    offset,
                    " (must be > ",
                    FEATURE_HEADER_SIZE as u64,
                );
                s.append(")");
                s
            },
            FeatureError::PayloadUnaligned { offset } => {
                let mut s = label("invalid feature payload offset ", offset);
                s.append(" (must be 4-byte aligned)");
                s
            },
            FeatureError::TagUnreadable => String::from_str("failed to read dtype tag"),
            FeatureError::UnknownDtype { tag } => label("unknown feature dtype tag: ", tag as u64),
            FeatureError::SizeOverflow => String::from_str("minimum feature file size overflow"),
            FeatureError::Truncated { required, len } => label_pair(
                "feature file truncated: expected at least ",
                required,
                " bytes, got ",
                len,
            ),
            FeatureError::PayloadTruncated { required, len } => label_pair(
                "feature file truncated: expected ",
                required,
                " bytes of data, got ",
                len,
            ),
            FeatureError::NodeOutOfBounds { node, num_nodes } => {
                let mut s = label_pair(
                    "node ",
                    node as u64,
                    " out of bounds (num_nodes=",
                    num_nodes as u64,
                );
                s.append(")");
                s
            },
            FeatureError::BatchNodeOutOfBounds { node } => {
                let mut s = label("node ", node as u64);
                s.append(" out of bounds");
                s
            },
            FeatureError::InvalidNodeId => String::from_str("invalid node id: TryFromIntError(())"),
            FeatureError::BatchOverflow => String::from_str(
                "nodes.len() * feature_dim overflows usize",
            ),
            FeatureError::BufferTooSmall { len, required } => label_pair(
                "output buffer too small: ",
                len as u64,
                " < ",
                required as u64,
            ),
            FeatureError::BufferLength { len, required } => label_pair(
                "output length ",
                len as u64,
                " != ",
                required as u64,
            ),
            FeatureError::HalfPrecisionRow => String::from_str(
                "get() is not supported for F16 features -- use get_batch() or get_into() instead",
            ),
            FeatureError::HalfPrecisionPayload => String::from_str(
                "features() is not supported for F16 stores -- the raw payload is not f32. Use get_batch() to upcast.",
            ),
            FeatureError::ArrayLength { expected, len } => label_pair(
                "feature array size mismatch: expected ",
                expected as u64,
                ", got ",
                len as u64,
            ),
            FeatureError::ArrayOverflow => String::from_str(
                "num_nodes * feature_dim overflows usize",
            ),
        }
    }
}

/// A message tells the numbers of its error, in this order.
pub proof fn law_feature_messages_tell_their_numbers(e: FeatureError)
    ensures
        match e {
            FeatureError::TooSmall { len } => tells(
                e.text(),
                seq![decimal(len as nat)],
            ),
            FeatureError::TooManyNodes { nodes } => tells(
                e.text(),
                seq![decimal(nodes as nat)],
            ),
            FeatureError::TooManyDims { dim } => tells(
                e.text(),
                seq![decimal(dim as nat)],
            ),
            FeatureError::OffsetInHeader { offset } => tells(
                e.text(),
                seq![decimal(offset as nat)],
            ),
            FeatureError::OffsetBeyondFile { offset, len } => tells(
                e.text(),
                seq![decimal(offset as nat), decimal(len as nat)],
            ),
            FeatureError::OffsetUnaligned { offset } => tells(
                e.text(),
                seq![decimal(offset as nat)],
            ),
            FeatureError::PayloadInHeader { offset } => tells(
                e.text(),
                seq![decimal(offset as nat)],
            ),
            FeatureError::PayloadUnaligned { offset } => tells(
                e.text(),
                seq![decimal(offset as nat)],
            ),
            FeatureError::UnknownDtype { tag } => tells(
                e.text(),
                seq![decimal(tag as nat)],
            ),
            FeatureError::Truncated { required, len } => tells(
                e.text(),
                seq![decimal(required as nat), decimal(len as nat)],
            ),
            FeatureError::PayloadTruncated { required, len } => tells(
                e.text(),
                seq![decimal(required as nat), decimal(len as nat)],
            ),
            FeatureError::NodeOutOfBounds { node, num_nodes } => tells(
                e.text(),
                seq![decimal(node as nat), decimal(num_nodes as nat)],
            ),
            FeatureError::BatchNodeOutOfBounds { node } => tells(
                e.text(),
                seq![decimal(node as nat)],
            ),
            FeatureError::BufferTooSmall { len, required } => tells(
                e.text(),
                seq![decimal(len as nat), decimal(required as nat)],
            ),
            FeatureError::BufferLength { len, required } => tells(
                e.text(),
                seq![decimal(len as nat), decimal(required as nat)],
            ),
            FeatureError::ArrayLength { expected, len } => tells(
                e.text(),
                seq![decimal(expected as nat), decimal(len as nat)],
            ),
            _ => true,
        },
{
    match e {
        FeatureError::TooSmall { len } => {
            lemma_tells_one(
                e.text(),
                "feature file too small: "@,
                decimal(len as nat),
                " bytes"@,
            );
        },
        FeatureError::TooManyNodes { nodes } => {
            lemma_tells_one(
                e.text(),
                "num_nodes "@,
                decimal(nodes as nat),
                " exceeds maximum "@ + decimal(MAX_FEATURE_NODES as nat),
            );
        },
        FeatureError::TooManyDims { dim } => {
            lemma_tells_one(
                e.text(),
                "feature_dim "@,
                decimal(dim as nat),
                " exceeds maximum "@ + decimal(MAX_FEATURE_DIM as nat),
            );
        },
        FeatureError::OffsetInHeader { offset } => {
            lemma_tells_one(
                e.text(),
                "invalid data_offset "@,
                decimal(offset as nat),
                " (must be > "@ + decimal(FEATURE_HEADER_SIZE as nat) + ")"@,
            );
        },
        FeatureError::OffsetBeyondFile { offset, len } => {
            lemma_tells_two(
                e.text(),
                "invalid data_offset "@,
                decimal(offset as nat),
                " for file size "@,
                decimal(len as nat),
                Seq::<char>::empty(),
            );
        },
        FeatureError::OffsetUnaligned { offset } => {
            lemma_tells_one(
                e.text(),
                "invalid data_offset "@,
                decimal(offset as nat),
                " (must be 4-byte aligned)"@,
            );
        },
        FeatureError::PayloadInHeader { offset } => {
            lemma_tells_one(
                e.text(),
                "invalid feature payload offset "@,
                decimal(offset as nat),
                " (must be > "@ + decimal(FEATURE_HEADER_SIZE as nat) + ")"@,
            );
        },
        FeatureError::PayloadUnaligned { offset } => {
            lemma_tells_one(
                e.text(),
                "invalid feature payload offset "@,
                decimal(offset as nat),
                " (must be 4-byte aligned)"@,
            );
        },
        FeatureError::UnknownDtype { tag } => {
            lemma_tells_one(
                e.text(),
                "unknown feature dtype tag: "@,
                decimal(tag as nat),
                Seq::<char>::empty(),
            );
        },
        FeatureError::Truncated { required, len } => {
            lemma_tells_two(
                e.text(),
                "feature file truncated: expected at least "@,
                decimal(required as nat),
                " bytes, got "@,
                decimal(len as nat),
                Seq::<char>::empty(),
            );
        },
        FeatureError::PayloadTruncated { required, len } => {
            lemma_tells_two(
                e.text(),
                "feature file truncated: expected "@,
                decimal(required as nat),
                " bytes of data, got "@,
                decimal(len as nat),
                Seq::<char>::empty(),
            );
        },
        FeatureError::NodeOutOfBounds { node, num_nodes } => {
            lemma_tells_two(
                e.text(),
                "node "@,
                decimal(node as nat),
                " out of bounds (num_nodes="@,
                decimal(num_nodes as nat),
                ")"@,
            );
        },
        FeatureError::BatchNodeOutOfBounds { node } => {
            lemma_tells_one(
                e.text(),
                "node "@,
                decimal(node as nat),
                " out of bounds"@,
            );
        },
        FeatureError::BufferTooSmall { len, required } => {
            lemma_tells_two(
                e.text(),
                "output buffer too small: "@,
                decimal(len as nat),
                " < "@,
                decimal(required as nat),
                Seq::<char>::empty(),
            );
        },
        FeatureError::BufferLength { len, required } => {
            lemma_tells_two(
                e.text(),
                "output length "@,
                decimal(len as nat),
                " != "@,
                decimal(required as nat),
                Seq::<char>::empty(),
            );
        },
        FeatureError::ArrayLength { expected, len } => {
            lemma_tells_two(
                e.text(),
                "feature array size mismatch: expected "@,
                decimal(expected as nat),
                ", got "@,
                decimal(len as nat),
                Seq::<char>::empty(),
            );
        },
        _ => {},
    }
}

} // verus!
