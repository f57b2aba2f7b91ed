//! Header of feature files and the encoding of feature rows.
//!
//! A feature file starts with a magic number, the number of nodes, the number of
//! dimensions and the position of the payload (eight bytes each), then one byte
//! for the element type. The payload is the rows in node order, little-endian.
use vstd::prelude::*;
use crate::bytes::{le2, le4, le8, read_u16, read_u32, read_u64};
use super::error::FeatureError;
use super::half_float::{widen, widened};

verus! {

/// Magic number of feature files: "AETHFEAT" in ASCII.
pub const FEATURE_MAGIC: u64 = 0x5441_4546_4854_4541;

/// Bytes of the header, without the element type.
pub const FEATURE_HEADER_SIZE: usize = 32;

/// Most nodes that a file may claim.
pub const MAX_FEATURE_NODES: u64 = 10_000_000_000;

/// Most dimensions that a file may claim.
pub const MAX_FEATURE_DIM: u64 = 100_000;

/// Element type of stored features.
#[derive(Debug, Clone, Copy, PartialEq, Eq, Structural)]
pub enum FeatureDtype {
    F32,
    F16,
}

/// The feature value stored at `at`, as a single-precision bit pattern.
pub open spec fn value_at(b: Seq<u8>, dtype: FeatureDtype, at: int) -> u32 {
    match dtype {
        FeatureDtype::F32 => le4(b, at) as u32,
        FeatureDtype::F16 => widened(le2(b, at) as u16) as u32,
    }
}

/// The row of `dim` values stored at `at`.
pub open spec fn row_at(b: Seq<u8>, dtype: FeatureDtype, at: int, dim: nat) -> Seq<u32> {
    Seq::new(dim, |j: int| value_at(b, dtype, at + j * dtype.size()))
}

impl FeatureDtype {
    /// Bytes per element.
    pub open spec fn size(self) -> int {
        match self {
            FeatureDtype::F32 => 4,
            FeatureDtype::F16 => 2,
        }
    }

    /// The byte that stands for the type in a file.
    pub open spec fn code(self) -> u8 {
        match self {
            FeatureDtype::F32 => 0,
            FeatureDtype::F16 => 1,
        }
    }

    /// Bytes per element.
    pub fn element_size(self) -> (n: usize)
        ensures
            n == self.size(),
    {
        match self {
            FeatureDtype::F32 => 4,
            FeatureDtype::F16 => 2,
        }
    }

    /// The byte that stands for the type in a file.
    pub fn tag(self) -> (t: u8)
        ensures
            t == self.code(),
    {
        match self {
            FeatureDtype::F32 => 0,
            FeatureDtype::F16 => 1,
        }
    }

    /// The type that a byte stands for.
    pub fn from_u8(v: u8) -> (r: Result<FeatureDtype, FeatureError>)
        ensures
            match r {
                Ok(d) => d.code() == v,
                Err(e) => e == (FeatureError::UnknownDtype { tag: v }) && forall|d: FeatureDtype| #[trigger]
                    d.code() != v,
            },
    {
        if v == 0 {
            Ok(FeatureDtype::F32)
        } else if v == 1 {
            Ok(FeatureDtype::F16)
        } else {
            Err(FeatureError::UnknownDtype { tag: v })
        }
    }

    /// Decodes the value at `at`.
    fn decode(self, b: &[u8], at: usize) -> (v: u32)
        requires
            at + self.size() <= b@.len(),
        ensures
            v == value_at(b@, self, at as int),
    {
        match self {
            FeatureDtype::F32 => read_u32(b, at),
            FeatureDtype::F16 => widen(read_u16(b, at)),
        }
    }

    /// Appends the row of `dim` values stored at `at`.
    pub fn push_row(self, b: &[u8], at: usize, dim: usize, out: &mut Vec<u32>)
        requires
            at + dim * self.size() <= b@.len(),
        ensures
            final(out)@ == old(out)@ + row_at(b@, self, at as int, dim as nat),
    {
        let len: usize = b.len();
        let size: usize = self.element_size();
        let ghost row = row_at(b@, self, at as int, dim as nat);
        let mut pos: usize = at;
        let mut j: usize = 0;
        while j < dim
            invariant
                j <= dim,
                size == self.size(),
                pos == at + j * size,
                at + dim * size <= len == b@.len(),
                row == row_at(b@, self, at as int, dim as nat),
                out@ == old(out)@ + row.take(j as int),
            decreases dim - j,
        {
            proof {
                lemma_step(j as int, dim as int, size as int);
            }
            out.push(self.decode(b, pos));
            pos += size;
            j += 1;
            assert(row.take(j as int) =~= row.take(j - 1).push(row[j - 1]));
        }
        assert(row.take(j as int) =~= row);
    }

    /// Writes the row of `dim` values stored at `at` to `out`, from position
    /// `to` on.
    pub fn decode_row(self, b: &[u8], at: usize, dim: usize, out: &mut [u32], to: usize)
        requires
            at + dim * self.size() <= b@.len(),
            to + dim <= old(out)@.len(),
        ensures
            final(out)@ == placed(old(out)@, to as int, row_at(b@, self, at as int, dim as nat)),
    {
        let len: usize = b.len();
        let out_len: usize = out.len();
        let size: usize = self.element_size();
        let ghost row = row_at(b@, self, at as int, dim as nat);
        let mut pos: usize = at;
        let mut j: usize = 0;
        assert(out@ =~= placed(old(out)@, to as int, row.take(0)));
        while j < dim
            invariant
                j <= dim,
                size == self.size(),
                pos == at + j * size,
                at + dim * size <= len == b@.len(),
                to + dim <= out_len == out@.len() == old(out)@.len(),
                row == row_at(b@, self, at as int, dim as nat),
                out@ == placed(old(out)@, to as int, row.take(j as int)),
            decreases dim - j,
        {
            proof {
                lemma_step(j as int, dim as int, size as int);
            }
            let value = self.decode(b, pos);
            out[to + j] = value;
            pos += size;
            j += 1;
            assert(out@ =~= placed(old(out)@, to as int, row.take(j as int)));
        }
        assert(row.take(j as int) =~= row);
    }
}

/// `s` with `part` written over it from `to` on.
pub open spec fn placed(s: Seq<u32>, to: int, part: Seq<u32>) -> Seq<u32> {
    Seq::new(
        s.len(),
        |i: int|
            if to <= i < to + part.len() {
                part[i - to]
            } else {
                s[i]
            },
    )
}

/// One element further.
proof fn lemma_step(j: int, dim: int, size: int)
    requires
        0 <= j < dim,
        size > 0,
    ensures
        (j + 1) * size == j * size + size,
        j * size + size <= dim * size,
        0 <= j * size,
{
    assert((j + 1) * size == j * size + size) by (nonlinear_arith);
    assert((j + 1) * size <= dim * size) by (nonlinear_arith)
        requires
            j + 1 <= dim,
            size > 0,
    ;
    assert(0 <= j * size) by (nonlinear_arith)
        requires
            0 <= j,
            size > 0,
    ;
}

/// Row `node` of a payload lies inside it.
pub proof fn lemma_row_inside(node: int, num_nodes: int, row_bytes: int)
    requires
        0 <= node < num_nodes,
        0 <= row_bytes,
    ensures
        0 <= node * row_bytes,
        node * row_bytes + row_bytes <= num_nodes * row_bytes,
{
    assert(0 <= node * row_bytes) by (nonlinear_arith)
        requires
            0 <= node,
            0 <= row_bytes,
    ;
    assert(node * row_bytes + row_bytes <= num_nodes * row_bytes) by (nonlinear_arith)
        requires
            node + 1 <= num_nodes,
            0 <= row_bytes,
    ;
}

/// Parsed, validated feature-file header.
#[derive(Debug, Clone, Copy, PartialEq, Eq, Structural)]
pub struct FeatureHeader {
    pub num_nodes: usize,
    pub feature_dim: usize,
    /// Byte offset into the file where the feature payload starts.
    pub features_start_offset: u64,
    /// Bytes per node's feature row.
    pub feature_size: usize,
    /// Element type.
    pub dtype: FeatureDtype,
}

/// Number of nodes that a header claims.
pub open spec fn claimed_nodes(b: Seq<u8>) -> int {
    le8(b, 8)
}

/// Number of dimensions that a header claims.
pub open spec fn claimed_dim(b: Seq<u8>) -> int {
    le8(b, 16)
}

/// Where a header says that the payload starts.
pub open spec fn claimed_offset(b: Seq<u8>) -> int {
    le8(b, 24)
}

/// Element type of a header.
pub open spec fn claimed_dtype(b: Seq<u8>) -> FeatureDtype {
    if b[FEATURE_HEADER_SIZE as int] == 0 {
        FeatureDtype::F32
    } else {
        FeatureDtype::F16
    }
}

/// Bytes of the payload that a header claims.
pub open spec fn claimed_bytes(b: Seq<u8>) -> int {
    claimed_nodes(b) * (claimed_dim(b) * claimed_dtype(b).size())
}

/// The header of a file of `file_size` bytes that starts with `b`, or what is
/// wrong with it.
pub open spec fn feature_header_of(b: Seq<u8>, file_size: u64) -> Result<
    FeatureHeader,
    FeatureError,
> {
    if b.len() < FEATURE_HEADER_SIZE {
        Err(FeatureError::HeaderUnreadable)
    } else if le8(b, 0) != FEATURE_MAGIC {
        Err(FeatureError::InvalidFormat)
    } else if claimed_nodes(b) > MAX_FEATURE_NODES {
        Err(FeatureError::TooManyNodes { nodes: claimed_nodes(b) as u64 })
    } else if claimed_dim(b) > MAX_FEATURE_DIM {
        Err(FeatureError::TooManyDims { dim: claimed_dim(b) as u64 })
    } else if claimed_offset(b) <= FEATURE_HEADER_SIZE {
        Err(FeatureError::PayloadInHeader { offset: claimed_offset(b) as u64 })
    } else if claimed_offset(b) % 4 != 0 {
        Err(FeatureError::PayloadUnaligned { offset: claimed_offset(b) as u64 })
    } else if b.len() == FEATURE_HEADER_SIZE {
        Err(FeatureError::TagUnreadable)
    } else if b[FEATURE_HEADER_SIZE as int] > 1 {
        Err(FeatureError::UnknownDtype { tag: b[FEATURE_HEADER_SIZE as int] })
    } else if claimed_offset(b) + claimed_bytes(b) > u64::MAX {
        Err(FeatureError::SizeOverflow)
    } else if file_size < claimed_offset(b) + claimed_bytes(b) {
        Err(
            FeatureError::Truncated {
                required: (claimed_offset(b) + claimed_bytes(b)) as u64,
                len: file_size,
            },
        )
    } else if claimed_nodes(b) > usize::MAX {
        Err(FeatureError::NodesDoNotFit)
    } else {
        Ok(
            FeatureHeader {
                num_nodes: claimed_nodes(b) as usize,
                feature_dim: claimed_dim(b) as usize,
                features_start_offset: claimed_offset(b) as u64,
                feature_size: (claimed_dim(b) * claimed_dtype(b).size()) as usize,
                dtype: claimed_dtype(b),
            },
        )
    }
}

/// Bytes of a payload fit 64 bits for every header within the caps.
pub proof fn lemma_payload_fits(nodes: int, dim: int, size: int)
    requires
        0 <= nodes <= MAX_FEATURE_NODES,
        0 <= dim <= MAX_FEATURE_DIM,
        2 <= size <= 4,
    ensures
        0 <= dim * size <= 400_000,
        0 <= nodes * (dim * size) <= 4_000_000_000_000_000,
{
    assert(0 <= dim * size <= 400_000) by (nonlinear_arith)
        requires
            0 <= dim <= 100_000,
            2 <= size <= 4,
    ;
    let row = dim * size;
    assert(0 <= nodes * row <= 4_000_000_000_000_000) by (nonlinear_arith)
        requires
            0 <= nodes <= 10_000_000_000,
            0 <= row <= 400_000,
    ;
}

/// Validates the header of a file of `file_size` bytes, of which `prefix` is the
/// start: as much of the first 33 bytes as the file has.
pub fn parse_feature_header(prefix: &[u8], file_size: u64) -> (r: Result<
    FeatureHeader,
    FeatureError,
>)
    ensures
        r == feature_header_of(prefix@, file_size),
{
    if prefix.len() < FEATURE_HEADER_SIZE {
        return Err(FeatureError::HeaderUnreadable);
    }
    if read_u64(prefix, 0) != FEATURE_MAGIC {
        return Err(FeatureError::InvalidFormat);
    }
    let nodes = read_u64(prefix, 8);
    let dim = read_u64(prefix, 16);
    if nodes > MAX_FEATURE_NODES {
        return Err(FeatureError::TooManyNodes { nodes });
    }
    if dim > MAX_FEATURE_DIM {
        return Err(FeatureError::TooManyDims { dim });
    }
    let offset = read_u64(prefix, 24);
    if offset <= FEATURE_HEADER_SIZE as u64 {
        return Err(FeatureError::PayloadInHeader { offset });
    }
    if offset % 4 != 0 {
        return Err(FeatureError::PayloadUnaligned { offset });
    }
    if prefix.len() == FEATURE_HEADER_SIZE {
        return Err(FeatureError::TagUnreadable);
    }
    let dtype = match FeatureDtype::from_u8(prefix[FEATURE_HEADER_SIZE]) {
        Ok(d) => d,
        Err(e) => {
            assert(FeatureDtype::F32.code() == 0 && FeatureDtype::F16.code() == 1);
            return Err(e);
        },
    };
    assert(dtype == claimed_dtype(prefix@));
    proof {
        lemma_payload_fits(nodes as int, dim as int, dtype.size());
    }
    let feature_size: u64 = dim * dtype.element_size() as u64;
    let total: u64 = nodes * feature_size;
    let required: u64 = match offset.checked_add(total) {
        Some(n) => n,
        None => {
            return Err(FeatureError::SizeOverflow);
        },
    };
    if file_size < required {
        return Err(FeatureError::Truncated { required, len: file_size });
    }
    if nodes > usize::MAX as u64 {
        return Err(FeatureError::NodesDoNotFit);
    }
    Ok(
        FeatureHeader {
            num_nodes: nodes as usize,
            feature_dim: dim as usize,
            features_start_offset: offset,
            feature_size: feature_size as usize,
            dtype,
        },
    )
}

/// Elements take four bytes or two; the tags in a file are 0 and 1. A row's
/// values are read one behind the other: four-byte values as they are, two-byte
/// values widened.
pub proof fn law_rows_read_their_elements(b: Seq<u8>, at: int, dim: nat, j: int)
    requires
        0 <= j < dim,
    ensures
        FeatureDtype::F32.size() == 4,
        FeatureDtype::F16.size() == 2,
        FeatureDtype::F32.code() == 0,
        FeatureDtype::F16.code() == 1,
        row_at(b, FeatureDtype::F32, at, dim).len() == dim,
        row_at(b, FeatureDtype::F16, at, dim).len() == dim,
        row_at(b, FeatureDtype::F32, at, dim)[j] == le4(b, at + 4 * j),
        row_at(b, FeatureDtype::F16, at, dim)[j] == widened(le2(b, at + 2 * j) as u16) as u32,
{
    assert(0 <= le4(b, at + 4 * j) <= u32::MAX);
}

/// The header of a feature file that is read from disk: it is accepted exactly if
/// it is whole, has the magic number, claims no more than 10,000,000,000 nodes and
/// 100,000 dimensions, places the payload behind itself at a multiple of four,
/// has a known element type, and the file holds the payload that it claims.
pub proof fn law_feature_header_is_accepted_when(b: Seq<u8>, file_size: u64)
    ensures
        ({
            let nodes = le8(b, 8);
            let dim = le8(b, 16);
            let start = le8(b, 24);
            let size = if b[32] == 0 {
                4int
            } else {
                2int
            };
            let end = start + nodes * (dim * size);
            let r = feature_header_of(b, file_size);
            &&& r is Ok <==> {
                &&& b.len() > 32
                &&& le8(b, 0) == 0x5441_4546_4854_4541
                &&& nodes <= 10_000_000_000
                &&& dim <= 100_000
                &&& start > 32
                &&& start % 4 == 0
                &&& b[32] <= 1
                &&& end <= u64::MAX
                &&& end <= file_size
                &&& nodes <= usize::MAX
            }
            &&& r matches Ok(h) ==> {
                &&& h.num_nodes == nodes
                &&& h.feature_dim == dim
                &&& h.features_start_offset == start
                &&& h.feature_size == dim * size
                &&& h.dtype == (if b[32] == 0 {
                    FeatureDtype::F32
                } else {
                    FeatureDtype::F16
                })
            }
            &&& b.len() < 32 <==> r == Err::<FeatureHeader, FeatureError>(
                FeatureError::HeaderUnreadable,
            )
            &&& b.len() >= 32 && le8(b, 0) != 0x5441_4546_4854_4541 <==> r == Err::<
                FeatureHeader,
                FeatureError,
            >(FeatureError::InvalidFormat)
        }),
{
    assert(0 <= le4(b, 8) <= u32::MAX && 0 <= le4(b, 12) <= u32::MAX);
    assert(0 <= le4(b, 16) <= u32::MAX && 0 <= le4(b, 20) <= u32::MAX);
    assert(0 <= le4(b, 24) <= u32::MAX && 0 <= le4(b, 28) <= u32::MAX);
}

/// Placing a part overwrites that stretch and nothing else.
pub proof fn law_placing_overwrites_one_stretch(s: Seq<u32>, to: int, part: Seq<u32>, i: int)
    requires
        0 <= to,
        to + part.len() <= s.len(),
        0 <= i < s.len(),
    ensures
        placed(s, to, part).len() == s.len(),
        placed(s, to, part).subrange(to, to + part.len()) == part,
        i < to || i >= to + part.len() ==> placed(s, to, part)[i] == s[i],
{
    assert(placed(s, to, part).subrange(to, to + part.len()) =~= part);
}

/// What a refused header is told: too many nodes, then too many dimensions, then a
/// payload inside the header, then one at no multiple of four, then an element
/// type that is not there, then one that is unknown, then a file that is shorter
/// than it says, each with the numbers it is about.
pub proof fn law_feature_header_refusals(b: Seq<u8>, file_size: u64)
    requires
        b.len() >= 32,
        le8(b, 0) == 0x5441_4546_4854_4541,
    ensures
        ({
            let nodes = le8(b, 8);
            let dim = le8(b, 16);
            let start = le8(b, 24);
            let size = if b[32] == 0 {
                4int
            } else {
                2int
            };
            let end = start + nodes * (dim * size);
            let counted = nodes <= 10_000_000_000 && dim <= 100_000;
            let placed = counted && start > 32 && start % 4 == 0;
            let typed = placed && b.len() > 32 && b[32] <= 1;
            let r = feature_header_of(b, file_size);
            &&& nodes > 10_000_000_000 <==> (r matches Err(FeatureError::TooManyNodes { nodes: n })
                && n == nodes)
            &&& nodes <= 10_000_000_000 && dim > 100_000 <==> (r matches Err(
                FeatureError::TooManyDims { dim: d },
            ) && d == dim)
            &&& counted && start <= 32 <==> (r matches Err(FeatureError::PayloadInHeader { offset })
                && offset == start)
            &&& counted && start > 32 && start % 4 != 0 <==> (r matches Err(
                FeatureError::PayloadUnaligned { offset },
            ) && offset == start)
            &&& placed && b.len() == 32 <==> r == Err::<FeatureHeader, FeatureError>(
                FeatureError::TagUnreadable,
            )
            &&& placed && b.len() > 32 && b[32] > 1 <==> (r matches Err(
                FeatureError::UnknownDtype { tag },
            ) && tag == b[32])
            &&& typed && end > u64::MAX <==> r == Err::<FeatureHeader, FeatureError>(
                FeatureError::SizeOverflow,
            )
            &&& typed && end <= u64::MAX && file_size < end <==> (r matches Err(
                FeatureError::Truncated { required, len },
            ) && required == end && len == file_size)
        }),
{
    assert(0 <= le4(b, 8) <= u32::MAX && 0 <= le4(b, 12) <= u32::MAX);
    assert(0 <= le4(b, 16) <= u32::MAX && 0 <= le4(b, 20) <= u32::MAX);
    assert(0 <= le4(b, 24) <= u32::MAX && 0 <= le4(b, 28) <= u32::MAX);
    let nodes = le8(b, 8);
    let dim = le8(b, 16);
    let size = if b[32] == 0 {
        4int
    } else {
        2int
    };
    if nodes <= 10_000_000_000 && dim <= 100_000 {
        lemma_payload_fits(nodes, dim, size);
    }
}

} // verus!
