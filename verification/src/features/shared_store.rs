//! Feature rows in a region of memory that several processes map.
//!
//! The region holds the payload only. Its geometry travels in a handshake of fixed
//! length: payload length, number of nodes and dimension as 64-bit integers in
//! little-endian order, the element type as one byte, and padding.
use vstd::prelude::*;
use vstd::slice::slice_subrange;
use vstd::string::StringExecFns;
use crate::bytes::{holds_at, le8, lemma_u64_round_trip, push_u64, push_zeros, read_u64, u64_le};
use crate::graph::csr::NodeId;
use crate::text::{decimal, label_pair, lemma_tells_three, lemma_tells_two, push_decimal, tells};
use super::error::FeatureError;
use super::header::{
    feature_header_of, lemma_payload_fits, lemma_row_inside, parse_feature_header, placed,
    FeatureDtype,
};
use super::source::NodeFeatureSource;
use super::store::StoreView;

verus! {

/// Bytes of a handshake.
pub const HANDSHAKE_LEN: usize = 32;

/// Shape of shared rows.
#[derive(Debug, Clone, Copy, PartialEq, Eq, Structural)]
pub struct Geometry {
    pub payload_len: u64,
    pub num_nodes: usize,
    pub feature_dim: usize,
    pub dtype: FeatureDtype,
}

/// Why shared rows could not be published, attached or read.
#[derive(Debug, Clone, Copy, PartialEq, Eq, Structural)]
pub enum SharedStoreError {
    /// The handshake claims more nodes than the machine can count.
    NodesDoNotFit,
    /// The handshake claims more dimensions than the machine can count.
    DimDoesNotFit,
    /// The handshake or the file is not valid.
    Invalid { cause: FeatureError },
    /// A row has more bytes than the machine can count.
    RowOverflow,
    /// All rows have more bytes than 64 bits can count.
    PayloadOverflow,
    /// The rows do not have as many bytes as the handshake says.
    Inconsistent { num_nodes: usize, row_bytes: usize, payload_len: u64 },
    /// The handshake is that of an empty payload.
    EmptyPayload,
    /// The file has no rows, or rows without values.
    EmptyStore,
    /// The region is not as long as the handshake says.
    RegionLength { len: usize, payload_len: u64 },
    /// The buffer is not a row long.
    BufferLength { len: usize, expected: usize },
    /// The node does not exist.
    NodeOutOfBounds { node: u32, num_nodes: usize },
}

impl SharedStoreError {
    /// The text of the message.
    pub open spec fn text(self) -> Seq<char> {
        match self {
            SharedStoreError::NodesDoNotFit => "num_nodes does not fit in usize"@,
            SharedStoreError::DimDoesNotFit => "feature_dim does not fit in usize"@,
            SharedStoreError::Invalid { cause } => cause.text(),
            SharedStoreError::RowOverflow => "row size overflows usize"@,
            SharedStoreError::PayloadOverflow => "payload size overflows u64"@,
            SharedStoreError::Inconsistent { num_nodes, row_bytes, payload_len } =>
                "handshake geometry inconsistent: "@ + decimal(num_nodes as nat) + " x "@ + decimal(
                row_bytes as nat,
            ) + " != "@ + decimal(payload_len as nat) + " bytes"@,
            SharedStoreError::EmptyPayload => "shared store payload must be non-empty"@,
            SharedStoreError::EmptyStore => "feature store is empty"@,
            SharedStoreError::RegionLength { len, payload_len } => "region of "@ + decimal(
                len as nat,
            ) + " bytes for a payload of "@ + decimal(payload_len as nat),
            SharedStoreError::BufferLength { len, expected } => "output buffer is "@ + decimal(
                len as nat,
            ) + " long, expected "@ + decimal(expected as nat),
            SharedStoreError::NodeOutOfBounds { node, num_nodes } => "node "@ + decimal(
                node as nat,
            ) + " out of bounds (num_nodes="@ + decimal(num_nodes as nat) + ")"@,
        }
    }

    /// Describes the error.
    pub fn message(&self) -> (s: String)
        ensures
            s@ == self.text(),
    {
        match *self {
            SharedStoreError::NodesDoNotFit => String::from_str("num_nodes does not fit in usize"),
            SharedStoreError::DimDoesNotFit => String::from_str(
                "feature_dim does not fit in usize",
            ),
            SharedStoreError::Invalid { cause } => cause.message(),
            SharedStoreError::RowOverflow => String::from_str("row size overflows usize"),
            SharedStoreError::PayloadOverflow => String::from_str("payload size overflows u64"),
            SharedStoreError::Inconsistent { num_nodes, row_bytes, payload_len } => {
                let mut s = label_pair(
                    "handshake geometry inconsistent: ",
                    num_nodes as u64,
                    " x ",
                    row_bytes as u64,
                );
                s.append(" != ");
                push_decimal(&mut s, payload_len);
                s.append(" bytes");
                s
            },
            SharedStoreError::EmptyPayload => String::from_str(
                "shared store payload must be non-empty",
            ),
            SharedStoreError::EmptyStore => String::from_str("feature store is empty"),
            SharedStoreError::RegionLength { len, payload_len } => label_pair(
                "region of ",
                len as u64,
                " bytes for a payload of ",
                payload_len,
            ),
            SharedStoreError::BufferLength { len, expected } => label_pair(
                "output buffer is ",
                len as u64,
                " long, expected ",
                expected as u64,
            ),
            SharedStoreError::NodeOutOfBounds { node, num_nodes } => {
                let mut s = label_pair(
                    "node ",
                    node as u64,
                    " out of bounds (num_nodes=",
                    num_nodes as u64,
                );
                s.append(")");
                s
            },
        }
    }
}

/// The geometry that a handshake states, or what is wrong with it.
pub open spec fn handshake_of(b: Seq<u8>) -> Result<Geometry, SharedStoreError> {
    let payload_len = le8(b, 0);
    let num_nodes = le8(b, 8);
    let dim = le8(b, 16);
    let dtype = if b[24] == 0 {
        FeatureDtype::F32
    } else {
        FeatureDtype::F16
    };
    if num_nodes > usize::MAX {
        Err(SharedStoreError::NodesDoNotFit)
    } else if dim > usize::MAX {
        Err(SharedStoreError::DimDoesNotFit)
    } else if b[24] > 1 {
        Err(SharedStoreError::Invalid { cause: FeatureError::UnknownDtype { tag: b[24] } })
    } else if dim * dtype.size() > usize::MAX {
        Err(SharedStoreError::RowOverflow)
    } else if num_nodes * (dim * dtype.size()) > u64::MAX {
        Err(SharedStoreError::PayloadOverflow)
    } else if num_nodes * (dim * dtype.size()) != payload_len {
        Err(
            SharedStoreError::Inconsistent {
                num_nodes: num_nodes as usize,
                row_bytes: (dim * dtype.size()) as usize,
                payload_len: payload_len as u64,
            },
        )
    } else if payload_len == 0 {
        Err(SharedStoreError::EmptyPayload)
    } else {
        Ok(
            Geometry {
                payload_len: payload_len as u64,
                num_nodes: num_nodes as usize,
                feature_dim: dim as usize,
                dtype,
            },
        )
    }
}

impl Geometry {
    /// Bytes of a row.
    pub open spec fn row_len(self) -> int {
        self.feature_dim * self.dtype.size()
    }

    /// The payload has as many bytes as the rows, and some.
    pub open spec fn consistent(self) -> bool {
        &&& self.row_len() <= usize::MAX
        &&& self.payload_len == self.num_nodes * self.row_len()
        &&& self.payload_len > 0
    }

    /// The handshake of a geometry.
    pub open spec fn handshake(self) -> Seq<u8> {
        u64_le(self.payload_len) + u64_le(self.num_nodes as u64) + u64_le(self.feature_dim as u64)
            + seq![self.dtype.code()] + Seq::new(7, |i: int| 0u8)
    }

    /// The handshake of a geometry.
    pub fn to_bytes(self) -> (b: Vec<u8>)
        ensures
            b@ == self.handshake(),
            b@.len() == HANDSHAKE_LEN,
    {
        let mut b: Vec<u8> = Vec::new();
        push_u64(&mut b, self.payload_len);
        push_u64(&mut b, self.num_nodes as u64);
        push_u64(&mut b, self.feature_dim as u64);
        b.push(self.dtype.tag());
        push_zeros(&mut b, 7);
        assert(b@ =~= self.handshake());
        b
    }

    /// Reads and checks a handshake.
    pub fn from_bytes(b: &[u8]) -> (r: Result<Geometry, SharedStoreError>)
        requires
            b@.len() == HANDSHAKE_LEN,
        ensures
            r == handshake_of(b@),
            r matches Ok(g) ==> g.consistent(),
    {
        let payload_len = read_u64(b, 0);
        let num_nodes = read_u64(b, 8);
        let dim = read_u64(b, 16);
        if num_nodes > usize::MAX as u64 {
            return Err(SharedStoreError::NodesDoNotFit);
        }
        if dim > usize::MAX as u64 {
            return Err(SharedStoreError::DimDoesNotFit);
        }
        let dtype = match FeatureDtype::from_u8(b[24]) {
            Ok(d) => d,
            Err(cause) => {
                assert(FeatureDtype::F32.code() == 0 && FeatureDtype::F16.code() == 1);
                return Err(SharedStoreError::Invalid { cause });
            },
        };
        let feature_dim: usize = dim as usize;
        let row_bytes: usize = match feature_dim.checked_mul(dtype.element_size()) {
            Some(n) => n,
            None => {
                return Err(SharedStoreError::RowOverflow);
            },
        };
        let expect: u64 = match num_nodes.checked_mul(row_bytes as u64) {
            Some(n) => n,
            None => {
                return Err(SharedStoreError::PayloadOverflow);
            },
        };
        if expect != payload_len {
            return Err(
                SharedStoreError::Inconsistent {
                    num_nodes: num_nodes as usize,
                    row_bytes,
                    payload_len,
                },
            );
        }
        if payload_len == 0 {
            return Err(SharedStoreError::EmptyPayload);
        }
        Ok(Geometry { payload_len, num_nodes: num_nodes as usize, feature_dim, dtype })
    }
}

/// Reading back a handshake gives the geometry that it was made of.
pub proof fn law_handshake_round_trip(g: Geometry)
    requires
        g.consistent(),
    ensures
        handshake_of(g.handshake()) == Ok::<Geometry, SharedStoreError>(g),
{
    let b = g.handshake();
    let a0 = u64_le(g.payload_len);
    let a1 = u64_le(g.num_nodes as u64);
    let a2 = u64_le(g.feature_dim as u64);
    assert(holds_at(b, 0, a0)) by {
        assert(forall|i: int| 0 <= i < 8 ==> b[0 + i] == a0[i]);
    }
    assert(holds_at(b, 8, a1)) by {
        assert(forall|i: int| 0 <= i < 8 ==> b[8 + i] == a1[i]);
    }
    assert(holds_at(b, 16, a2)) by {
        assert(forall|i: int| 0 <= i < 8 ==> b[16 + i] == a2[i]);
    }
    lemma_u64_round_trip(b, 0, g.payload_len);
    lemma_u64_round_trip(b, 8, g.num_nodes as u64);
    lemma_u64_round_trip(b, 16, g.feature_dim as u64);
    assert(b[24] == g.dtype.code());
}

/// Feature rows in a shared region.
pub struct SharedFeatureStore<'a> {
    region: &'a [u8],
    geometry: Geometry,
}

impl<'a> View for SharedFeatureStore<'a> {
    type V = StoreView;

    closed spec fn view(&self) -> StoreView {
        StoreView {
            num_nodes: self.geometry.num_nodes as nat,
            feature_dim: self.geometry.feature_dim as nat,
            dtype: self.geometry.dtype,
            payload: self.region@,
        }
    }
}

/// The rows of a feature file that are to be shared, or what is wrong with it.
pub open spec fn published_of(b: Seq<u8>) -> Result<StoreView, SharedStoreError> {
    match feature_header_of(b, b.len() as u64) {
        Err(cause) => Err(SharedStoreError::Invalid { cause }),
        Ok(h) => if h.num_nodes * h.feature_size == 0 {
            Err(SharedStoreError::EmptyStore)
        } else {
            Ok(
                StoreView {
                    num_nodes: h.num_nodes as nat,
                    feature_dim: h.feature_dim as nat,
                    dtype: h.dtype,
                    payload: b.subrange(
                        h.features_start_offset as int,
                        h.features_start_offset + h.num_nodes * h.feature_size,
                    ),
                },
            )
        },
    }
}

impl<'a> SharedFeatureStore<'a> {
    /// The region holds the rows that the geometry describes.
    pub closed spec fn wf(&self) -> bool {
        &&& self.geometry.consistent()
        &&& self.region@.len() == self.geometry.payload_len
    }

    /// What a store shows of itself.
    pub proof fn lemma_shape(&self)
        requires
            self.wf(),
        ensures
            self@.wf(),
            self@.row_bytes() <= usize::MAX,
    {
    }

    /// The rows of a feature file, for copying into a region.
    pub fn publish(file: &'a [u8]) -> (r: Result<SharedFeatureStore<'a>, SharedStoreError>)
        ensures
            match r {
                Ok(s) => s.wf() && published_of(file@) == Ok::<StoreView, SharedStoreError>(s@),
                Err(e) => published_of(file@) == Err::<StoreView, SharedStoreError>(e),
            },
    {
        let len: usize = file.len();
        let h = match parse_feature_header(file, len as u64) {
            Ok(h) => h,
            Err(cause) => {
                return Err(SharedStoreError::Invalid { cause });
            },
        };
        proof {
            lemma_payload_fits(h.num_nodes as int, h.feature_dim as int, h.dtype.size());
        }
        let payload_len: usize = h.num_nodes * h.feature_size;
        if payload_len == 0 {
            return Err(SharedStoreError::EmptyStore);
        }
        let start: usize = h.features_start_offset as usize;
        let region = slice_subrange(file, start, start + payload_len);
        let geometry = Geometry {
            payload_len: payload_len as u64,
            num_nodes: h.num_nodes,
            feature_dim: h.feature_dim,
            dtype: h.dtype,
        };
        Ok(SharedFeatureStore { region, geometry })
    }

    /// The rows in a region whose handshake was received.
    pub fn attach(handshake: &[u8], region: &'a [u8]) -> (r: Result<
        SharedFeatureStore<'a>,
        SharedStoreError,
    >)
        requires
            handshake@.len() == HANDSHAKE_LEN,
        ensures
            match handshake_of(handshake@) {
                Err(e) => r == Err::<SharedFeatureStore<'a>, SharedStoreError>(e),
                Ok(g) => match r {
                    Ok(s) => {
                        &&& region@.len() == g.payload_len
                        &&& s.wf()
                        &&& s@ == (StoreView {
                            num_nodes: g.num_nodes as nat,
                            feature_dim: g.feature_dim as nat,
                            dtype: g.dtype,
                            payload: region@,
                        })
                    },
                    Err(e) => region@.len() != g.payload_len && e == (
                    SharedStoreError::RegionLength {
                        len: region@.len() as usize,
                        payload_len: g.payload_len,
                    }),
                },
            },
    {
        let geometry = match Geometry::from_bytes(handshake) {
            Ok(g) => g,
            Err(e) => {
                return Err(e);
            },
        };
        let len: usize = region.len();
        if len as u64 != geometry.payload_len {
            return Err(
                SharedStoreError::RegionLength { len, payload_len: geometry.payload_len },
            );
        }
        Ok(SharedFeatureStore { region, geometry })
    }

    /// The handshake to send to whoever attaches.
    pub fn geometry(&self) -> (g: Geometry)
        requires
            self.wf(),
        ensures
            g.consistent(),
            g.payload_len == self@.payload.len(),
            g.num_nodes == self@.num_nodes,
            g.feature_dim == self@.feature_dim,
            g.dtype == self@.dtype,
    {
        self.geometry
    }

    /// The bytes of the region.
    pub fn payload(&self) -> (b: &'a [u8])
        ensures
            b@ == self@.payload,
    {
        self.region
    }

    /// Number of nodes in the store.
    pub fn num_nodes(&self) -> (n: usize)
        ensures
            n == self@.num_nodes,
    {
        self.geometry.num_nodes
    }

    /// Feature dimension.
    pub fn feature_dim(&self) -> (n: usize)
        ensures
            n == self@.feature_dim,
    {
        self.geometry.feature_dim
    }

    /// Element type of the payload.
    pub fn dtype(&self) -> (d: FeatureDtype)
        ensures
            d == self@.dtype,
    {
        self.geometry.dtype
    }

    /// Bytes of the region, of which there is one however many attach.
    pub fn shared_bytes(&self) -> (n: usize)
        ensures
            n == self@.payload.len(),
    {
        self.region.len()
    }

    /// Reads the features of a node into `out`, which is one row long.
    pub fn get_into(&self, node: NodeId, out: &mut [u32]) -> (r: Result<(), SharedStoreError>)
        requires
            self.wf(),
        ensures
            match r {
                Ok(_) => {
                    &&& old(out)@.len() == self@.feature_dim
                    &&& node < self@.num_nodes
                    &&& final(out)@ == self@.row(node as int)
                },
                Err(e) => {
                    &&& final(out)@ == old(out)@
                    &&& if old(out)@.len() != self@.feature_dim {
                        e == (SharedStoreError::BufferLength {
                            len: old(out)@.len() as usize,
                            expected: self@.feature_dim as usize,
                        })
                    } else {
                        node >= self@.num_nodes && e == (SharedStoreError::NodeOutOfBounds {
                            node,
                            num_nodes: self@.num_nodes as usize,
                        })
                    }
                },
            },
    {
        let len: usize = out.len();
        let dim: usize = self.geometry.feature_dim;
        if len != dim {
            return Err(SharedStoreError::BufferLength { len, expected: dim });
        }
        if node as u64 >= self.geometry.num_nodes as u64 {
            return Err(
                SharedStoreError::NodeOutOfBounds { node, num_nodes: self.geometry.num_nodes },
            );
        }
        let size: usize = self.geometry.dtype.element_size();
        proof {
            lemma_row_inside(
                node as int,
                self.geometry.num_nodes as int,
                self.geometry.row_len(),
            );
        }
        let region_len: usize = self.region.len();
        let row_bytes: usize = dim * size;
        let at: usize = node as usize * row_bytes;
        self.geometry.dtype.decode_row(self.region, at, dim, out, 0);
        assert(out@ =~= self@.row(node as int));
        Ok(())
    }

    /// Gathers the features of nodes into one buffer, in the order of the list.
    pub fn get_batch(&self, nodes: &[NodeId]) -> (r: Result<Vec<u32>, SharedStoreError>)
        requires
            self.wf(),
        ensures
            match r {
                Ok(out) => self@.has_all(nodes@) && out@ == self@.rows(nodes@),
                Err(e) => exists|i: int|
                    self@.first_missing(nodes@, i) && e == (SharedStoreError::NodeOutOfBounds {
                        node: #[trigger] nodes@[i],
                        num_nodes: self@.num_nodes as usize,
                    }),
            },
    {
        let mut out: Vec<u32> = Vec::new();
        let dim: usize = self.geometry.feature_dim;
        let size: usize = self.geometry.dtype.element_size();
        let row_bytes: usize = dim * size;
        let region_len: usize = self.region.len();
        let mut i: usize = 0;
        while i < nodes.len()
            invariant
                self.wf(),
                i <= nodes@.len(),
                dim == self.geometry.feature_dim,
                size == self.geometry.dtype.size(),
                row_bytes == self.geometry.row_len(),
                region_len == self.region@.len(),
                forall|k: int| 0 <= k < i ==> (#[trigger] nodes@[k]) < self@.num_nodes,
                out@ == self@.rows(nodes@.take(i as int)),
            decreases nodes@.len() - i,
        {
            let node: u32 = nodes[i];
            if node as u64 >= self.geometry.num_nodes as u64 {
                assert(self@.first_missing(nodes@, i as int));
                assert(nodes@[i as int] == node);
                return Err(
                    SharedStoreError::NodeOutOfBounds {
                        node,
                        num_nodes: self.geometry.num_nodes,
                    },
                );
            }
            proof {
                lemma_row_inside(
                    node as int,
                    self.geometry.num_nodes as int,
                    self.geometry.row_len(),
                );
                let list = nodes@.take(i + 1);
                assert(list.drop_last() =~= nodes@.take(i as int));
                assert(list.last() == node);
            }
            let at: usize = node as usize * row_bytes;
            self.geometry.dtype.push_row(self.region, at, dim, &mut out);
            i += 1;
        }
        assert(nodes@.take(i as int) =~= nodes@);
        Ok(out)
    }
}

impl<'a> NodeFeatureSource for SharedFeatureStore<'a> {
    open spec fn ready(&self) -> bool {
        self.wf()
    }

    open spec fn width(&self) -> nat {
        self@.feature_dim
    }

    open spec fn node_row(&self, node: NodeId) -> Option<Seq<u32>> {
        if node < self@.num_nodes {
            Some(self@.row(node as int))
        } else {
            None
        }
    }

    open spec fn takes(&self, len: nat) -> bool {
        len == self@.feature_dim
    }

    fn feature_dim(&self) -> usize {
        self.geometry.feature_dim
    }

    fn read_node(&self, node: NodeId, out: &mut [u32]) -> bool {
        let ghost before = out@;
        let done = self.get_into(node, out).is_ok();
        assert(done ==> out@ =~= placed(before, 0, self@.row(node as int)));
        done
    }
}

/// Whoever attaches with the owner's handshake and region has the owner's rows.
pub proof fn law_attached_rows_are_the_owners(owner: StoreView, g: Geometry)
    requires
        g.consistent(),
        g.payload_len == owner.payload.len(),
        g.num_nodes == owner.num_nodes,
        g.feature_dim == owner.feature_dim,
        g.dtype == owner.dtype,
    ensures
        ({
            let back = handshake_of(g.handshake());
            &&& back matches Ok(h)
            &&& (StoreView {
                num_nodes: h.num_nodes as nat,
                feature_dim: h.feature_dim as nat,
                dtype: h.dtype,
                payload: owner.payload,
            }) == owner
        }),
{
    law_handshake_round_trip(g);
}

/// A handshake is accepted exactly if its element type is known, its nodes times
/// its row size are its payload, that payload is not empty, and all sizes fit.
/// Payload size, nodes, dimensions and element type stand in it in this order.
pub proof fn law_handshake_is_accepted_when(b: Seq<u8>)
    ensures
        ({
            let payload = le8(b, 0);
            let nodes = le8(b, 8);
            let dim = le8(b, 16);
            let size = if b[24] == 0 {
                4int
            } else {
                2int
            };
            let r = handshake_of(b);
            &&& r is Ok <==> {
                &&& b[24] <= 1
                &&& nodes * (dim * size) == payload
                &&& payload > 0
                &&& nodes <= usize::MAX
                &&& dim <= usize::MAX
                &&& dim * size <= usize::MAX
            }
            &&& r matches Ok(g) ==> {
                &&& g.payload_len == payload
                &&& g.num_nodes == nodes
                &&& g.feature_dim == dim
                &&& g.dtype == (if b[24] == 0 {
                    FeatureDtype::F32
                } else {
                    FeatureDtype::F16
                })
            }
        }),
{
    assert(0 <= le8(b, 0) <= u64::MAX && 0 <= le8(b, 8) && 0 <= le8(b, 16)) by {
        assert(0 <= crate::bytes::le4(b, 0) <= u32::MAX && 0 <= crate::bytes::le4(b, 4) <= u32::MAX);
        assert(0 <= crate::bytes::le4(b, 8) && 0 <= crate::bytes::le4(b, 12));
        assert(0 <= crate::bytes::le4(b, 16) && 0 <= crate::bytes::le4(b, 20));
    }
}

/// A file is published exactly if its header is accepted and its payload is not
/// empty; what is published is the payload with the header's shape.
pub proof fn law_published_rows_are_the_payload(b: Seq<u8>)
    ensures
        match feature_header_of(b, b.len() as u64) {
            Ok(h) => {
                let len = h.num_nodes * h.feature_size;
                &&& published_of(b) is Ok <==> len != 0
                &&& published_of(b) matches Ok(v) ==> {
                    &&& v.num_nodes == h.num_nodes
                    &&& v.feature_dim == h.feature_dim
                    &&& v.dtype == h.dtype
                    &&& v.payload == b.subrange(
                        h.features_start_offset as int,
                        h.features_start_offset + len,
                    )
                }
                &&& len == 0 ==> published_of(b) == Err::<StoreView, SharedStoreError>(
                    SharedStoreError::EmptyStore,
                )
            },
            Err(cause) => published_of(b) == Err::<StoreView, SharedStoreError>(
                SharedStoreError::Invalid { cause },
            ),
        },
{
}

/// What a refused handshake is told: counts that do not fit, then an unknown
/// element type, then a row or a payload that does not fit, then a payload that is
/// not nodes times row, with the three numbers, then an empty one.
pub proof fn law_handshake_refusals(b: Seq<u8>)
    requires
        le8(b, 8) <= usize::MAX,
        le8(b, 16) <= usize::MAX,
    ensures
        ({
            let payload = le8(b, 0);
            let nodes = le8(b, 8);
            let dim = le8(b, 16);
            let size = if b[24] == 0 {
                4int
            } else {
                2int
            };
            let row = dim * size;
            let fits = b[24] <= 1 && row <= usize::MAX && nodes * row <= u64::MAX;
            let r = handshake_of(b);
            &&& b[24] > 1 <==> (r matches Err(SharedStoreError::Invalid { cause }) && cause == (
            FeatureError::UnknownDtype { tag: b[24] }))
            &&& b[24] <= 1 && row > usize::MAX <==> r == Err::<Geometry, SharedStoreError>(
                SharedStoreError::RowOverflow,
            )
            &&& b[24] <= 1 && row <= usize::MAX && nodes * row > u64::MAX <==> r == Err::<
                Geometry,
                SharedStoreError,
            >(SharedStoreError::PayloadOverflow)
            &&& fits && nodes * row != payload <==> (r matches Err(
                SharedStoreError::Inconsistent { num_nodes, row_bytes, payload_len },
            ) && num_nodes == nodes && row_bytes == row && payload_len == payload)
            &&& fits && nodes * row == payload && payload == 0 <==> r == Err::<
                Geometry,
                SharedStoreError,
            >(SharedStoreError::EmptyPayload)
        }),
{
    assert(0 <= crate::bytes::le4(b, 0) <= u32::MAX && 0 <= crate::bytes::le4(b, 4) <= u32::MAX);
    assert(0 <= crate::bytes::le4(b, 8) && 0 <= crate::bytes::le4(b, 12));
    assert(0 <= crate::bytes::le4(b, 16) && 0 <= crate::bytes::le4(b, 20));
}

/// A message tells the numbers of its error, in this order.
pub proof fn law_shared_store_messages_tell_their_numbers(e: SharedStoreError)
    ensures
        match e {
            SharedStoreError::Inconsistent { num_nodes, row_bytes, payload_len } => tells(
                e.text(),
                seq![
                    decimal(num_nodes as nat),
                    decimal(row_bytes as nat),
                    decimal(payload_len as nat),
                ],
            ),
            SharedStoreError::RegionLength { len, payload_len } => tells(
                e.text(),
                seq![decimal(len as nat), decimal(payload_len as nat)],
            ),
            SharedStoreError::BufferLength { len, expected } => tells(
                e.text(),
                seq![decimal(len as nat), decimal(expected as nat)],
            ),
            SharedStoreError::NodeOutOfBounds { node, num_nodes } => tells(
                e.text(),
                seq![decimal(node as nat), decimal(num_nodes as nat)],
            ),
            _ => true,
        },
{
    match e {
        SharedStoreError::Inconsistent { num_nodes, row_bytes, payload_len } => {
            lemma_tells_three(
                e.text(),
                "handshake geometry inconsistent: "@,
                decimal(num_nodes as nat),
                " x "@,
                decimal(row_bytes as nat),
                " != "@,
                decimal(payload_len as nat),
                " bytes"@,
            );
        },
        SharedStoreError::RegionLength { len, payload_len } => {
            lemma_tells_two(
                e.text(),
                "region of "@,
                decimal(len as nat),
                " bytes for a payload of "@,
                decimal(payload_len as nat),
                Seq::<char>::empty(),
            );
        },
        SharedStoreError::BufferLength { len, expected } => {
            lemma_tells_two(
                e.text(),
                "output buffer is "@,
                decimal(len as nat),
                " long, expected "@,
                decimal(expected as nat),
                Seq::<char>::empty(),
            );
        },
        SharedStoreError::NodeOutOfBounds { node, num_nodes } => {
            lemma_tells_two(
                e.text(),
                "node "@,
                decimal(node as nat),
                " out of bounds (num_nodes="@,
                decimal(num_nodes as nat),
                ")"@,
            );
        },
        _ => {},
    }
}

} // verus!
