//! Feature stores: all rows of a feature file, in memory.
use vstd::prelude::*;
use crate::bytes::{le2, le4, le8, read_u64};
use crate::graph::csr::NodeId;
use super::error::FeatureError;
use super::half_float::widened;
use super::header::{
    claimed_bytes, claimed_dim, claimed_dtype, claimed_nodes, claimed_offset, lemma_payload_fits,
    lemma_row_inside, placed, row_at, FeatureDtype, FEATURE_HEADER_SIZE, FEATURE_MAGIC,
    MAX_FEATURE_DIM, MAX_FEATURE_NODES,
};
use super::node_ids::{named, AsNodeId};
use super::source::NodeFeatureSource;
use super::telemetry::{
    clock_elapsed, clock_now, counted_batch, counted_get, FeatureLoadTelemetry,
};

verus! {

/// Where written files place the payload.
pub const ALIGNED_DATA_OFFSET: usize = 512;

/// Rows of features under construction, as bit patterns in node order.
#[derive(Debug, Clone)]
pub struct FeatureData {
    /// Number of nodes.
    pub num_nodes: u64,
    /// Feature dimension per node.
    pub feature_dim: u64,
    /// All rows, one after the other.
    pub features: Vec<u32>,
}

impl FeatureData {
    /// One value per node and dimension.
    pub open spec fn wf(&self) -> bool {
        &&& self.num_nodes <= usize::MAX
        &&& self.feature_dim <= usize::MAX
        &&& self.features@.len() == self.num_nodes * self.feature_dim
    }

    /// The row of a node.
    pub open spec fn row(&self, node: int) -> Seq<u32> {
        self.features@.subrange(
            node * self.feature_dim,
            node * self.feature_dim + self.feature_dim,
        )
    }

    /// Creates new feature data with zeros.
    pub fn new(num_nodes: usize, feature_dim: usize) -> (d: FeatureData)
        requires
            num_nodes * feature_dim <= usize::MAX,
        ensures
            d.wf(),
            d.num_nodes == num_nodes,
            d.feature_dim == feature_dim,
            d.features@ == Seq::new((num_nodes * feature_dim) as nat, |i: int| 0u32),
    {
        let features: Vec<u32> = vec![0u32; num_nodes * feature_dim];
        assert(features@ =~= Seq::new((num_nodes * feature_dim) as nat, |i: int| 0u32));
        FeatureData { num_nodes: num_nodes as u64, feature_dim: feature_dim as u64, features }
    }

    /// Creates feature data from existing features.
    pub fn from_features(features: Vec<u32>, num_nodes: usize, feature_dim: usize) -> (r: Result<
        FeatureData,
        FeatureError,
    >)
        ensures
            match r {
                Ok(d) => {
                    &&& features@.len() == num_nodes * feature_dim
                    &&& d.wf()
                    &&& d.num_nodes == num_nodes
                    &&& d.feature_dim == feature_dim
                    &&& d.features@ == features@
                },
                Err(e) => if num_nodes * feature_dim > usize::MAX {
                    e == FeatureError::ArrayOverflow
                } else {
                    features@.len() != num_nodes * feature_dim && e == (
                    FeatureError::ArrayLength {
                        expected: (num_nodes * feature_dim) as usize,
                        len: features@.len() as usize,
                    })
                },
            },
    {
        let expected: usize = match num_nodes.checked_mul(feature_dim) {
            Some(n) => n,
            None => {
                assert(num_nodes * feature_dim > usize::MAX);
                return Err(FeatureError::ArrayOverflow);
            },
        };
        if features.len() != expected {
            return Err(FeatureError::ArrayLength { expected, len: features.len() });
        }
        Ok(
            FeatureData {
                num_nodes: num_nodes as u64,
                feature_dim: feature_dim as u64,
                features,
            },
        )
    }

    /// Gets the features of a node, nothing for an id that is no node.
    pub fn get(&self, node: NodeId) -> (row: Option<&[u32]>)
        requires
            self.wf(),
        ensures
            match row {
                Some(r) => node < self.num_nodes && r@ == self.row(node as int),
                None => node >= self.num_nodes,
            },
    {
        if node as u64 >= self.num_nodes {
            return None;
        }
        proof {
            lemma_row_inside(node as int, self.num_nodes as int, self.feature_dim as int);
        }
        let len: usize = self.features.len();
        let dim: usize = self.feature_dim as usize;
        let start: usize = node as usize * dim;
        Some(vstd::slice::slice_subrange(self.features.as_slice(), start, start + dim))
    }

    /// Gets the features of a node for writing, nothing for an id that is no
    /// node.
    pub fn get_mut(&mut self, node: NodeId) -> (row: Option<&mut [u32]>)
        requires
            old(self).wf(),
        ensures
            final(self).num_nodes == old(self).num_nodes,
            final(self).feature_dim == old(self).feature_dim,
            match row {
                Some(r) => {
                    &&& node < old(self).num_nodes
                    &&& r@ == old(self).row(node as int)
                    &&& final(self).features@ == old(self).features@.subrange(
                        0,
                        node * old(self).feature_dim,
                    ) + final(r)@ + old(self).features@.skip(
                        node * old(self).feature_dim + old(self).feature_dim,
                    )
                },
                None => node >= old(self).num_nodes && final(self).features@ == old(self).features@,
            },
    {
        if node as u64 >= self.num_nodes {
            return None;
        }
        proof {
            lemma_row_inside(node as int, self.num_nodes as int, self.feature_dim as int);
        }
        let len: usize = self.features.len();
        let dim: usize = self.feature_dim as usize;
        let start: usize = node as usize * dim;
        let ghost before = self.features@;
        let (_head, rest) = self.features.as_mut_slice().split_at_mut(start);
        let (row, _tail) = rest.split_at_mut(dim);
        proof {
            assert(row@ =~= before.subrange(start as int, start + dim));
            assert(_tail@ =~= before.skip(start + dim));
            assert(_head@ =~= before.subrange(0, start as int));
        }
        Some(row)
    }
}

/// Rows of features as a file holds them.
#[verifier::ext_equal]
pub struct StoreView {
    pub num_nodes: nat,
    pub feature_dim: nat,
    pub dtype: FeatureDtype,
    /// The bytes of the payload.
    pub payload: Seq<u8>,
}

impl StoreView {
    /// Bytes of a row.
    pub open spec fn row_bytes(self) -> int {
        self.feature_dim * self.dtype.size()
    }

    /// The payload holds all rows.
    pub open spec fn wf(self) -> bool {
        self.payload.len() == self.num_nodes * self.row_bytes()
    }

    /// The row of a node.
    pub open spec fn row(self, node: int) -> Seq<u32> {
        row_at(self.payload, self.dtype, node * self.row_bytes(), self.feature_dim)
    }

    /// The rows of nodes, one after the other.
    pub open spec fn rows(self, nodes: Seq<u32>) -> Seq<u32>
        decreases nodes.len(),
    {
        if nodes.len() == 0 {
            Seq::empty()
        } else {
            self.rows(nodes.drop_last()) + self.row(nodes.last() as int)
        }
    }

    /// Every one of the nodes exists.
    pub open spec fn has_all(self, nodes: Seq<u32>) -> bool {
        forall|i: int| 0 <= i < nodes.len() ==> (#[trigger] nodes[i]) < self.num_nodes
    }

    /// The first of the nodes that does not exist.
    pub open spec fn first_missing(self, nodes: Seq<u32>, i: int) -> bool {
        &&& 0 <= i < nodes.len()
        &&& nodes[i] >= self.num_nodes
        &&& forall|k: int| 0 <= k < i ==> (#[trigger] nodes[k]) < self.num_nodes
    }
}

/// Where the rows of a file are.
#[derive(Debug, Clone, Copy, PartialEq, Eq, Structural)]
pub struct StoreLayout {
    pub num_nodes: usize,
    pub feature_dim: usize,
    pub start: usize,
    pub dtype: FeatureDtype,
}

impl StoreLayout {
    /// Bytes of all rows.
    pub open spec fn payload_len(self) -> int {
        self.num_nodes * (self.feature_dim * self.dtype.size())
    }
}

/// Where the rows of a file are, or what is wrong with it.
pub open spec fn store_layout(b: Seq<u8>) -> Result<StoreLayout, FeatureError> {
    if b.len() < FEATURE_HEADER_SIZE {
        Err(FeatureError::TooSmall { len: b.len() as usize })
    } else if le8(b, 0) != FEATURE_MAGIC {
        Err(FeatureError::BadMagic)
    } else if claimed_nodes(b) > MAX_FEATURE_NODES {
        Err(FeatureError::TooManyNodes { nodes: claimed_nodes(b) as u64 })
    } else if claimed_dim(b) > MAX_FEATURE_DIM {
        Err(FeatureError::TooManyDims { dim: claimed_dim(b) as u64 })
    } else if claimed_offset(b) <= FEATURE_HEADER_SIZE {
        Err(FeatureError::OffsetInHeader { offset: claimed_offset(b) as u64 })
    } else if claimed_offset(b) > b.len() {
        Err(
            FeatureError::OffsetBeyondFile {
                offset: claimed_offset(b) as u64,
                len: b.len() as usize,
            },
        )
    } else if claimed_offset(b) % 4 != 0 {
        Err(FeatureError::OffsetUnaligned { offset: claimed_offset(b) as u64 })
    } else if b[FEATURE_HEADER_SIZE as int] > 1 {
        Err(FeatureError::UnknownDtype { tag: b[FEATURE_HEADER_SIZE as int] })
    } else if b.len() - claimed_offset(b) < claimed_bytes(b) {
        Err(
            FeatureError::PayloadTruncated {
                required: claimed_bytes(b) as u64,
                len: (b.len() - claimed_offset(b)) as u64,
            },
        )
    } else if claimed_nodes(b) > usize::MAX {
        Err(FeatureError::NodesDoNotFit)
    } else {
        Ok(
            StoreLayout {
                num_nodes: claimed_nodes(b) as usize,
                feature_dim: claimed_dim(b) as usize,
                start: claimed_offset(b) as usize,
                dtype: claimed_dtype(b),
            },
        )
    }
}

/// The rows that a file holds at a layout.
pub open spec fn rows_of(b: Seq<u8>, l: StoreLayout) -> StoreView {
    StoreView {
        num_nodes: l.num_nodes as nat,
        feature_dim: l.feature_dim as nat,
        dtype: l.dtype,
        payload: b.subrange(l.start as int, l.start + l.payload_len()),
    }
}

/// The rows of a file, or what is wrong with it.
pub open spec fn stored_features(b: Seq<u8>) -> Result<StoreView, FeatureError> {
    match store_layout(b) {
        Ok(l) => Ok(rows_of(b, l)),
        Err(e) => Err(e),
    }
}

/// Finds the rows of a file.
fn find_rows(b: &[u8]) -> (r: Result<StoreLayout, FeatureError>)
    ensures
        r == store_layout(b@),
        r matches Ok(l) ==> l.start + l.payload_len() <= b@.len() && l.payload_len() >= 0,
{
    let len: usize = b.len();
    if len < FEATURE_HEADER_SIZE {
        return Err(FeatureError::TooSmall { len });
    }
    if read_u64(b, 0) != FEATURE_MAGIC {
        return Err(FeatureError::BadMagic);
    }
    let nodes = read_u64(b, 8);
    let dim = read_u64(b, 16);
    let offset = read_u64(b, 24);
    if nodes > MAX_FEATURE_NODES {
        return Err(FeatureError::TooManyNodes { nodes });
    }
    if dim > MAX_FEATURE_DIM {
        return Err(FeatureError::TooManyDims { dim });
    }
    if offset <= FEATURE_HEADER_SIZE as u64 {
        return Err(FeatureError::OffsetInHeader { offset });
    }
    if offset > len as u64 {
        return Err(FeatureError::OffsetBeyondFile { offset, len });
    }
    if offset % 4 != 0 {
        return Err(FeatureError::OffsetUnaligned { offset });
    }
    let dtype = match FeatureDtype::from_u8(b[FEATURE_HEADER_SIZE]) {
        Ok(d) => d,
        Err(e) => {
            assert(FeatureDtype::F32.code() == 0 && FeatureDtype::F16.code() == 1);
            return Err(e);
        },
    };
    assert(dtype == claimed_dtype(b@));
    proof {
        lemma_payload_fits(nodes as int, dim as int, dtype.size());
    }
    let row_bytes: u64 = dim * dtype.element_size() as u64;
    let required: u64 = nodes * row_bytes;
    let actual: u64 = len as u64 - offset;
    if actual < required {
        return Err(FeatureError::PayloadTruncated { required, len: actual });
    }
    if nodes > usize::MAX as u64 {
        return Err(FeatureError::NodesDoNotFit);
    }
    Ok(
        StoreLayout {
            num_nodes: nodes as usize,
            feature_dim: dim as usize,
            start: offset as usize,
            dtype,
        },
    )
}

/// Feature store: the bytes of a feature file and where its rows are.
pub struct FeatureStore {
    data: Vec<u8>,
    layout: StoreLayout,
    telemetry: Option<FeatureLoadTelemetry>,
}

impl Clone for FeatureStore {
    /// A store with the same rows. Its counters start from those of this one and
    /// go their own way from then on.
    fn clone(&self) -> (s: FeatureStore)
        ensures
            s@ == self@,
            s.counters() == self.counters(),
            s.wf() == self.wf(),
    {
        let data = self.data.clone();
        assert(data@ =~= self.data@);
        FeatureStore { data, layout: self.layout, telemetry: self.telemetry }
    }
}

impl View for FeatureStore {
    type V = StoreView;

    closed spec fn view(&self) -> StoreView {
        rows_of(self.data@, self.layout)
    }
}

/// The nodes that numbers name.
pub open spec fn ids_of<T: AsNodeId>(nodes: Seq<T>) -> Seq<u32> {
    Seq::new(nodes.len(), |i: int| nodes[i].number() as u32)
}

/// Every one of the numbers names a node.
pub open spec fn all_named<T: AsNodeId>(nodes: Seq<T>) -> bool {
    forall|i: int| 0 <= i < nodes.len() ==> named((#[trigger] nodes[i]).number()) is Some
}

/// The number names a node that exists.
pub open spec fn readable<T: AsNodeId>(v: StoreView, node: T) -> bool {
    named(node.number()) matches Some(n) && n < v.num_nodes
}

/// The first of the numbers that names no node, or one that does not exist.
pub open spec fn first_unreadable<T: AsNodeId>(v: StoreView, nodes: Seq<T>, i: int) -> bool {
    &&& 0 <= i < nodes.len()
    &&& !readable(v, nodes[i])
    &&& forall|k: int| 0 <= k < i ==> readable(v, #[trigger] nodes[k])
}

/// How long rows are together.
proof fn lemma_rows_len(v: StoreView, nodes: Seq<u32>)
    ensures
        v.rows(nodes).len() == nodes.len() * v.feature_dim,
    decreases nodes.len(),
{
    if nodes.len() > 0 {
        lemma_rows_len(v, nodes.drop_last());
        assert((nodes.len() - 1) * v.feature_dim + v.feature_dim == nodes.len() * v.feature_dim)
            by (nonlinear_arith);
    } else {
        assert(0 * v.feature_dim == 0) by (nonlinear_arith);
    }
}

/// Rows inside a larger byte sequence.
proof fn lemma_row_in_payload(
    b: Seq<u8>,
    start: int,
    end: int,
    dtype: FeatureDtype,
    at: int,
    dim: nat,
)
    requires
        0 <= start <= end <= b.len(),
        0 <= at,
        at + dim * dtype.size() <= end - start,
    ensures
        row_at(b, dtype, start + at, dim) == row_at(b.subrange(start, end), dtype, at, dim),
{
    let p = b.subrange(start, end);
    let s = dtype.size();
    assert forall|j: int| 0 <= j < dim implies #[trigger] row_at(b, dtype, start + at, dim)[j]
        == row_at(p, dtype, at, dim)[j] by {
        assert(0 <= j * s && j * s + s <= dim * s) by (nonlinear_arith)
            requires
                0 <= j,
                j + 1 <= dim,
                s > 0,
        ;
        assert(start + at + j * s == start + (at + j * s));
    }
    assert(row_at(b, dtype, start + at, dim) =~= row_at(p, dtype, at, dim));
}

impl FeatureStore {
    /// The rows lie inside the file.
    pub closed spec fn wf(&self) -> bool {
        &&& 0 <= self.layout.payload_len()
        &&& self.layout.start + self.layout.payload_len() <= self.data@.len() <= usize::MAX
    }

    /// Where telemetry stands, if it is kept.
    pub closed spec fn counters(&self) -> Option<FeatureLoadTelemetry> {
        self.telemetry
    }

    /// Takes over the bytes of a feature file.
    pub fn load(data: Vec<u8>) -> (r: Result<FeatureStore, FeatureError>)
        ensures
            match r {
                Ok(s) => {
                    &&& s.wf()
                    &&& s@.wf()
                    &&& stored_features(data@) == Ok::<StoreView, FeatureError>(s@)
                    &&& s.counters() is None
                },
                Err(e) => stored_features(data@) == Err::<StoreView, FeatureError>(e),
            },
    {
        let len: usize = data.len();
        match find_rows(data.as_slice()) {
            Ok(layout) => Ok(FeatureStore { data, layout, telemetry: None }),
            Err(e) => Err(e),
        }
    }

    /// Gets the number of nodes.
    pub fn num_nodes(&self) -> (n: usize)
        ensures
            n == self@.num_nodes,
    {
        self.layout.num_nodes
    }

    /// Gets the feature dimension.
    pub fn feature_dim(&self) -> (n: usize)
        ensures
            n == self@.feature_dim,
    {
        self.layout.feature_dim
    }

    /// Gets the element type.
    pub fn dtype(&self) -> (d: FeatureDtype)
        ensures
            d == self@.dtype,
    {
        self.layout.dtype
    }

    /// Starts keeping telemetry, from zero.
    pub fn with_telemetry(self) -> (s: FeatureStore)
        requires
            self.wf(),
        ensures
            s.wf(),
            s@ == self@,
            s.counters() == Some(
                FeatureLoadTelemetry {
                    single_gets: 0,
                    batch_gets: 0,
                    total_nodes_loaded: 0,
                    total_features_loaded: 0,
                    total_bytes_loaded: 0,
                    get_time_ns: 0,
                    batch_time_ns: 0,
                },
            ),
    {
        FeatureStore {
            data: self.data,
            layout: self.layout,
            telemetry: Some(FeatureLoadTelemetry::default()),
        }
    }

    /// Gets where telemetry stands, if it is kept.
    pub fn telemetry(&self) -> (t: Option<FeatureLoadTelemetry>)
        ensures
            t == self.counters(),
    {
        self.telemetry
    }

    /// Where the row of a node starts in the file.
    fn row_start(&self, node: NodeId) -> (at: usize)
        requires
            self.wf(),
            node < self@.num_nodes,
        ensures
            at == self.layout.start + node * self@.row_bytes(),
            at + self@.row_bytes() <= self.data@.len(),
            row_at(self.data@, self@.dtype, at as int, self@.feature_dim) == self@.row(node as int),
    {
        let size: usize = self.layout.dtype.element_size();
        let len: usize = self.data.len();
        let ghost rb = self@.row_bytes();
        proof {
            assert(0 <= rb) by (nonlinear_arith)
                requires
                    rb == self.layout.feature_dim * self.layout.dtype.size(),
                    self.layout.dtype.size() > 0,
            ;
            lemma_row_inside(node as int, self.layout.num_nodes as int, rb);
            lemma_row_in_payload(
                self.data@,
                self.layout.start as int,
                self.layout.start + self.layout.payload_len(),
                self.layout.dtype,
                node * rb,
                self.layout.feature_dim as nat,
            );
            assert(rb <= self.layout.num_nodes * rb) by (nonlinear_arith)
                requires
                    0 <= rb,
                    1 <= self.layout.num_nodes,
            ;
        }
        let row_bytes: usize = self.layout.feature_dim * size;
        self.layout.start + node as usize * row_bytes
    }

    /// Reads the clock, if telemetry is kept.
    fn started(&self) -> (start: Option<std::time::Instant>)
        ensures
            start is Some <==> self.counters() is Some,
    {
        if self.telemetry.is_some() {
            Some(clock_now())
        } else {
            None
        }
    }

    /// Gets the features of a single node, and counts the read if telemetry is
    /// kept. Half-precision rows are refused: they are not stored in the form that
    /// is handed out.
    pub fn get(&mut self, node: NodeId) -> (r: Result<Vec<u32>, FeatureError>)
        requires
            old(self).wf(),
        ensures
            final(self).wf(),
            final(self)@ == old(self)@,
            match r {
                Ok(row) => {
                    &&& old(self)@.dtype == FeatureDtype::F32
                    &&& node < old(self)@.num_nodes
                    &&& row@ == old(self)@.row(node as int)
                    &&& exists|ns: u64|
                        final(self).counters() == #[trigger] counted_get(
                            old(self).counters(),
                            old(self)@.feature_dim as u64,
                            ns,
                        )
                },
                Err(e) => {
                    &&& final(self).counters() == old(self).counters()
                    &&& if old(self)@.dtype != FeatureDtype::F32 {
                        e == FeatureError::HalfPrecisionRow
                    } else {
                        node >= old(self)@.num_nodes && e == (FeatureError::NodeOutOfBounds {
                            node,
                            num_nodes: old(self)@.num_nodes as usize,
                        })
                    }
                },
            },
    {
        let start = self.started();
        let row = match self.read_row(node) {
            Ok(row) => row,
            Err(e) => {
                return Err(e);
            },
        };
        let ns: u64 = match &start {
            Some(start) => clock_elapsed(start),
            None => 0,
        };
        self.record_get(ns);
        assert(self.counters() == counted_get(
            old(self).counters(),
            old(self)@.feature_dim as u64,
            ns,
        ));
        Ok(row)
    }

    /// Decodes the features of a single node.
    fn read_row(&self, node: NodeId) -> (r: Result<Vec<u32>, FeatureError>)
        requires
            self.wf(),
        ensures
            match r {
                Ok(row) => self@.dtype == FeatureDtype::F32 && node < self@.num_nodes && row@
                    == self@.row(node as int),
                Err(e) => if self@.dtype != FeatureDtype::F32 {
                    e == FeatureError::HalfPrecisionRow
                } else {
                    node >= self@.num_nodes && e == (FeatureError::NodeOutOfBounds {
                        node,
                        num_nodes: self@.num_nodes as usize,
                    })
                },
            },
    {
        if self.layout.dtype != FeatureDtype::F32 {
            return Err(FeatureError::HalfPrecisionRow);
        }
        if node as usize >= self.layout.num_nodes {
            return Err(
                FeatureError::NodeOutOfBounds { node, num_nodes: self.layout.num_nodes },
            );
        }
        let at = self.row_start(node);
        let mut row: Vec<u32> = Vec::with_capacity(self.layout.feature_dim);
        self.layout.dtype.push_row(self.data.as_slice(), at, self.layout.feature_dim, &mut row);
        assert(row@ =~= self@.row(node as int));
        Ok(row)
    }

    /// Decodes the features of a single node into the start of a buffer.
    pub fn get_into(&self, node: NodeId, out: &mut [u32]) -> (r: Result<(), FeatureError>)
        requires
            self.wf(),
        ensures
            match r {
                Ok(_) => {
                    &&& node < self@.num_nodes
                    &&& old(out)@.len() >= self@.feature_dim
                    &&& final(out)@ == placed(old(out)@, 0, self@.row(node as int))
                },
                Err(e) => {
                    &&& final(out)@ == old(out)@
                    &&& if node >= self@.num_nodes {
                        e == (FeatureError::NodeOutOfBounds {
                            node,
                            num_nodes: self@.num_nodes as usize,
                        })
                    } else {
                        old(out)@.len() < self@.feature_dim && e == (FeatureError::BufferTooSmall {
                            len: old(out)@.len() as usize,
                            required: self@.feature_dim as usize,
                        })
                    }
                },
            },
    {
        if node as usize >= self.layout.num_nodes {
            return Err(
                FeatureError::NodeOutOfBounds { node, num_nodes: self.layout.num_nodes },
            );
        }
        let dim = self.layout.feature_dim;
        if out.len() < dim {
            return Err(FeatureError::BufferTooSmall { len: out.len(), required: dim });
        }
        let at = self.row_start(node);
        self.layout.dtype.decode_row(self.data.as_slice(), at, dim, out, 0);
        Ok(())
    }

    /// Gets the features of several nodes, row after row, and counts the read if
    /// telemetry is kept.
    pub fn get_batch<T: AsNodeId>(&mut self, nodes: &[T]) -> (r: Result<Vec<u32>, FeatureError>)
        requires
            old(self).wf(),
        ensures
            final(self).wf(),
            final(self)@ == old(self)@,
            match r {
                Ok(rows) => {
                    &&& all_named(nodes@)
                    &&& old(self)@.has_all(ids_of(nodes@))
                    &&& rows@ == old(self)@.rows(ids_of(nodes@))
                    &&& exists|ns: u64|
                        final(self).counters() == #[trigger] counted_batch(
                            old(self).counters(),
                            nodes@.len() as u64,
                            (nodes@.len() * old(self)@.feature_dim) as u64,
                            ns,
                        )
                },
                Err(e) => {
                    &&& final(self).counters() == old(self).counters()
                    &&& exists|i: int| #[trigger]
                        first_unreadable(old(self)@, nodes@, i) && e == (match named(
                            nodes@[i].number(),
                        ) {
                            Some(node) => FeatureError::BatchNodeOutOfBounds { node },
                            None => FeatureError::InvalidNodeId,
                        })
                },
            },
    {
        let start = self.started();
        let rows = match self.read_rows(nodes) {
            Ok(rows) => rows,
            Err(e) => {
                return Err(e);
            },
        };
        let ns: u64 = match &start {
            Some(start) => clock_elapsed(start),
            None => 0,
        };
        proof {
            lemma_rows_len(self@, ids_of(nodes@));
        }
        assert(rows.len() <= usize::MAX);
        self.record_batch(nodes.len(), ns);
        assert(self.counters() == counted_batch(
            old(self).counters(),
            nodes@.len() as u64,
            (nodes@.len() * old(self)@.feature_dim) as u64,
            ns,
        ));
        Ok(rows)
    }

    /// Decodes the features of several nodes, row after row.
    fn read_rows<T: AsNodeId>(&self, nodes: &[T]) -> (r: Result<Vec<u32>, FeatureError>)
        requires
            self.wf(),
        ensures
            match r {
                Ok(rows) => {
                    &&& all_named(nodes@)
                    &&& self@.has_all(ids_of(nodes@))
                    &&& rows@ == self@.rows(ids_of(nodes@))
                },
                Err(e) => exists|i: int| #[trigger]
                    first_unreadable(self@, nodes@, i) && e == (match named(nodes@[i].number()) {
                        Some(node) => FeatureError::BatchNodeOutOfBounds { node },
                        None => FeatureError::InvalidNodeId,
                    }),
            },
    {
        let ghost ids = ids_of(nodes@);
        let mut rows: Vec<u32> = Vec::new();
        let mut i: usize = 0;
        assert(ids.take(0) =~= Seq::empty());
        while i < nodes.len()
            invariant
                i <= nodes@.len(),
                self.wf(),
                ids == ids_of(nodes@),
                forall|k: int| 0 <= k < i ==> readable(self@, #[trigger] nodes@[k]),
                rows@ == self@.rows(ids.take(i as int)),
            decreases nodes@.len() - i,
        {
            let node: NodeId = match nodes[i].as_node_id() {
                Some(node) => node,
                None => {
                    assert(first_unreadable(self@, nodes@, i as int));
                    return Err(FeatureError::InvalidNodeId);
                },
            };
            if node as usize >= self.layout.num_nodes {
                assert(first_unreadable(self@, nodes@, i as int));
                return Err(FeatureError::BatchNodeOutOfBounds { node });
            }
            let at = self.row_start(node);
            self.layout.dtype.push_row(self.data.as_slice(), at, self.layout.feature_dim, &mut rows);
            assert(ids.take(i + 1).drop_last() =~= ids.take(i as int));
            assert(ids[i as int] == node);
            i += 1;
        }
        proof {
            assert(ids.take(i as int) =~= ids);
            assert forall|k: int| 0 <= k < ids.len() implies (#[trigger] ids[k])
                < self@.num_nodes by {
                assert(readable(self@, nodes@[k]));
            }
        }
        Ok(rows)
    }

    /// Gathers the features of several nodes into the start of a buffer, row
    /// after row, and counts the read if telemetry is kept. Where a node does not
    /// exist, the rows of the nodes before it have been written.
    pub fn get_batch_into(&mut self, nodes: &[NodeId], out: &mut [u32]) -> (r: Result<
        (),
        FeatureError,
    >)
        requires
            old(self).wf(),
        ensures
            final(self).wf(),
            final(self)@ == old(self)@,
            final(out)@.len() == old(out)@.len(),
            match r {
                Ok(_) => {
                    &&& old(self)@.has_all(nodes@)
                    &&& nodes@.len() * old(self)@.feature_dim <= old(out)@.len()
                    &&& final(out)@ == placed(old(out)@, 0, old(self)@.rows(nodes@))
                    &&& exists|ns: u64|
                        final(self).counters() == #[trigger] counted_batch(
                            old(self).counters(),
                            nodes@.len() as u64,
                            (nodes@.len() * old(self)@.feature_dim) as u64,
                            ns,
                        )
                },
                Err(e) => {
                    &&& final(self).counters() == old(self).counters()
                    &&& if nodes@.len() * old(self)@.feature_dim > usize::MAX {
                        e == FeatureError::BatchOverflow && final(out)@ == old(out)@
                    } else if old(out)@.len() < nodes@.len() * old(self)@.feature_dim {
                        e == (FeatureError::BufferTooSmall {
                            len: old(out)@.len() as usize,
                            required: (nodes@.len() * old(self)@.feature_dim) as usize,
                        }) && final(out)@ == old(out)@
                    } else {
                        exists|i: int| #[trigger]
                            old(self)@.first_missing(nodes@, i) && e
                                == (FeatureError::NodeOutOfBounds {
                                node: nodes@[i],
                                num_nodes: old(self)@.num_nodes as usize,
                            }) && final(out)@ == placed(
                                old(out)@,
                                0,
                                old(self)@.rows(nodes@.take(i)),
                            )
                    }
                },
            },
    {
        let start = self.started();
        match self.read_rows_into(nodes, out) {
            Ok(_) => {},
            Err(e) => {
                return Err(e);
            },
        }
        let ns: u64 = match &start {
            Some(start) => clock_elapsed(start),
            None => 0,
        };
        assert(out.len() <= usize::MAX);
        self.record_batch(nodes.len(), ns);
        assert(self.counters() == counted_batch(
            old(self).counters(),
            nodes@.len() as u64,
            (nodes@.len() * old(self)@.feature_dim) as u64,
            ns,
        ));
        Ok(())
    }

    /// Decodes the features of several nodes into the start of a buffer.
    fn read_rows_into(&self, nodes: &[NodeId], out: &mut [u32]) -> (r: Result<(), FeatureError>)
        requires
            self.wf(),
        ensures
            final(out)@.len() == old(out)@.len(),
            match r {
                Ok(_) => {
                    &&& self@.has_all(nodes@)
                    &&& nodes@.len() * self@.feature_dim <= old(out)@.len()
                    &&& final(out)@ == placed(old(out)@, 0, self@.rows(nodes@))
                },
                Err(e) => if nodes@.len() * self@.feature_dim > usize::MAX {
                    e == FeatureError::BatchOverflow && final(out)@ == old(out)@
                } else if old(out)@.len() < nodes@.len() * self@.feature_dim {
                    e == (FeatureError::BufferTooSmall {
                        len: old(out)@.len() as usize,
                        required: (nodes@.len() * self@.feature_dim) as usize,
                    }) && final(out)@ == old(out)@
                } else {
                    exists|i: int| #[trigger]
                        self@.first_missing(nodes@, i) && e == (FeatureError::NodeOutOfBounds {
                            node: nodes@[i],
                            num_nodes: self@.num_nodes as usize,
                        }) && final(out)@ == placed(old(out)@, 0, self@.rows(nodes@.take(i)))
                },
            },
    {
        let dim = self.layout.feature_dim;
        let count: usize = nodes.len();
        let total: usize = match count.checked_mul(dim) {
            Some(n) => n,
            None => {
                return Err(FeatureError::BatchOverflow);
            },
        };
        if out.len() < total {
            return Err(FeatureError::BufferTooSmall { len: out.len(), required: total });
        }
        let mut at_row: usize = 0;
        let mut i: usize = 0;
        assert(nodes@.take(0) =~= Seq::empty());
        assert(out@ =~= placed(old(out)@, 0, self@.rows(nodes@.take(0))));
        while i < count
            invariant
                i <= count == nodes@.len(),
                self.wf(),
                dim == self@.feature_dim,
                total == count * dim,
                total <= out@.len() == old(out)@.len(),
                at_row == i * dim == self@.rows(nodes@.take(i as int)).len(),
                forall|k: int| 0 <= k < i ==> (#[trigger] nodes@[k]) < self@.num_nodes,
                out@ == placed(old(out)@, 0, self@.rows(nodes@.take(i as int))),
            decreases count - i,
        {
            let node = nodes[i];
            if node as usize >= self.layout.num_nodes {
                assert(self@.first_missing(nodes@, i as int));
                return Err(
                    FeatureError::NodeOutOfBounds { node, num_nodes: self.layout.num_nodes },
                );
            }
            proof {
                lemma_row_inside(i as int, count as int, dim as int);
                assert((i + 1) * dim == i * dim + dim) by (nonlinear_arith);
                assert(nodes@.take(i + 1).drop_last() =~= nodes@.take(i as int));
            }
            let ghost before = out@;
            let ghost done = self@.rows(nodes@.take(i as int));
            let start = self.row_start(node);
            self.layout.dtype.decode_row(self.data.as_slice(), start, dim, out, at_row);
            assert(out@ =~= placed(old(out)@, 0, done + self@.row(node as int)));
            at_row += dim;
            i += 1;
        }
        assert(nodes@.take(i as int) =~= nodes@);
        Ok(())
    }

    /// Gets all features. Half-precision stores are refused: their payload is
    /// not in the form that is handed out.
    pub fn features(&self) -> (r: Result<Vec<u32>, FeatureError>)
        requires
            self.wf(),
        ensures
            match r {
                Ok(v) => self@.dtype == FeatureDtype::F32 && v@ == row_at(
                    self@.payload,
                    FeatureDtype::F32,
                    0,
                    (self@.num_nodes * self@.feature_dim) as nat,
                ),
                Err(e) => self@.dtype != FeatureDtype::F32 && e
                    == FeatureError::HalfPrecisionPayload,
            },
    {
        if self.layout.dtype != FeatureDtype::F32 {
            return Err(FeatureError::HalfPrecisionPayload);
        }
        let len: usize = self.data.len();
        let ghost n = self.layout.num_nodes as int;
        let ghost d = self.layout.feature_dim as int;
        proof {
            assert(n * (d * 4) == (n * d) * 4) by (nonlinear_arith);
            assert(0 <= n * d) by (nonlinear_arith)
                requires
                    0 <= n,
                    0 <= d,
            ;
            lemma_row_in_payload(
                self.data@,
                self.layout.start as int,
                self.layout.start + self.layout.payload_len(),
                FeatureDtype::F32,
                0,
                (n * d) as nat,
            );
        }
        let total: usize = self.layout.num_nodes * self.layout.feature_dim;
        let mut v: Vec<u32> = Vec::with_capacity(total);
        FeatureDtype::F32.push_row(self.data.as_slice(), self.layout.start, total, &mut v);
        assert(v@ =~= row_at(self@.payload, FeatureDtype::F32, 0, (n * d) as nat));
        Ok(v)
    }

    /// Counts a single-node read that took `ns`, if telemetry is kept.
    pub fn record_get(&mut self, ns: u64)
        requires
            old(self).wf(),
        ensures
            final(self).wf(),
            final(self)@ == old(self)@,
            final(self).counters() == counted_get(
                old(self).counters(),
                old(self)@.feature_dim as u64,
                ns,
            ),
    {
        let mut t = self.telemetry;
        if let Some(counters) = &mut t {
            counters.record_get(self.layout.feature_dim as u64, ns);
        }
        self.telemetry = t;
    }

    /// Counts a batch read of `nodes` nodes that took `ns`, if telemetry is
    /// kept.
    pub fn record_batch(&mut self, nodes: usize, ns: u64)
        requires
            old(self).wf(),
            nodes * old(self)@.feature_dim <= usize::MAX,
        ensures
            final(self).wf(),
            final(self)@ == old(self)@,
            final(self).counters() == counted_batch(
                old(self).counters(),
                nodes as u64,
                (nodes * old(self)@.feature_dim) as u64,
                ns,
            ),
    {
        let features: usize = nodes * self.layout.feature_dim;
        let mut t = self.telemetry;
        if let Some(counters) = &mut t {
            counters.record_batch(nodes as u64, features as u64, ns);
        }
        self.telemetry = t;
    }
}

impl NodeFeatureSource for FeatureStore {
    open spec fn ready(&self) -> bool {
        self.wf()
    }

    open spec fn width(&self) -> nat {
        self@.feature_dim
    }

    open spec fn node_row(&self, node: NodeId) -> Option<Seq<u32>> {
        if node < self@.num_nodes {
            Some(self@.row(node as int))
        } else {
            None
        }
    }

    open spec fn takes(&self, len: nat) -> bool {
        len >= self@.feature_dim
    }

    fn feature_dim(&self) -> usize {
        self.layout.feature_dim
    }

    fn read_node(&self, node: NodeId, out: &mut [u32]) -> bool {
        self.get_into(node, out).is_ok()
    }
}

/// A feature file is accepted as a store exactly if its header is whole, has the
/// magic number, claims no more than 10,000,000,000 nodes and 100,000 dimensions,
/// places the payload behind itself, inside the file and at a multiple of four,
/// has a known element type, and the payload that it claims is all there.
pub proof fn law_store_is_accepted_when(b: Seq<u8>)
    requires
        b.len() <= usize::MAX,
    ensures
        ({
            let nodes = le8(b, 8);
            let dim = le8(b, 16);
            let start = le8(b, 24);
            let size = if b[32] == 0 {
                4int
            } else {
                2int
            };
            let r = store_layout(b);
            &&& r is Ok <==> {
                &&& b.len() >= 32
                &&& le8(b, 0) == 0x5441_4546_4854_4541
                &&& nodes <= 10_000_000_000
                &&& dim <= 100_000
                &&& 32 < start <= b.len()
                &&& start % 4 == 0
                &&& b[32] <= 1
                &&& start + nodes * (dim * size) <= b.len()
                &&& nodes <= usize::MAX
            }
            &&& r matches Ok(l) ==> {
                &&& l.num_nodes == nodes
                &&& l.feature_dim == dim
                &&& l.start == start
                &&& l.dtype == (if b[32] == 0 {
                    FeatureDtype::F32
                } else {
                    FeatureDtype::F16
                })
            }
            &&& b.len() < 32 <==> (r matches Err(FeatureError::TooSmall { len }) && len == b.len())
            &&& b.len() >= 32 && le8(b, 0) != 0x5441_4546_4854_4541 <==> r == Err::<
                StoreLayout,
                FeatureError,
            >(FeatureError::BadMagic)
        }),
{
    assert(0 <= le4(b, 8) <= u32::MAX && 0 <= le4(b, 12) <= u32::MAX);
    assert(0 <= le4(b, 16) <= u32::MAX && 0 <= le4(b, 20) <= u32::MAX);
    assert(0 <= le4(b, 24) <= u32::MAX && 0 <= le4(b, 28) <= u32::MAX);
}

/// The rows of a store stand one behind the other in the payload, and the payload
/// where the header places it: value `j` of node `i` is element `i * dim + j`.
pub proof fn law_store_rows_are_the_payload(b: Seq<u8>, l: StoreLayout, node: int, j: int)
    requires
        0 <= node < l.num_nodes,
        0 <= j < l.feature_dim,
        l.start + l.num_nodes * (l.feature_dim * l.dtype.size()) <= b.len(),
    ensures
        ({
            let v = rows_of(b, l);
            let element = node * l.feature_dim + j;
            &&& v.num_nodes == l.num_nodes
            &&& v.feature_dim == l.feature_dim
            &&& v.dtype == l.dtype
            &&& v.row(node).len() == l.feature_dim
            &&& l.dtype is F32 ==> v.row(node)[j] == le4(b, l.start + 4 * element)
            &&& l.dtype is F16 ==> v.row(node)[j] == widened(
                le2(b, l.start + 2 * element) as u16,
            ) as u32
        }),
{
    let v = rows_of(b, l);
    let size = l.dtype.size();
    let row = l.feature_dim * size;
    let at = node * row + j * size;
    lemma_row_inside(node, l.num_nodes as int, row);
    assert(0 <= at && at + size <= l.num_nodes * row) by (nonlinear_arith)
        requires
            0 <= node * row,
            node * row + row <= l.num_nodes * row,
            at == node * row + j * size,
            row == l.feature_dim * size,
            0 <= j < l.feature_dim,
            size > 0,
    ;
    assert(at == size * (node * l.feature_dim + j)) by (nonlinear_arith)
        requires
            at == node * row + j * size,
            row == l.feature_dim * size,
    ;
    assert(v.payload[at + 0] == b[l.start + at + 0]);
    assert(v.payload[at + 1] == b[l.start + at + 1]);
    if l.dtype is F32 {
        assert(v.payload[at + 2] == b[l.start + at + 2]);
        assert(v.payload[at + 3] == b[l.start + at + 3]);
        assert(0 <= le4(b, l.start + at) <= u32::MAX);
    }
}

/// The rows of several nodes stand one behind the other in the order of the
/// nodes.
pub proof fn law_gathered_rows_keep_the_order(v: StoreView, nodes: Seq<u32>, i: int)
    requires
        0 <= i < nodes.len(),
    ensures
        v.rows(nodes).len() == nodes.len() * v.feature_dim,
        0 <= i * v.feature_dim <= i * v.feature_dim + v.feature_dim <= v.rows(nodes).len(),
        v.rows(nodes).subrange(i * v.feature_dim, i * v.feature_dim + v.feature_dim) == v.row(
            nodes[i] as int,
        ),
    decreases nodes.len(),
{
    let d = v.feature_dim as int;
    let prev = nodes.drop_last();
    lemma_rows_len(v, nodes);
    lemma_rows_len(v, prev);
    assert(nodes.len() * d == prev.len() * d + d) by (nonlinear_arith)
        requires
            nodes.len() == prev.len() + 1,
    ;
    if i < prev.len() {
        law_gathered_rows_keep_the_order(v, prev, i);
        assert(v.rows(nodes).subrange(i * d, i * d + d) =~= v.rows(prev).subrange(i * d, i * d + d));
    } else {
        assert(0 <= i * d) by (nonlinear_arith)
            requires
                0 <= i,
                0 <= d,
        ;
        assert(v.rows(nodes).subrange(i * d, i * d + d) =~= v.row(nodes[i] as int));
    }
}

/// A batch fails at the first id that is no node number or no node of the store.
pub proof fn law_batches_fail_at_the_first_stranger<T: AsNodeId>(
    v: StoreView,
    nodes: Seq<T>,
    i: int,
)
    requires
        v.num_nodes <= u32::MAX,
    ensures
        first_unreadable(v, nodes, i) <==> {
            &&& 0 <= i < nodes.len()
            &&& !(0 <= nodes[i].number() < v.num_nodes)
            &&& forall|k: int|
                0 <= k < i ==> 0 <= (#[trigger] nodes[k]).number() < v.num_nodes
        },
        all_named(nodes) <==> forall|k: int|
            0 <= k < nodes.len() ==> 0 <= (#[trigger] nodes[k]).number() <= u32::MAX,
        0 <= i < nodes.len() && 0 <= nodes[i].number() <= u32::MAX ==> ids_of(nodes)[i]
            == nodes[i].number(),
        ids_of(nodes).len() == nodes.len(),
{
    if first_unreadable(v, nodes, i) {
        assert forall|k: int| 0 <= k < i implies 0 <= (#[trigger] nodes[k]).number()
            < v.num_nodes by {
            assert(readable(v, nodes[k]));
        }
    }
    if all_named(nodes) {
        assert forall|k: int| 0 <= k < nodes.len() implies 0 <= (#[trigger] nodes[k]).number()
            <= u32::MAX by {
            assert(named(nodes[k].number()) is Some);
        }
    }
}

/// What a refused feature file is told: too many nodes, then too many dimensions,
/// then a payload inside the header, then one beyond the file, then one at no
/// multiple of four, then an unknown element type, then a payload that is cut
/// short, each with the numbers it is about.
pub proof fn law_store_refusals(b: Seq<u8>)
    requires
        b.len() <= usize::MAX,
        b.len() >= 32,
        le8(b, 0) == 0x5441_4546_4854_4541,
    ensures
        ({
            let nodes = le8(b, 8);
            let dim = le8(b, 16);
            let start = le8(b, 24);
            let size = if b[32] == 0 {
                4int
            } else {
                2int
            };
            let bytes = nodes * (dim * size);
            let counted = nodes <= 10_000_000_000 && dim <= 100_000;
            let placed = counted && start > 32 && start <= b.len() && start % 4 == 0;
            let typed = placed && b[32] <= 1;
            let r = store_layout(b);
            &&& nodes > 10_000_000_000 <==> (r matches Err(FeatureError::TooManyNodes { nodes: n })
                && n == nodes)
            &&& nodes <= 10_000_000_000 && dim > 100_000 <==> (r matches Err(
                FeatureError::TooManyDims { dim: d },
            ) && d == dim)
            &&& counted && start <= 32 <==> (r matches Err(FeatureError::OffsetInHeader { offset })
                && offset == start)
            &&& counted && start > 32 && start > b.len() <==> (r matches Err(
                FeatureError::OffsetBeyondFile { offset, len },
            ) && offset == start && len == b.len())
            &&& counted && start > 32 && start <= b.len() && start % 4 != 0 <==> (r matches Err(
                FeatureError::OffsetUnaligned { offset },
            ) && offset == start)
            &&& placed && b[32] > 1 <==> (r matches Err(FeatureError::UnknownDtype { tag }) && tag
                == b[32])
            &&& typed && b.len() - start < bytes <==> (r matches Err(
                FeatureError::PayloadTruncated { required, len },
            ) && required == bytes && len == b.len() - start)
        }),
{
    assert(0 <= le4(b, 8) <= u32::MAX && 0 <= le4(b, 12) <= u32::MAX);
    assert(0 <= le4(b, 16) <= u32::MAX && 0 <= le4(b, 20) <= u32::MAX);
    assert(0 <= le4(b, 24) <= u32::MAX && 0 <= le4(b, 28) <= u32::MAX);
    let nodes = le8(b, 8);
    let dim = le8(b, 16);
    let size = if b[32] == 0 {
        4int
    } else {
        2int
    };
    if nodes <= 10_000_000_000 && dim <= 100_000 {
        lemma_payload_fits(nodes, dim, size);
    }
}

/// The first missing node of a list is the first that the store does not have;
/// there is none exactly if it has all.
pub proof fn law_first_missing_node(v: StoreView, nodes: Seq<u32>, i: int)
    ensures
        v.first_missing(nodes, i) <==> {
            &&& 0 <= i < nodes.len()
            &&& nodes[i] >= v.num_nodes
            &&& forall|k: int| 0 <= k < i ==> (#[trigger] nodes[k]) < v.num_nodes
        },
        v.first_missing(nodes, i) ==> !v.has_all(nodes),
        v.has_all(nodes) && 0 <= i < nodes.len() ==> nodes[i] < v.num_nodes,
{
}

} // verus!
