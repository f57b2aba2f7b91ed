//! Planning feature reads that go from storage to device memory.
//!
//! A batch is read with one transfer per node. Transfers are ordered by node, so
//! that file positions ascend, and each lands where its node stands in the batch.
use vstd::prelude::*;
use vstd::string::StringExecFns;
use crate::graph::csr::NodeId;
use crate::sorting::{lemma_same_values, sort_u64s};
use crate::text::{
    decimal, label, label_pair, lemma_tells_four, lemma_tells_three, lemma_tells_two, push_decimal,
    push_signed, signed, tells,
};
use super::error::FeatureError;
use super::header::{
    feature_header_of, lemma_payload_fits, lemma_row_inside, parse_feature_header, FeatureDtype,
};

verus! {

/// Batches smaller than this are read with single calls.
pub const BATCH_API_THRESHOLD: usize = 8;

/// Completion status of a transfer that is done.
pub const BATCH_COMPLETE: i32 = 2;

/// Why a batch could not be read to the device.
#[derive(Debug, Clone, Copy, PartialEq, Eq, Structural)]
pub enum GdsError {
    /// The feature file is not valid.
    Header { cause: FeatureError },
    /// The largest batch has more bytes than the machine can count.
    BufferOverflow,
    /// The device buffer has no room for the largest batch.
    BufferTooSmall { required: usize, nodes: usize, row_bytes: usize, have: usize },
    /// The batch is larger than the store was opened for.
    BatchTooLarge { len: usize, max: usize },
    /// The batch does not fit at the offset.
    BatchBeyondBuffer { len: usize, offset: usize, have: usize },
    /// The node does not exist.
    NodeOutOfBounds { node: u32, num_nodes: usize },
    /// A transfer of a batch is not done.
    NotComplete { entry: usize, status: i32 },
    /// A transfer of a batch brought too little.
    ShortEntry { entry: usize, expected: usize, got: i64 },
    /// A single read failed.
    ReadFailed { node: u32, code: i64 },
    /// A single read brought too little.
    ShortRead { node: u32, expected: usize, got: u64 },
}

impl GdsError {
    /// The text of the message.
    pub open spec fn text(self) -> Seq<char> {
        match self {
            GdsError::Header { cause } => cause.text(),
            GdsError::BufferOverflow => "GPU buffer size overflow"@,
            GdsError::BufferTooSmall { required, nodes, row_bytes, have } =>
                "GPU buffer too small: need "@ + decimal(required as nat) + " bytes for "@
                + decimal(nodes as nat) + " nodes * "@ + decimal(row_bytes as nat)
                + " feature bytes, have "@ + decimal(have as nat),
            GdsError::BatchTooLarge { len, max } => "batch size "@ + decimal(len as nat)
                + " exceeds max "@ + decimal(max as nat),
            GdsError::BatchBeyondBuffer { len, offset, have } => "batch of "@ + decimal(len as nat)
                + " nodes at offset "@ + decimal(offset as nat) + " exceeds GPU buffer ("@
                + decimal(have as nat) + " bytes)"@,
            GdsError::NodeOutOfBounds { node, num_nodes } => "node "@ + decimal(node as nat)
                + " out of bounds (max "@ + decimal(num_nodes as nat) + ")"@,
            GdsError::NotComplete { entry, status } => "GDS batch entry "@ + decimal(entry as nat)
                + " not complete (status="@ + signed(status as int) + ")"@,
            GdsError::ShortEntry { entry, expected, got } => "GDS batch entry "@ + decimal(
                entry as nat,
            ) + " short read: expected "@ + decimal(expected as nat) + " bytes, got "@ + signed(
                got as int,
            ),
            GdsError::ReadFailed { node, code } => "cuFileRead failed for node "@ + decimal(
                node as nat,
            ) + ": returned "@ + signed(code as int),
            GdsError::ShortRead { node, expected, got } => "cuFileRead short read for node "@
                + decimal(node as nat) + ": expected "@ + decimal(expected as nat)
                + " bytes, got "@ + decimal(got as nat),
        }
    }

    /// Describes the error.
    pub fn message(&self) -> (s: String)
        ensures
            s@ == self.text(),
    {
        match *self {
            GdsError::Header { cause } => cause.message(),
            GdsError::BufferOverflow => String::from_str("GPU buffer size overflow"),
            GdsError::BufferTooSmall { required, nodes, row_bytes, have } => {
                let mut s = label_pair(
                    "GPU buffer too small: need ",
                    required as u64,
                    " bytes for ",
                    nodes as u64,
                );
                s.append(" nodes * ");
                push_decimal(&mut s, row_bytes as u64);
                s.append(" feature bytes, have ");
                push_decimal(&mut s, have as u64);
                s
            },
            GdsError::BatchTooLarge { len, max } => label_pair(
                "batch size ",
                len as u64,
                " exceeds max ",
                max as u64,
            ),
            GdsError::BatchBeyondBuffer { len, offset, have } => {
                let mut s = label_pair(
                    "batch of ",
                    len as u64,
                    " nodes at offset ",
                    offset as u64,
                );
                s.append(" exceeds GPU buffer (");
                push_decimal(&mut s, have as u64);
                s.append(" bytes)");
                s
            },
            GdsError::NodeOutOfBounds { node, num_nodes } => {
                let mut s = label_pair(
                    "node ",
                    node as u64,
                    " out of bounds (max ",
                    num_nodes as u64,
                );
                s.append(")");
                s
            },
            GdsError::NotComplete { entry, status } => {
                let mut s = label("GDS batch entry ", entry as u64);
                s.append(" not complete (status=");
                push_signed(&mut s, status as i64);
                s.append(")");
                s
            },
            GdsError::ShortEntry { entry, expected, got } => {
                let mut s = label_pair(
                    "GDS batch entry ",
                    entry as u64,
                    " short read: expected ",
                    expected as u64,
                );
                s.append(" bytes, got ");
                push_signed(&mut s, got);
                s
            },
            GdsError::ReadFailed { node, code } => {
                let mut s = label("cuFileRead failed for node ", node as u64);
                s.append(": returned ");
                push_signed(&mut s, code);
                s
            },
            GdsError::ShortRead { node, expected, got } => {
                let mut s = label_pair(
                    "cuFileRead short read for node ",
                    node as u64,
                    ": expected ",
                    expected as u64,
                );
                s.append(" bytes, got ");
                push_decimal(&mut s, got);
                s
            },
        }
    }
}

/// One transfer: the node, its place in the batch, where its row starts in the
/// file, and where it lands in the device buffer.
#[derive(Debug, Clone, Copy, PartialEq, Eq, Structural)]
pub struct GdsRead {
    pub node: NodeId,
    pub place: usize,
    pub file_offset: u64,
    pub dev_offset: usize,
    pub size: usize,
}

/// What came of a transfer of a batch.
#[derive(Debug, Clone, Copy, PartialEq, Eq, Structural)]
pub struct GdsStatus {
    pub status: i32,
    pub bytes_done: i64,
}

/// Where a batch was read to.
#[derive(Debug, Clone, Copy, PartialEq, Eq, Structural)]
pub struct GdsReadResult {
    /// Device address of the first row.
    pub device_ptr: u64,
    /// Number of rows.
    pub num_nodes: usize,
    /// Values per row.
    pub feature_dim: usize,
    /// Element type of the rows.
    pub dtype: FeatureDtype,
}

/// Geometry of a file and of a device buffer.
#[derive(Debug, Clone, Copy, PartialEq, Eq, Structural)]
pub struct GdsView {
    pub num_nodes: usize,
    pub feature_dim: usize,
    pub start: u64,
    pub dtype: FeatureDtype,
    pub device_ptr: u64,
    pub gpu_buffer_size: usize,
    pub max_batch_size: usize,
}

impl GdsView {
    /// Bytes of a row.
    pub open spec fn row_len(self) -> int {
        self.feature_dim * self.dtype.size()
    }

    /// All rows are at file positions, and the largest batch fits the buffer.
    pub open spec fn wf(self) -> bool {
        &&& 0 <= self.row_len() <= 400_000
        &&& self.start + self.num_nodes * self.row_len() <= u64::MAX
        &&& self.max_batch_size * self.row_len() <= self.gpu_buffer_size
    }

    /// The node exists for every place of the batch.
    pub open spec fn has_all(self, nodes: Seq<u32>) -> bool {
        forall|i: int| 0 <= i < nodes.len() ==> (#[trigger] nodes[i]) < self.num_nodes
    }

    /// The first place of the batch whose node does not exist.
    pub open spec fn first_missing(self, nodes: Seq<u32>, i: int) -> bool {
        &&& 0 <= i < nodes.len()
        &&& nodes[i] >= self.num_nodes
        &&& forall|k: int| 0 <= k < i ==> (#[trigger] nodes[k]) < self.num_nodes
    }

    /// The transfer of the batch's place `i`.
    pub open spec fn read_of(self, nodes: Seq<u32>, base: int, i: int) -> GdsRead {
        GdsRead {
            node: nodes[i],
            place: i as usize,
            file_offset: (self.start + nodes[i] * self.row_len()) as u64,
            dev_offset: (base + i * self.row_len()) as usize,
            size: self.row_len() as usize,
        }
    }

    /// The transfers of a batch: one for each place, ordered by node and, for one
    /// node, by place.
    pub open spec fn plans(self, nodes: Seq<u32>, base: int, reads: Seq<GdsRead>) -> bool {
        &&& reads.len() == nodes.len()
        &&& forall|k: int|
            0 <= k < reads.len() ==> (#[trigger] reads[k]).place < nodes.len() && reads[k]
                == self.read_of(nodes, base, reads[k].place as int)
        &&& forall|j: int, k: int|
            0 <= j < k < reads.len() ==> comes_before(#[trigger] reads[j], #[trigger] reads[k])
    }
}

/// The order of transfers.
pub open spec fn comes_before(a: GdsRead, b: GdsRead) -> bool {
    a.node < b.node || (a.node == b.node && a.place < b.place)
}

/// Reads features from storage to a device buffer.
pub struct GdsFeatureStore {
    view: GdsView,
}

impl View for GdsFeatureStore {
    type V = GdsView;

    closed spec fn view(&self) -> GdsView {
        self.view
    }
}

impl GdsFeatureStore {
    /// All rows are at file positions, and the largest batch fits the buffer.
    pub closed spec fn wf(&self) -> bool {
        self.view.wf()
    }

    /// All rows are at file positions, and the largest batch fits the buffer.
    pub proof fn lemma_wf(&self)
        requires
            self.wf(),
        ensures
            self@.wf(),
    {
    }

    /// A store for a file of `file_size` bytes that starts with `prefix`, and a
    /// device buffer that has room for batches of `max_batch_size` nodes.
    pub fn open(
        prefix: &[u8],
        file_size: u64,
        gpu_device_ptr: u64,
        gpu_buffer_size: usize,
        max_batch_size: usize,
    ) -> (r: Result<GdsFeatureStore, GdsError>)
        ensures
            match feature_header_of(prefix@, file_size) {
                Err(cause) => r == Err::<GdsFeatureStore, GdsError>(GdsError::Header { cause }),
                Ok(h) => match r {
                    Ok(s) => {
                        &&& max_batch_size * h.feature_size <= gpu_buffer_size
                        &&& s.wf()
                        &&& s@ == (GdsView {
                            num_nodes: h.num_nodes,
                            feature_dim: h.feature_dim,
                            start: h.features_start_offset,
                            dtype: h.dtype,
                            device_ptr: gpu_device_ptr,
                            gpu_buffer_size,
                            max_batch_size,
                        })
                    },
                    Err(e) => if max_batch_size * h.feature_size > usize::MAX {
                        e == GdsError::BufferOverflow
                    } else {
                        max_batch_size * h.feature_size > gpu_buffer_size && e == (
                        GdsError::BufferTooSmall {
                            required: (max_batch_size * h.feature_size) as usize,
                            nodes: max_batch_size,
                            row_bytes: h.feature_size,
                            have: gpu_buffer_size,
                        })
                    },
                },
            },
    {
        let h = match parse_feature_header(prefix, file_size) {
            Ok(h) => h,
            Err(cause) => {
                return Err(GdsError::Header { cause });
            },
        };
        proof {
            lemma_payload_fits(h.num_nodes as int, h.feature_dim as int, h.dtype.size());
        }
        let row_bytes: usize = h.feature_size;
        let required: usize = match max_batch_size.checked_mul(row_bytes) {
            Some(n) => n,
            None => {
                return Err(GdsError::BufferOverflow);
            },
        };
        if gpu_buffer_size < required {
            return Err(
                GdsError::BufferTooSmall {
                    required,
                    nodes: max_batch_size,
                    row_bytes,
                    have: gpu_buffer_size,
                },
            );
        }
        Ok(
            GdsFeatureStore {
                view: GdsView {
                    num_nodes: h.num_nodes,
                    feature_dim: h.feature_dim,
                    start: h.features_start_offset,
                    dtype: h.dtype,
                    device_ptr: gpu_device_ptr,
                    gpu_buffer_size,
                    max_batch_size,
                },
            },
        )
    }

    /// Feature dimension.
    pub fn feature_dim(&self) -> (n: usize)
        ensures
            n == self@.feature_dim,
    {
        self.view.feature_dim
    }

    /// Number of nodes in the file.
    pub fn num_nodes(&self) -> (n: usize)
        ensures
            n == self@.num_nodes,
    {
        self.view.num_nodes
    }

    /// Element type.
    pub fn dtype(&self) -> (d: FeatureDtype)
        ensures
            d == self@.dtype,
    {
        self.view.dtype
    }

    /// Nodes of the largest batch.
    pub fn max_batch_size(&self) -> (n: usize)
        ensures
            n == self@.max_batch_size,
    {
        self.view.max_batch_size
    }

    /// Bytes of a row.
    pub fn feature_size(&self) -> (n: usize)
        requires
            self.wf(),
        ensures
            n == self@.row_len(),
    {
        self.view.feature_dim * self.view.dtype.element_size()
    }

    /// The transfers that bring a batch to the start of the device buffer, and
    /// where it will stand.
    pub fn get_batch(&self, nodes: &[NodeId]) -> (r: Result<
        (Vec<GdsRead>, GdsReadResult),
        GdsError,
    >)
        requires
            self.wf(),
            nodes@.len() <= self@.max_batch_size ==> nodes@.len() <= u32::MAX,
        ensures
            match r {
                Ok((reads, result)) => {
                    &&& nodes@.len() <= self@.max_batch_size
                    &&& self@.has_all(nodes@)
                    &&& self@.plans(nodes@, 0, reads@)
                    &&& result == (GdsReadResult {
                        device_ptr: self@.device_ptr,
                        num_nodes: nodes@.len() as usize,
                        feature_dim: self@.feature_dim,
                        dtype: self@.dtype,
                    })
                },
                Err(e) => if nodes@.len() > self@.max_batch_size {
                    e == (GdsError::BatchTooLarge {
                        len: nodes@.len() as usize,
                        max: self@.max_batch_size,
                    })
                } else {
                    exists|i: int|
                        self@.first_missing(nodes@, i) && e == (GdsError::NodeOutOfBounds {
                            node: #[trigger] nodes@[i],
                            num_nodes: self@.num_nodes,
                        })
                },
            },
    {
        let len: usize = nodes.len();
        if len > self.view.max_batch_size {
            return Err(GdsError::BatchTooLarge { len, max: self.view.max_batch_size });
        }
        proof {
            assert(len * self.view.row_len() <= self.view.max_batch_size * self.view.row_len())
                by (nonlinear_arith)
                requires
                    len <= self.view.max_batch_size,
                    0 <= self.view.row_len(),
            ;
        }
        match self.plan_nodes(nodes, 0) {
            Ok(reads) => Ok(
                (
                    reads,
                    GdsReadResult {
                        device_ptr: self.view.device_ptr,
                        num_nodes: len,
                        feature_dim: self.view.feature_dim,
                        dtype: self.view.dtype,
                    },
                ),
            ),
            Err(e) => Err(e),
        }
    }

    /// The transfers that bring a batch to `dev_offset` bytes into the device
    /// buffer.
    pub fn get_batch_into(&self, nodes: &[NodeId], dev_offset: usize) -> (r: Result<
        Vec<GdsRead>,
        GdsError,
    >)
        requires
            self.wf(),
            dev_offset + nodes@.len() * self@.row_len() <= self@.gpu_buffer_size ==> nodes@.len()
                <= u32::MAX,
        ensures
            match r {
                Ok(reads) => {
                    &&& dev_offset + nodes@.len() * self@.row_len() <= self@.gpu_buffer_size
                    &&& self@.has_all(nodes@)
                    &&& self@.plans(nodes@, dev_offset as int, reads@)
                },
                Err(e) => if dev_offset + nodes@.len() * self@.row_len() > self@.gpu_buffer_size {
                    e == (GdsError::BatchBeyondBuffer {
                        len: nodes@.len() as usize,
                        offset: dev_offset,
                        have: self@.gpu_buffer_size,
                    })
                } else {
                    exists|i: int|
                        self@.first_missing(nodes@, i) && e == (GdsError::NodeOutOfBounds {
                            node: #[trigger] nodes@[i],
                            num_nodes: self@.num_nodes,
                        })
                },
            },
    {
        let len: usize = nodes.len();
        let row: usize = self.feature_size();
        proof {
            assert(0 <= len * row <= 0xffff_ffff_ffff_ffff * 400_000) by (nonlinear_arith)
                requires
                    0 <= len <= 0xffff_ffff_ffff_ffff,
                    0 <= row <= 400_000,
            ;
        }
        let total: u128 = len as u128 * row as u128;
        if dev_offset as u128 + total > self.view.gpu_buffer_size as u128 {
            return Err(
                GdsError::BatchBeyondBuffer {
                    len,
                    offset: dev_offset,
                    have: self.view.gpu_buffer_size,
                },
            );
        }
        self.plan_nodes(nodes, dev_offset)
    }

    /// One transfer per node, ordered by node.
    fn plan_nodes(&self, nodes: &[NodeId], base: usize) -> (r: Result<Vec<GdsRead>, GdsError>)
        requires
            self.wf(),
            nodes@.len() <= u32::MAX,
            base + nodes@.len() * self@.row_len() <= usize::MAX,
        ensures
            match r {
                Ok(reads) => self@.has_all(nodes@) && self@.plans(nodes@, base as int, reads@),
                Err(e) => exists|i: int|
                    self@.first_missing(nodes@, i) && e == (GdsError::NodeOutOfBounds {
                        node: #[trigger] nodes@[i],
                        num_nodes: self@.num_nodes,
                    }),
            },
    {
        let row: usize = self.feature_size();
        let mut keys: Vec<u64> = Vec::new();
        let mut i: usize = 0;
        while i < nodes.len()
            invariant
                i <= nodes@.len() <= u32::MAX,
                keys@.len() == i,
                forall|k: int| 0 <= k < i ==> (#[trigger] nodes@[k]) < self.view.num_nodes,
                forall|k: int| 0 <= k < i ==> #[trigger] keys@[k] == key_of(nodes@, k),
            decreases nodes@.len() - i,
        {
            let node: u32 = nodes[i];
            if node as u64 >= self.view.num_nodes as u64 {
                assert(self@.first_missing(nodes@, i as int));
                assert(nodes@[i as int] == node);
                return Err(
                    GdsError::NodeOutOfBounds { node, num_nodes: self.view.num_nodes },
                );
            }
            keys.push(node as u64 * 0x1_0000_0000 + i as u64);
            i += 1;
        }
        let ghost unsorted = keys@;
        sort_u64s(&mut keys);
        proof {
            assert(unsorted.no_duplicates());
            lemma_same_values(unsorted, keys@);
            assert forall|k: int| 0 <= k < keys@.len() implies is_key(nodes@, #[trigger] keys@[k]) by {
                assert(keys@.contains(keys@[k]));
                let j = choose|j: int| 0 <= j < unsorted.len() && unsorted[j] == keys@[k];
                assert(unsorted[j] == key_of(nodes@, j));
            }
        }
        let mut reads: Vec<GdsRead> = Vec::new();
        let mut k: usize = 0;
        while k < keys.len()
            invariant
                self.wf(),
                k <= keys@.len(),
                keys@.len() == nodes@.len(),
                nodes@.len() <= u32::MAX,
                base + nodes@.len() * self.view.row_len() <= usize::MAX,
                row == self.view.row_len(),
                self@.has_all(nodes@),
                forall|k: int| 0 <= k < keys@.len() ==> is_key(nodes@, #[trigger] keys@[k]),
                reads@.len() == k,
                forall|j: int|
                    0 <= j < k ==> (#[trigger] reads@[j]).place < nodes@.len() && reads@[j]
                        == self@.read_of(nodes@, base as int, reads@[j].place as int)
                        && keys@[j] == key_of(nodes@, reads@[j].place as int),
            decreases keys@.len() - k,
        {
            let key: u64 = keys[k];
            assert(is_key(nodes@, keys@[k as int]));
            let place: usize = (key % 0x1_0000_0000) as usize;
            let node: u32 = nodes[place];
            proof {
                lemma_row_inside(
                    node as int,
                    self.view.num_nodes as int,
                    self.view.row_len(),
                );
                lemma_row_inside(place as int, nodes@.len() as int, self.view.row_len());
            }
            let read = GdsRead {
                node,
                place,
                file_offset: self.view.start + node as u64 * row as u64,
                dev_offset: base + place * row,
                size: row,
            };
            assert(read == self@.read_of(nodes@, base as int, place as int));
            reads.push(read);
            k += 1;
        }
        assert forall|a: int, b: int| 0 <= a < b < reads@.len() implies comes_before(
            #[trigger] reads@[a],
            #[trigger] reads@[b],
        ) by {
            assert(keys@[a] <= keys@[b]);
            assert(keys@[a] != keys@[b]);
        }
        Ok(reads)
    }
}

/// The sort key of a place: node first, then place.
spec fn key_of(nodes: Seq<u32>, i: int) -> u64 {
    (nodes[i] * 0x1_0000_0000 + i) as u64
}

/// The sort key of some place.
spec fn is_key(nodes: Seq<u32>, key: u64) -> bool {
    key % 0x1_0000_0000 < nodes.len() && key == key_of(nodes, (key % 0x1_0000_0000) as int)
}

/// Whether a batch is large enough for one call for all of it.
pub fn uses_batch_api(len: usize) -> (b: bool)
    ensures
        b == (len >= BATCH_API_THRESHOLD),
        b == (len >= 8),
{
    len >= BATCH_API_THRESHOLD
}

/// The transfer is done and brought a row.
pub open spec fn entry_done(s: GdsStatus, row_bytes: usize) -> bool {
    s.status == BATCH_COMPLETE && s.bytes_done == row_bytes
}

/// Adds up what the transfers of a batch brought, or says which of them is the first
/// that did not bring a row.
pub fn check_batch(entries: &[GdsStatus], row_bytes: usize) -> (r: Result<usize, GdsError>)
    requires
        entries@.len() * row_bytes <= usize::MAX,
    ensures
        match r {
            Ok(total) => {
                &&& total == entries@.len() * row_bytes
                &&& forall|i: int|
                    0 <= i < entries@.len() ==> entry_done(#[trigger] entries@[i], row_bytes)
            },
            Err(e) => exists|i: int|
                0 <= i < entries@.len() && !entry_done(#[trigger] entries@[i], row_bytes) && (
                forall|k: int| 0 <= k < i ==> entry_done(#[trigger] entries@[k], row_bytes)) && e
                    == (if entries@[i].status != BATCH_COMPLETE {
                    GdsError::NotComplete { entry: i as usize, status: entries@[i].status }
                } else {
                    GdsError::ShortEntry {
                        entry: i as usize,
                        expected: row_bytes,
                        got: entries@[i].bytes_done,
                    }
                }),
        },
{
    let mut total: usize = 0;
    let mut i: usize = 0;
    assert(0 * row_bytes == 0) by (nonlinear_arith);
    while i < entries.len()
        invariant
            i <= entries@.len(),
            entries@.len() * row_bytes <= usize::MAX,
            total == i * row_bytes,
            forall|k: int| 0 <= k < i ==> entry_done(#[trigger] entries@[k], row_bytes),
        decreases entries@.len() - i,
    {
        let s = entries[i];
        assert(entries@[i as int] == s);
        if s.status != BATCH_COMPLETE {
            assert(!entry_done(entries@[i as int], row_bytes));
            return Err(GdsError::NotComplete { entry: i, status: s.status });
        }
        if s.bytes_done < 0 || s.bytes_done as u64 != row_bytes as u64 {
            assert(!entry_done(entries@[i as int], row_bytes));
            return Err(
                GdsError::ShortEntry { entry: i, expected: row_bytes, got: s.bytes_done },
            );
        }
        proof {
            lemma_row_inside(i as int, entries@.len() as int, row_bytes as int);
            assert((i + 1) * row_bytes == i * row_bytes + row_bytes) by (nonlinear_arith);
        }
        total += row_bytes;
        i += 1;
    }
    Ok(total)
}

/// The bytes that a single read brought, or what is wrong with it.
pub fn check_single(node: NodeId, returned: i64, row_bytes: usize) -> (r: Result<usize, GdsError>)
    ensures
        r == (if returned < 0 {
            Err::<usize, GdsError>(GdsError::ReadFailed { node, code: returned })
        } else if returned != row_bytes {
            Err(GdsError::ShortRead { node, expected: row_bytes, got: returned as u64 })
        } else {
            Ok(row_bytes)
        }),
{
    if returned < 0 {
        return Err(GdsError::ReadFailed { node, code: returned });
    }
    let got: u64 = returned as u64;
    if got != row_bytes as u64 {
        return Err(GdsError::ShortRead { node, expected: row_bytes, got });
    }
    Ok(row_bytes)
}

/// A plan reads every row of a batch once, at ascending file positions, and to slots
/// that do not overlap: those of the batch's own order.
pub proof fn law_plan_is_sequential_and_packed(
    v: GdsView,
    nodes: Seq<u32>,
    base: int,
    reads: Seq<GdsRead>,
    j: int,
    k: int,
)
    requires
        v.wf(),
        v.has_all(nodes),
        0 <= base,
        base + nodes.len() * v.row_len() <= v.gpu_buffer_size,
        v.plans(nodes, base, reads),
        0 <= j < k < reads.len(),
    ensures
        reads[j].file_offset <= reads[k].file_offset,
        reads[j].place != reads[k].place,
        reads[j].dev_offset + reads[j].size <= reads[k].dev_offset || reads[k].dev_offset
            + reads[k].size <= reads[j].dev_offset,
        reads[j].dev_offset == base + reads[j].place * v.row_len(),
        reads[j].dev_offset + reads[j].size <= base + nodes.len() * v.row_len(),
{
    let a = reads[j];
    let b = reads[k];
    let row = v.row_len();
    assert(comes_before(a, b));
    lemma_row_inside(a.node as int, v.num_nodes as int, row);
    lemma_row_inside(b.node as int, v.num_nodes as int, row);
    lemma_row_inside(a.place as int, nodes.len() as int, row);
    lemma_row_inside(b.place as int, nodes.len() as int, row);
    assert(nodes[a.place as int] < v.num_nodes && nodes[b.place as int] < v.num_nodes);
    assert(a.node * row <= b.node * row) by (nonlinear_arith)
        requires
            a.node <= b.node,
            0 <= row,
    ;
    if a.place < b.place {
        assert(a.place * row + row <= b.place * row) by (nonlinear_arith)
            requires
                a.place + 1 <= b.place,
                0 <= row,
        ;
    } else if b.place < a.place {
        assert(b.place * row + row <= a.place * row) by (nonlinear_arith)
            requires
                b.place + 1 <= a.place,
                0 <= row,
        ;
    }
}

/// A plan reads every node of the batch once, its row from the file into the slot
/// of its place in the batch, in ascending order of nodes, and of places where a
/// node occurs more than once.
pub proof fn law_plan_reads_each_place(
    v: GdsView,
    nodes: Seq<u32>,
    base: int,
    reads: Seq<GdsRead>,
    k: int,
)
    requires
        v.wf(),
        v.has_all(nodes),
        0 <= base,
        base + nodes.len() * v.row_len() <= v.gpu_buffer_size,
        v.plans(nodes, base, reads),
        0 <= k < reads.len(),
    ensures
        ({
            let row = v.feature_dim * v.dtype.size();
            let r = reads[k];
            &&& reads.len() == nodes.len()
            &&& r.place < nodes.len()
            &&& r.node == nodes[r.place as int]
            &&& r.file_offset == v.start + r.node * row
            &&& r.dev_offset == base + r.place * row
            &&& r.size == row
            &&& k + 1 < reads.len() ==> r.node < reads[k + 1].node || (r.node == reads[k + 1].node
                && r.place < reads[k + 1].place)
        }),
{
    let row = v.row_len();
    let r = reads[k];
    let i = r.place as int;
    assert(r == v.read_of(nodes, base, i));
    assert(nodes[i] < v.num_nodes);
    assert(0 <= nodes[i] * row && v.start + nodes[i] * row <= u64::MAX) by (nonlinear_arith)
        requires
            0 <= nodes[i] < v.num_nodes,
            0 <= row,
            v.start + v.num_nodes * row <= u64::MAX,
    ;
    assert(0 <= i * row && i * row <= nodes.len() * row) by (nonlinear_arith)
        requires
            0 <= i < nodes.len(),
            0 <= row,
    ;
    if k + 1 < reads.len() {
        assert(comes_before(reads[k], reads[k + 1]));
    }
}

/// A transfer is done if its status is 2 and it moved a whole row.
pub proof fn law_done_means_whole_rows(s: GdsStatus, row_bytes: usize)
    ensures
        entry_done(s, row_bytes) <==> s.status == 2 && s.bytes_done == row_bytes,
{
}

/// The first missing node of a batch is the first that the store does not have;
/// there is none exactly if it has all.
pub proof fn law_first_missing_of_a_batch(v: GdsView, nodes: Seq<u32>, i: int)
    ensures
        v.first_missing(nodes, i) <==> {
            &&& 0 <= i < nodes.len()
            &&& nodes[i] >= v.num_nodes
            &&& forall|k: int| 0 <= k < i ==> (#[trigger] nodes[k]) < v.num_nodes
        },
        v.first_missing(nodes, i) ==> !v.has_all(nodes),
        v.has_all(nodes) && 0 <= i < nodes.len() ==> nodes[i] < v.num_nodes,
{
}

/// A message tells the numbers of its error, in this order.
pub proof fn law_gds_messages_tell_their_numbers(e: GdsError)
    ensures
        match e {
            GdsError::BufferTooSmall { required, nodes, row_bytes, have } => tells(
                e.text(),
                seq![
                    decimal(required as nat),
                    decimal(nodes as nat),
                    decimal(row_bytes as nat),
                    decimal(have as nat),
                ],
            ),
            GdsError::BatchTooLarge { len, max } => tells(
                e.text(),
                seq![decimal(len as nat), decimal(max as nat)],
            ),
            GdsError::BatchBeyondBuffer { len, offset, have } => tells(
                e.text(),
                seq![decimal(len as nat), decimal(offset as nat), decimal(have as nat)],
            ),
            GdsError::NodeOutOfBounds { node, num_nodes } => tells(
                e.text(),
                seq![decimal(node as nat), decimal(num_nodes as nat)],
            ),
            GdsError::NotComplete { entry, status } => tells(
                e.text(),
                seq![decimal(entry as nat), signed(status as int)],
            ),
            GdsError::ShortEntry { entry, expected, got } => tells(
                e.text(),
                seq![decimal(entry as nat), decimal(expected as nat), signed(got as int)],
            ),
            GdsError::ReadFailed { node, code } => tells(
                e.text(),
                seq![decimal(node as nat), signed(code as int)],
            ),
            GdsError::ShortRead { node, expected, got } => tells(
                e.text(),
                seq![decimal(node as nat), decimal(expected as nat), decimal(got as nat)],
            ),
            _ => true,
        },
{
    match e {
        GdsError::BufferTooSmall { required, nodes, row_bytes, have } => {
            lemma_tells_four(
                e.text(),
                "GPU buffer too small: need "@,
                decimal(required as nat),
                " bytes for "@,
                decimal(nodes as nat),
                " nodes * "@,
                decimal(row_bytes as nat),
                " feature bytes, have "@,
                decimal(have as nat),
                Seq::<char>::empty(),
            );
        },
        GdsError::BatchTooLarge { len, max } => {
            lemma_tells_two(
                e.text(),
                "batch size "@,
                decimal(len as nat),
                " exceeds max "@,
                decimal(max as nat),
                Seq::<char>::empty(),
            );
        },
        GdsError::BatchBeyondBuffer { len, offset, have } => {
            lemma_tells_three(
                e.text(),
                "batch of "@,
                decimal(len as nat),
                " nodes at offset "@,
                decimal(offset as nat),
                " exceeds GPU buffer ("@,
                decimal(have as nat),
                " bytes)"@,
            );
        },
        GdsError::NodeOutOfBounds { node, num_nodes } => {
            lemma_tells_two(
                e.text(),
                "node "@,
                decimal(node as nat),
                " out of bounds (max "@,
                decimal(num_nodes as nat),
                ")"@,
            );
        },
        GdsError::NotComplete { entry, status } => {
            lemma_tells_two(
                e.text(),
                "GDS batch entry "@,
                decimal(entry as nat),
                " not complete (status="@,
                signed(status as int),
                ")"@,
            );
        },
        GdsError::ShortEntry { entry, expected, got } => {
            lemma_tells_three(
                e.text(),
                "GDS batch entry "@,
                decimal(entry as nat),
                " short read: expected "@,
                decimal(expected as nat),
                " bytes, got "@,
                signed(got as int),
                Seq::<char>::empty(),
            );
        },
        GdsError::ReadFailed { node, code } => {
            lemma_tells_two(
                e.text(),
                "cuFileRead failed for node "@,
                decimal(node as nat),
                ": returned "@,
                signed(code as int),
                Seq::<char>::empty(),
            );
        },
        GdsError::ShortRead { node, expected, got } => {
            lemma_tells_three(
                e.text(),
                "cuFileRead short read for node "@,
                decimal(node as nat),
                ": expected "@,
                decimal(expected as nat),
                " bytes, got "@,
                decimal(got as nat),
                Seq::<char>::empty(),
            );
        },
        _ => {},
    }
}

} // verus!
