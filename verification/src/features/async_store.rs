//! Feature store over a file that is read row by row.
//!
//! The store plans reads and decodes what they bring; whoever drives it performs
//! them, in parallel where the platform can.
use vstd::prelude::*;
use vstd::string::StringExecFns;
use crate::graph::csr::NodeId;
use crate::text::{decimal, label, label_pair, lemma_tells_one, lemma_tells_two, tells};
use super::error::FeatureError;
use super::gather::{
    decode_rows, gathers, landed, offsets_fit, plan_rows, row_offset, GatherError, RowRead,
};
use super::header::{
    feature_header_of, lemma_payload_fits, lemma_row_inside, parse_feature_header, row_at,
    FeatureDtype,
};
use super::telemetry::FeatureLoadTelemetry;

verus! {

/// Reads that are submitted while a ring is held.
pub const RING_LOCK_CHUNK_SIZE: usize = 64;

/// How much larger than a batch the range it spans may be to be read ahead.
pub const MAX_SPAN_FACTOR: usize = 4;

/// Most rings that are kept.
pub const MAX_RINGS: usize = 4;

/// Why rows could not be read.
#[derive(Debug, Clone, Copy, PartialEq, Eq, Structural)]
pub enum AsyncStoreError {
    /// The node does not exist.
    NodeOutOfBounds { node: u32 },
    /// The greatest node of the batch does not exist.
    BatchOutOfBounds { node: u32, num_nodes: usize },
    /// The reads could not be planned.
    Gather { cause: GatherError },
}

impl AsyncStoreError {
    /// The text of the message.
    pub open spec fn text(self) -> Seq<char> {
        match self {
            AsyncStoreError::NodeOutOfBounds { node } => "node "@ + decimal(node as nat)
                + " out of bounds"@,
            AsyncStoreError::BatchOutOfBounds { node, num_nodes } => "node "@ + decimal(
                node as nat,
            ) + " out of bounds (num_nodes="@ + decimal(num_nodes as nat) + ")"@,
            AsyncStoreError::Gather { cause } => cause.text(),
        }
    }

    /// Describes the error.
    pub fn message(&self) -> (s: String)
        ensures
            s@ == self.text(),
    {
        match *self {
            AsyncStoreError::NodeOutOfBounds { node } => {
                let mut s = label("node ", node as u64);
                s.append(" out of bounds");
                s
            },
            AsyncStoreError::BatchOutOfBounds { node, num_nodes } => {
                let mut s = label_pair(
                    "node ",
                    node as u64,
                    " out of bounds (num_nodes=",
                    num_nodes as u64,
                );
                s.append(")");
                s
            },
            AsyncStoreError::Gather { cause } => cause.message(),
        }
    }
}

/// The least of some nodes.
pub open spec fn least(nodes: Seq<u32>) -> u32
    decreases nodes.len(),
{
    if nodes.len() <= 1 || least(nodes.drop_last()) > nodes.last() {
        nodes.last()
    } else {
        least(nodes.drop_last())
    }
}

/// The greatest of some nodes.
pub open spec fn greatest(nodes: Seq<u32>) -> u32
    decreases nodes.len(),
{
    if nodes.len() <= 1 || greatest(nodes.drop_last()) < nodes.last() {
        nodes.last()
    } else {
        greatest(nodes.drop_last())
    }
}

/// The least is the least, and the greatest the greatest.
pub proof fn law_extremes(nodes: Seq<u32>, i: int)
    requires
        0 <= i < nodes.len(),
    ensures
        least(nodes) <= nodes[i] <= greatest(nodes),
        nodes.contains(least(nodes)),
        nodes.contains(greatest(nodes)),
    decreases nodes.len(),
{
    let last = nodes[nodes.len() - 1];
    if nodes.len() > 1 {
        let rest = nodes.drop_last();
        law_extremes(
            rest,
            if i < rest.len() {
                i
            } else {
                0
            },
        );
        let a = choose|k: int| 0 <= k < rest.len() && rest[k] == least(rest);
        let b = choose|k: int| 0 <= k < rest.len() && rest[k] == greatest(rest);
        assert(nodes[a] == least(rest));
        assert(nodes[b] == greatest(rest));
        if i < rest.len() {
            assert(rest[i] == nodes[i]);
        }
    }
    assert(nodes.contains(last));
}

/// The least and the greatest of some nodes.
pub fn extremes(nodes: &[NodeId]) -> (r: (NodeId, NodeId))
    requires
        nodes@.len() > 0,
    ensures
        r.0 == least(nodes@),
        r.1 == greatest(nodes@),
{
    let mut low: u32 = nodes[0];
    let mut high: u32 = nodes[0];
    let mut i: usize = 1;
    assert(nodes@.take(1).last() == nodes@[0]);
    while i < nodes.len()
        invariant
            1 <= i <= nodes@.len(),
            low == least(nodes@.take(i as int)),
            high == greatest(nodes@.take(i as int)),
        decreases nodes@.len() - i,
    {
        let n: u32 = nodes[i];
        proof {
            let next = nodes@.take(i + 1);
            assert(next.drop_last() =~= nodes@.take(i as int));
            assert(next.last() == n);
        }
        if n < low {
            low = n;
        }
        if n > high {
            high = n;
        }
        i += 1;
    }
    assert(nodes@.take(i as int) =~= nodes@);
    (low, high)
}

/// What a file-backed store knows of its file.
#[derive(Debug, Clone, Copy, PartialEq, Eq, Structural)]
pub struct RowLayout {
    pub num_nodes: usize,
    pub feature_dim: usize,
    pub start: u64,
    pub dtype: FeatureDtype,
}

impl RowLayout {
    /// Bytes of a row.
    pub open spec fn row_len(self) -> int {
        self.feature_dim * self.dtype.size()
    }

    /// All rows are at file positions.
    pub open spec fn wf(self) -> bool {
        &&& 0 <= self.row_len() <= 400_000
        &&& self.start + self.num_nodes * self.row_len() <= u64::MAX
    }

    /// The range to read ahead for a batch: all rows from the least to the
    /// greatest node, if the batch is dense among them.
    pub open spec fn ahead(self, nodes: Seq<u32>) -> Option<(u64, usize)> {
        let row = self.row_len();
        let first = self.start + least(nodes) * row;
        let span = (greatest(nodes) - least(nodes) + 1) * row;
        let batch = nodes.len() * row;
        if nodes.len() == 0 || first > u64::MAX || greatest(nodes) - least(nodes) + 1 > usize::MAX
            || span > usize::MAX || batch > usize::MAX || span > MAX_SPAN_FACTOR * batch {
            None
        } else {
            Some((first as u64, span as usize))
        }
    }
}

/// Feature store over a file that is read row by row.
pub struct AsyncFeatureStore {
    layout: RowLayout,
    telemetry: Option<FeatureLoadTelemetry>,
}

impl AsyncFeatureStore {
    /// Where the rows are.
    pub closed spec fn rows(&self) -> RowLayout {
        self.layout
    }

    /// Where telemetry stands, if it is kept.
    pub closed spec fn counters(&self) -> Option<FeatureLoadTelemetry> {
        self.telemetry
    }

    /// All rows are at file positions.
    pub closed spec fn wf(&self) -> bool {
        self.layout.wf()
    }

    /// All rows are at file positions.
    pub proof fn lemma_wf(&self)
        requires
            self.wf(),
        ensures
            self.rows().wf(),
    {
    }

    /// A store for a file of `file_size` bytes that starts with `prefix`.
    pub fn load(prefix: &[u8], file_size: u64) -> (r: Result<AsyncFeatureStore, FeatureError>)
        ensures
            match feature_header_of(prefix@, file_size) {
                Err(e) => r == Err::<AsyncFeatureStore, FeatureError>(e),
                Ok(h) => {
                    &&& r matches Ok(s)
                    &&& s.wf()
                    &&& s.rows() == (RowLayout {
                        num_nodes: h.num_nodes,
                        feature_dim: h.feature_dim,
                        start: h.features_start_offset,
                        dtype: h.dtype,
                    })
                    &&& s.counters() is None
                },
            },
    {
        let h = match parse_feature_header(prefix, file_size) {
            Ok(h) => h,
            Err(e) => {
                return Err(e);
            },
        };
        proof {
            lemma_payload_fits(h.num_nodes as int, h.feature_dim as int, h.dtype.size());
        }
        Ok(
            AsyncFeatureStore {
                layout: RowLayout {
                    num_nodes: h.num_nodes,
                    feature_dim: h.feature_dim,
                    start: h.features_start_offset,
                    dtype: h.dtype,
                },
                telemetry: None,
            },
        )
    }

    /// Starts counting.
    pub fn with_telemetry(self) -> (s: AsyncFeatureStore)
        ensures
            self.wf() ==> s.wf(),
            s.rows() == self.rows(),
            s.counters() == Some(
                FeatureLoadTelemetry {
                    single_gets: 0,
                    batch_gets: 0,
                    total_nodes_loaded: 0,
                    total_features_loaded: 0,
                    total_bytes_loaded: 0,
                    get_time_ns: 0,
                    batch_time_ns: 0,
                },
            ),
    {
        AsyncFeatureStore {
            layout: self.layout,
            telemetry: Some(FeatureLoadTelemetry::default()),
        }
    }

    /// The counters, if they are kept.
    pub fn telemetry(&self) -> (t: Option<FeatureLoadTelemetry>)
        ensures
            t == self.counters(),
    {
        self.telemetry
    }

    /// Number of nodes.
    pub fn num_nodes(&self) -> (n: usize)
        ensures
            n == self.rows().num_nodes,
    {
        self.layout.num_nodes
    }

    /// Feature dimension.
    pub fn feature_dim(&self) -> (n: usize)
        ensures
            n == self.rows().feature_dim,
    {
        self.layout.feature_dim
    }

    /// Bytes of a row.
    pub fn feature_size(&self) -> (n: usize)
        requires
            self.wf(),
        ensures
            n == self.rows().row_len(),
    {
        self.layout.feature_dim * self.layout.dtype.element_size()
    }

    /// The read that brings the row of a node.
    pub fn plan_get(&self, node: NodeId) -> (r: Result<RowRead, AsyncStoreError>)
        requires
            self.wf(),
        ensures
            match r {
                Ok(read) => {
                    &&& node < self.rows().num_nodes
                    &&& read == (RowRead {
                        offset: (self.rows().start + node * self.rows().row_len()) as u64,
                        at: 0,
                        len: self.rows().row_len() as usize,
                    })
                },
                Err(e) => node >= self.rows().num_nodes && e == (AsyncStoreError::NodeOutOfBounds {
                    node,
                }),
            },
    {
        if node as u64 >= self.layout.num_nodes as u64 {
            return Err(AsyncStoreError::NodeOutOfBounds { node });
        }
        proof {
            lemma_row_inside(
                node as int,
                self.layout.num_nodes as int,
                self.layout.row_len(),
            );
        }
        let len: usize = self.feature_size();
        Ok(RowRead { offset: self.layout.start + node as u64 * len as u64, at: 0, len })
    }

    /// Decodes the row that a read brought, and counts it. The read took `ns`.
    pub fn finish_get(&mut self, bytes: &[u8], ns: u64) -> (row: Vec<u32>)
        requires
            old(self).wf(),
            bytes@.len() >= old(self).rows().row_len(),
        ensures
            final(self).wf(),
            final(self).rows() == old(self).rows(),
            row@ == row_at(
                bytes@,
                old(self).rows().dtype,
                0,
                old(self).rows().feature_dim as nat,
            ),
            final(self).counters() == (match old(self).counters() {
                Some(t) => Some(
                    t.after_file_get(
                        old(self).rows().feature_dim as u64,
                        old(self).rows().row_len() as u64,
                        ns,
                    ),
                ),
                None => None,
            }),
    {
        let mut row: Vec<u32> = Vec::new();
        let dim: usize = self.layout.feature_dim;
        let len: usize = self.feature_size();
        self.layout.dtype.push_row(bytes, 0, dim, &mut row);
        assert(row@ =~= row_at(bytes@, self.layout.dtype, 0, dim as nat));
        if let Some(t) = self.telemetry {
            let mut t = t;
            t.record_file_get(dim as u64, len as u64, ns);
            self.telemetry = Some(t);
        }
        row
    }

    /// The reads that bring the rows of a batch to slots that stand `stride` bytes
    /// apart. Fails on the greatest node, if it does not exist, and where the slots
    /// are too many for a buffer.
    pub fn plan_batch(&self, nodes: &[NodeId], stride: usize) -> (r: Result<
        Vec<RowRead>,
        AsyncStoreError,
    >)
        requires
            self.wf(),
        ensures
            match r {
                Ok(reads) => {
                    &&& forall|i: int|
                        0 <= i < nodes@.len() ==> (#[trigger] nodes@[i]) < self.rows().num_nodes
                    &&& nodes@.len() * stride <= usize::MAX
                    &&& gathers(
                        reads@,
                        nodes@,
                        self.rows().start,
                        self.rows().row_len() as usize,
                        stride,
                    )
                },
                Err(e) => {
                    &&& nodes@.len() > 0
                    &&& if greatest(nodes@) >= self.rows().num_nodes {
                        e == (AsyncStoreError::BatchOutOfBounds {
                            node: greatest(nodes@),
                            num_nodes: self.rows().num_nodes,
                        })
                    } else {
                        nodes@.len() * stride > usize::MAX && e == (AsyncStoreError::Gather {
                            cause: GatherError::BufferOverflow {
                                nodes: nodes@.len() as usize,
                                bytes: stride,
                            },
                        })
                    }
                },
            },
    {
        if nodes.len() == 0 {
            assert(0 * stride == 0) by (nonlinear_arith);
            return Ok(Vec::new());
        }
        let (_, max_node) = extremes(nodes);
        if max_node as u64 >= self.layout.num_nodes as u64 {
            return Err(
                AsyncStoreError::BatchOutOfBounds {
                    node: max_node,
                    num_nodes: self.layout.num_nodes,
                },
            );
        }
        let row_bytes: usize = self.feature_size();
        proof {
            assert forall|i: int| 0 <= i < nodes@.len() implies (#[trigger] nodes@[i])
                < self.layout.num_nodes && row_offset(self.layout.start, row_bytes, nodes@[i])
                <= u64::MAX by {
                law_extremes(nodes@, i);
                lemma_row_inside(
                    nodes@[i] as int,
                    self.layout.num_nodes as int,
                    self.layout.row_len(),
                );
            }
            assert(offsets_fit(nodes@, self.layout.start, row_bytes));
        }
        match plan_rows(nodes, self.layout.start, row_bytes, stride) {
            Ok(reads) => Ok(reads),
            Err(cause) => Err(AsyncStoreError::Gather { cause }),
        }
    }

    /// Decodes the rows that have landed in the first `count` slots, and counts
    /// them. The batch took `ns`.
    pub fn finish_batch(&mut self, buffer: &[u8], stride: usize, count: usize, ns: u64) -> (out:
        Vec<u32>)
        requires
            old(self).wf(),
            old(self).rows().row_len() <= stride,
            count * stride <= buffer@.len(),
        ensures
            final(self).wf(),
            final(self).rows() == old(self).rows(),
            out@ == landed(
                buffer@,
                stride as int,
                old(self).rows().dtype,
                old(self).rows().feature_dim as nat,
                count as nat,
            ),
            final(self).counters() == (match old(self).counters() {
                Some(t) => Some(t.after_batch(count as u64, out@.len() as u64, ns)),
                None => None,
            }),
    {
        let out = decode_rows(buffer, stride, self.layout.dtype, self.layout.feature_dim, count);
        if let Some(t) = self.telemetry {
            let mut t = t;
            t.record_batch(count as u64, out.len() as u64, ns);
            self.telemetry = Some(t);
        }
        out
    }

    /// The range to read ahead for a batch. A batch that is spread over the file
    /// has none: reading ahead would bring in far more than it needs.
    pub fn prefetch_batch_range(&self, nodes: &[NodeId]) -> (r: Option<(u64, usize)>)
        requires
            self.wf(),
        ensures
            r == self.rows().ahead(nodes@),
    {
        if nodes.len() == 0 {
            return None;
        }
        let (low, high) = extremes(nodes);
        let row: usize = self.feature_size();
        proof {
            law_extremes(nodes@, 0);
            assert(0 <= low * row <= u32::MAX * 400_000) by (nonlinear_arith)
                requires
                    0 <= low <= u32::MAX,
                    0 <= row <= 400_000,
            ;
        }
        let first: u64 = match self.layout.start.checked_add(low as u64 * row as u64) {
            Some(n) => n,
            None => {
                return None;
            },
        };
        let count: u64 = (high - low) as u64 + 1;
        if count > usize::MAX as u64 {
            return None;
        }
        let span: usize = match (count as usize).checked_mul(row) {
            Some(n) => n,
            None => {
                return None;
            },
        };
        let batch: usize = match nodes.len().checked_mul(row) {
            Some(n) => n,
            None => {
                return None;
            },
        };
        if span as u128 > MAX_SPAN_FACTOR as u128 * batch as u128 {
            return None;
        }
        Some((first, span))
    }
}

/// What is read ahead covers every row of the batch, and is no more than a few
/// times as long as the batch.
pub proof fn law_read_ahead_covers_the_batch(l: RowLayout, nodes: Seq<u32>, i: int)
    requires
        l.wf(),
        0 <= i < nodes.len(),
        l.ahead(nodes) is Some,
    ensures
        ({
            let (first, len) = l.ahead(nodes)->0;
            let at = l.start + nodes[i] * l.row_len();
            &&& first <= at
            &&& at + l.row_len() <= first + len
            &&& len <= MAX_SPAN_FACTOR * (nodes.len() * l.row_len())
        }),
{
    law_extremes(nodes, i);
    let row = l.row_len();
    let a = least(nodes) as int;
    let b = nodes[i] as int;
    let c = greatest(nodes) as int;
    assert(a * row <= b * row && b * row + row <= a * row + (c - a + 1) * row) by (nonlinear_arith)
        requires
            0 <= a <= b <= c,
            0 <= row,
    ;
}

/// Where the run of reads that begins at `start` ends.
pub open spec fn run_end(start: int, count: int) -> int {
    if start + RING_LOCK_CHUNK_SIZE <= count {
        start + RING_LOCK_CHUNK_SIZE
    } else {
        count
    }
}

/// The runs that cover the reads below `count`, one after the other.
pub open spec fn are_runs(runs: Seq<(usize, usize)>, count: int) -> bool {
    &&& forall|k: int|
        0 <= k < runs.len() ==> {
            &&& (#[trigger] runs[k]).0 == k * RING_LOCK_CHUNK_SIZE
            &&& runs[k].0 < count
            &&& runs[k].1 == run_end(runs[k].0 as int, count)
        }
    &&& runs.len() * RING_LOCK_CHUNK_SIZE >= count
}

/// The runs of reads to submit, each while its ring is held once.
pub fn ring_runs(count: usize) -> (runs: Vec<(usize, usize)>)
    ensures
        are_runs(runs@, count as int),
{
    let mut runs: Vec<(usize, usize)> = Vec::new();
    let mut start: usize = 0;
    while start < count
        invariant
            start <= count,
            start == run_end((runs@.len() - 1) * RING_LOCK_CHUNK_SIZE, count as int) || start == 0,
            runs@.len() == 0 <==> start == 0,
            start < count ==> start == runs@.len() * RING_LOCK_CHUNK_SIZE,
            start <= runs@.len() * RING_LOCK_CHUNK_SIZE,
            forall|k: int|
                0 <= k < runs@.len() ==> {
                    &&& (#[trigger] runs@[k]).0 == k * RING_LOCK_CHUNK_SIZE
                    &&& runs@[k].0 < count
                    &&& runs@[k].1 == run_end(runs@[k].0 as int, count as int)
                },
        decreases count - start,
    {
        let end: usize = if count - start >= RING_LOCK_CHUNK_SIZE {
            start + RING_LOCK_CHUNK_SIZE
        } else {
            count
        };
        runs.push((start, end));
        start = end;
    }
    runs
}

/// Every read stands in exactly one run, and no run holds a ring for long.
pub proof fn law_runs_cover_the_reads(runs: Seq<(usize, usize)>, count: int, i: int) -> (k: int)
    requires
        are_runs(runs, count),
        0 <= i < count,
    ensures
        0 <= k < runs.len(),
        runs[k].0 <= i < runs[k].1,
        runs[k].1 - runs[k].0 <= RING_LOCK_CHUNK_SIZE,
        forall|j: int|
            0 <= j < runs.len() && j != k ==> !((#[trigger] runs[j]).0 <= i < runs[j].1),
{
    let k = i / RING_LOCK_CHUNK_SIZE as int;
    assert(runs[k].0 == k * RING_LOCK_CHUNK_SIZE);
    k
}

/// Rings to keep: one per unit of parallelism, within limits.
pub fn ring_count(parallelism: Option<usize>) -> (n: usize)
    ensures
        n == (match parallelism {
            Some(p) => if p < 1 {
                1
            } else if p > MAX_RINGS {
                MAX_RINGS
            } else {
                p
            },
            None => 1,
        }),
        1 <= n <= MAX_RINGS,
        1 <= n <= 4,
        parallelism matches Some(p) ==> (1 <= p <= 4 ==> n == p),
        parallelism matches Some(p) ==> (p > 4 ==> n == 4),
{
    match parallelism {
        Some(p) => if p < 1 {
            1
        } else if p > MAX_RINGS {
            MAX_RINGS
        } else {
            p
        },
        None => 1,
    }
}

/// The ring that the next batch goes to, in turn.
pub fn next_ring(turn: usize, rings: usize) -> (k: usize)
    requires
        rings > 0,
    ensures
        k == turn % rings,
        k < rings,
{
    turn % rings
}

/// Nodes per blocking task when a batch is spread over `parallelism` tasks.
pub fn fallback_chunk(count: usize, parallelism: usize) -> (n: usize)
    requires
        count > 0,
        parallelism > 0,
    ensures
        n > 0,
        n * parallelism >= count,
        (n - 1) * (if parallelism < count {
            parallelism
        } else {
            count
        }) < count,
{
    let tasks: usize = if parallelism < count {
        parallelism
    } else {
        count
    };
    assert(tasks > 1 ==> count / tasks < count) by (nonlinear_arith)
        requires
            count > 0,
    ;
    let n: usize = if count % tasks == 0 {
        count / tasks
    } else {
        count / tasks + 1
    };
    proof {
        let m = count as int;
        let t = tasks as int;
        let q = m / t;
        let r = m % t;
        vstd::arithmetic::div_mod::lemma_fundamental_div_mod(m, t);
        assert(q >= 1) by (nonlinear_arith)
            requires
                m == t * q + r,
                r < t,
                m >= t,
                t > 0,
        ;
        assert(n * t >= m && (n - 1) * t < m) by (nonlinear_arith)
            requires
                m == t * q + r,
                0 <= r < t,
                r == 0 ==> n == q,
                r != 0 ==> n == q + 1,
                q >= 1,
        ;
        assert(n * parallelism >= n * t) by (nonlinear_arith)
            requires
                parallelism >= t,
                n >= 0,
        ;
    }
    n
}

/// A batch is read ahead exactly if the range that it spans, from its least node
/// to its greatest, is no more than four times as large as the batch itself and
/// all sizes fit; the range starts at the row of the least node.
pub proof fn law_read_ahead_spans_the_batch(l: RowLayout, nodes: Seq<u32>, low: u32, high: u32)
    requires
        nodes.contains(low),
        nodes.contains(high),
        forall|i: int| 0 <= i < nodes.len() ==> low <= #[trigger] nodes[i] <= high,
    ensures
        ({
            let row = l.feature_dim * l.dtype.size();
            let first = l.start + low * row;
            let span = (high - low + 1) * row;
            let batch = nodes.len() * row;
            &&& l.ahead(nodes) is Some <==> first <= u64::MAX && high - low + 1 <= usize::MAX && span
                <= usize::MAX && batch <= usize::MAX && span <= 4 * batch
            &&& l.ahead(nodes) matches Some((at, len)) ==> at as int == first as u64 && len as int
                == span as usize
        }),
        l.ahead(Seq::empty()) is None,
{
    let i = choose|i: int| 0 <= i < nodes.len() && nodes[i] == low;
    let j = choose|j: int| 0 <= j < nodes.len() && nodes[j] == high;
    law_extremes(nodes, i);
    law_extremes(nodes, j);
    let a = choose|a: int| 0 <= a < nodes.len() && nodes[a] == least(nodes);
    let b = choose|b: int| 0 <= b < nodes.len() && nodes[b] == greatest(nodes);
    assert(low <= nodes[a] && nodes[b] <= high);
    assert(least(nodes) == low && greatest(nodes) == high);
}

/// Reads are submitted in runs of 64, in order; only the last may be shorter.
pub proof fn law_runs_hold_64_reads(runs: Seq<(usize, usize)>, count: int, k: int)
    requires
        are_runs(runs, count),
        0 <= k < runs.len(),
    ensures
        runs[k].0 == 64 * k,
        runs[k].0 < runs[k].1 <= count,
        k < runs.len() - 1 ==> runs[k].1 == 64 * k + 64,
        k == runs.len() - 1 ==> runs[k].1 == count,
{
    if k < runs.len() - 1 {
        assert(runs[k + 1].0 < count);
    }
}

/// A message tells the numbers of its error, in this order.
pub proof fn law_async_store_messages_tell_their_numbers(e: AsyncStoreError)
    ensures
        match e {
            AsyncStoreError::NodeOutOfBounds { node } => tells(
                e.text(),
                seq![decimal(node as nat)],
            ),
            AsyncStoreError::BatchOutOfBounds { node, num_nodes } => tells(
                e.text(),
                seq![decimal(node as nat), decimal(num_nodes as nat)],
            ),
            _ => true,
        },
{
    match e {
        AsyncStoreError::NodeOutOfBounds { node } => {
            lemma_tells_one(
                e.text(),
                "node "@,
                decimal(node as nat),
                " out of bounds"@,
            );
        },
        AsyncStoreError::BatchOutOfBounds { node, num_nodes } => {
            lemma_tells_two(
                e.text(),
                "node "@,
                decimal(node as nat),
                " out of bounds (num_nodes="@,
                decimal(num_nodes as nat),
                ")"@,
            );
        },
        _ => {},
    }
}

} // verus!
