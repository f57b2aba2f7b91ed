//! Compressed cold feature tier.
//!
//! Rows that are rarely touched are kept in blocks, compressed with zstd against
//! a dictionary that is trained on the blocks themselves. A gather decompresses
//! only the blocks that it touches. Rows have a fixed size, so a row's block and
//! its place in the block follow from its number.
use vstd::prelude::*;
use vstd::slice::slice_subrange;
use vstd::string::StringExecFns;
use crate::bytes::push_bytes;
use crate::sorting::{ascending, place_in, sorted_distinct};
use crate::text::{decimal, label_pair, lemma_tells_three, lemma_tells_two, tells};
use super::error::FeatureError;
use super::header::{
    claimed_dim, claimed_dtype, claimed_nodes, feature_header_of, lemma_payload_fits,
    lemma_row_inside, parse_feature_header, row_at, FeatureDtype, FeatureHeader,
};
use super::store::{stored_features, StoreView};

verus! {

/// Rows per compression block.
pub const ROWS_PER_BLOCK: usize = 512;

/// Blocks that are needed before a dictionary is trained.
pub const DICTIONARY_BLOCKS: usize = 8;

/// Least size of a dictionary.
pub const MIN_DICTIONARY_BYTES: usize = 4096;

/// Greatest size of a dictionary.
pub const MAX_DICTIONARY_BYTES: usize = 114688;

/// `std::io::Error`, with which zstd reports failures.
#[verifier::external_type_specification]
#[verifier::external_body]
pub struct ExIoError(std::io::Error);

/// What `zstd::bulk::Decompressor::decompress` makes of a frame with a dictionary,
/// where there is room for it.
pub uninterp spec fn zstd_content(frame: Seq<u8>, dictionary: Seq<u8>) -> Option<Seq<u8>>;

/// Whether `zstd::dict::from_samples` can come to this outcome on these samples,
/// with this greatest size: a dictionary, or none.
pub uninterp spec fn zstd_trained(
    samples: Seq<Seq<u8>>,
    max_size: nat,
    outcome: Option<Seq<u8>>,
) -> bool;

/// Whether `zstd::bulk::Compressor` can come to this outcome on the data, at this
/// level and with this dictionary: no compressor, no frame, or a frame.
pub uninterp spec fn zstd_compressed(
    data: Seq<u8>,
    level: i32,
    dictionary: Seq<u8>,
    outcome: Option<Option<Seq<u8>>>,
) -> bool;

/// The contents of a list of slices.
pub open spec fn contents(slices: Seq<&[u8]>) -> Seq<Seq<u8>> {
    Seq::new(slices.len(), |i: int| slices[i]@)
}

/// The bytes of a vector, if there is one.
pub open spec fn bytes_of(v: Option<Vec<u8>>) -> Option<Seq<u8>> {
    match v {
        Some(b) => Some(b@),
        None => None,
    }
}

/// `zstd::dict::from_samples`. The outcome is one that training on the samples can
/// come to. Which of them it is depends on the machine, and is left open.
#[verifier::external_body]
pub(crate) fn zstd_train(samples: &[&[u8]], max_size: usize) -> (r: Result<Vec<u8>, std::io::Error>)
    ensures
        zstd_trained(
            contents(samples@),
            max_size as nat,
            match r {
                Ok(d) => Some(d@),
                Err(_) => None,
            },
        ),
{
    zstd::dict::from_samples(samples, max_size)
}

/// `zstd::bulk::Compressor::with_dictionary`, and its `compress` inside. The
/// outcome is one that compressing the data at the level can come to; which of the
/// possible frames it is depends on the machine, and is left open. A frame
/// decompresses, with the same dictionary, to what went in. Without a dictionary
/// there is always a frame: every level is brought within zstd's limits, and the
/// buffer is as large as a frame can get. Running out of memory is left aside.
#[verifier::external_body]
pub(crate) fn zstd_compress(data: &[u8], level: i32, dictionary: &[u8]) -> (r: Result<
    Result<Vec<u8>, std::io::Error>,
    std::io::Error,
>)
    ensures
        r matches Ok(Ok(frame)) ==> zstd_content(frame@, dictionary@) == Some(data@),
        zstd_compressed(
            data@,
            level,
            dictionary@,
            match r {
                Ok(Ok(frame)) => Some(Some(frame@)),
                Ok(Err(_)) => Some(None),
                Err(_) => None,
            },
        ),
        dictionary@.len() == 0 ==> r matches Ok(Ok(_)),
{
    Ok(zstd::bulk::Compressor::with_dictionary(level, dictionary)?.compress(data))
}

/// `zstd::bulk::Decompressor::with_dictionary`, and its `decompress` inside. On
/// success the result is the content of the frame. A frame that has a content
/// decompresses wherever the content is no longer than `capacity`. Running out of
/// memory is left aside.
#[verifier::external_body]
pub(crate) fn zstd_decompress(frame: &[u8], dictionary: &[u8], capacity: usize) -> (r: Result<
    Result<Vec<u8>, std::io::Error>,
    std::io::Error,
>)
    ensures
        r matches Ok(Ok(data)) ==> zstd_content(frame@, dictionary@) == Some(data@),
        zstd_content(frame@, dictionary@) matches Some(data) && data.len() <= capacity
            ==> r matches Ok(Ok(_)),
{
    Ok(zstd::bulk::Decompressor::with_dictionary(dictionary)?.decompress(frame, capacity))
}

/// Why a cold tier could not be built or read.
#[derive(Debug, Clone, Copy, PartialEq, Eq, Structural)]
pub enum ColdError {
    /// Rows have no bytes.
    RowBytesZero,
    /// The data does not end with a row.
    Ragged { len: usize, row_bytes: usize },
    /// There is no such row.
    RowOutOfRange { row: u32, num_rows: usize },
    /// A block did not decompress to its rows.
    BlockLength { block: u64, len: usize, expected: usize },
    /// There is no compressor for the dictionary.
    Compressor,
    /// There is no decompressor for the dictionary.
    Decompressor,
    /// A block could not be compressed, with or without a dictionary.
    Compress { dictionary: bool },
    /// A block could not be decompressed, with or without a dictionary.
    Decompress { dictionary: bool },
    /// The feature file is not valid.
    Header { cause: FeatureError },
}

impl ColdError {
    /// The text of the message.
    pub open spec fn text(self) -> Seq<char> {
        match self {
            ColdError::RowBytesZero => "row_bytes must be > 0"@,
            ColdError::Ragged { len, row_bytes } => "data length "@ + decimal(len as nat)
                + " is not a multiple of row_bytes "@ + decimal(row_bytes as nat),
            ColdError::RowOutOfRange { row, num_rows } => "row "@ + decimal(row as nat)
                + " out of range (num_rows="@ + decimal(num_rows as nat) + ")"@,
            ColdError::BlockLength { block, len, expected } => "block "@ + decimal(block as nat)
                + " decompressed to "@ + decimal(len as nat) + " bytes, expected "@ + decimal(
                expected as nat,
            ),
            ColdError::Compressor => "zstd compressor"@,
            ColdError::Decompressor => "zstd decompressor"@,
            ColdError::Compress { dictionary } => if dictionary {
                "zstd compress (dict)"@
            } else {
                "zstd compress"@
            },
            ColdError::Decompress { dictionary } => if dictionary {
                "zstd decompress (dict)"@
            } else {
                "zstd decompress"@
            },
            ColdError::Header { cause } => cause.text(),
        }
    }

    /// Describes the error.
    pub fn message(&self) -> (s: String)
        ensures
            s@ == self.text(),
    {
        match *self {
            ColdError::RowBytesZero => String::from_str("row_bytes must be > 0"),
            ColdError::Ragged { len, row_bytes } => label_pair(
                "data length ",
                len as u64,
                " is not a multiple of row_bytes ",
                row_bytes as u64,
            ),
            ColdError::RowOutOfRange { row, num_rows } => {
                let mut s = label_pair(
                    "row ",
                    row as u64,
                    " out of range (num_rows=",
                    num_rows as u64,
                );
                s.append(")");
                s
            },
            ColdError::BlockLength { block, len, expected } => {
                let mut s = label_pair("block ", block, " decompressed to ", len as u64);
                s.append(" bytes, expected ");
                crate::text::push_decimal(&mut s, expected as u64);
                s
            },
            ColdError::Compressor => String::from_str("zstd compressor"),
            ColdError::Decompressor => String::from_str("zstd decompressor"),
            ColdError::Compress { dictionary } => if dictionary {
                String::from_str("zstd compress (dict)")
            } else {
                String::from_str("zstd compress")
            },
            ColdError::Decompress { dictionary } => if dictionary {
                String::from_str("zstd decompress (dict)")
            } else {
                String::from_str("zstd decompress")
            },
            ColdError::Header { cause } => cause.message(),
        }
    }
}

/// Rows of bytes.
#[verifier::ext_equal]
pub struct RowsView {
    pub row_bytes: nat,
    pub num_rows: nat,
    pub data: Seq<u8>,
}

impl RowsView {
    /// One row.
    pub open spec fn row(self, r: int) -> Seq<u8> {
        self.data.subrange(r * self.row_bytes, r * self.row_bytes + self.row_bytes)
    }

    /// Rows, one after the other.
    pub open spec fn rows(self, list: Seq<u32>) -> Seq<u8>
        decreases list.len(),
    {
        if list.len() == 0 {
            Seq::empty()
        } else {
            self.rows(list.drop_last()) + self.row(list.last() as int)
        }
    }

    /// Every row of the list exists.
    pub open spec fn has_all(self, list: Seq<u32>) -> bool {
        forall|i: int| 0 <= i < list.len() ==> (#[trigger] list[i]) < self.num_rows
    }

    /// The first row of the list that does not exist.
    pub open spec fn first_missing(self, list: Seq<u32>, i: int) -> bool {
        &&& 0 <= i < list.len()
        &&& list[i] >= self.num_rows
        &&& forall|k: int| 0 <= k < i ==> (#[trigger] list[k]) < self.num_rows
    }
}

/// The bytes of one block of `data`.
pub open spec fn block_of(data: Seq<u8>, row_bytes: nat, block: int) -> Seq<u8> {
    let size = ROWS_PER_BLOCK * row_bytes;
    let end = (block + 1) * size;
    data.subrange(
        block * size,
        if end <= data.len() {
            end
        } else {
            data.len() as int
        },
    )
}

/// Number of blocks of `data`.
pub open spec fn blocks_in(data: Seq<u8>, row_bytes: nat) -> int {
    let size = ROWS_PER_BLOCK * row_bytes;
    (data.len() + size - 1) / size as int
}

/// A cold tier: compressed blocks, the dictionary they need, and the geometry
/// that locates any row.
#[derive(Debug)]
pub struct ColdTier {
    row_bytes: usize,
    num_rows: usize,
    dictionary: Vec<u8>,
    blocks: Vec<Vec<u8>>,
}

/// The contents of blocks, one after the other.
spec fn joined(blocks: Seq<Vec<u8>>, dictionary: Seq<u8>) -> Seq<u8>
    decreases blocks.len(),
{
    if blocks.len() == 0 {
        Seq::empty()
    } else {
        joined(blocks.drop_last(), dictionary) + zstd_content(blocks.last()@, dictionary)->0
    }
}

impl Clone for ColdTier {
    /// A tier with the same rows, dictionary and blocks.
    fn clone(&self) -> (t: ColdTier)
        ensures
            t@ == self@,
            t.wf() == self.wf(),
            t.dictionary() == self.dictionary(),
            t.stored_bytes() == self.stored_bytes(),
            forall|level: i32| #[trigger] t.compressed_at(level) == self.compressed_at(level),
    {
        let dictionary = self.dictionary.clone();
        assert(dictionary@ =~= self.dictionary@);
        let mut blocks: Vec<Vec<u8>> = Vec::new();
        let mut b: usize = 0;
        while b < self.blocks.len()
            invariant
                b <= self.blocks@.len(),
                blocks@.len() == b,
                forall|k: int|
                    0 <= k < b ==> (#[trigger] blocks@[k])@ == self.blocks@[k]@,
            decreases self.blocks@.len() - b,
        {
            let block = self.blocks[b].clone();
            assert(block@ =~= self.blocks@[b as int]@);
            blocks.push(block);
            b += 1;
        }
        let t = ColdTier {
            row_bytes: self.row_bytes,
            num_rows: self.num_rows,
            dictionary,
            blocks,
        };
        proof {
            lemma_same_blocks(t.blocks@, self.blocks@, t.dictionary@);
            lemma_same_parts(*self, t);
            lemma_same_parts(t, *self);
        }
        t
    }
}

/// Blocks of the same bytes are as long together, and have the same contents.
proof fn lemma_same_blocks(a: Seq<Vec<u8>>, b: Seq<Vec<u8>>, dictionary: Seq<u8>)
    requires
        a.len() == b.len(),
        forall|k: int| 0 <= k < a.len() ==> (#[trigger] a[k])@ == b[k]@,
    ensures
        total_len(a) == total_len(b),
        joined(a, dictionary) == joined(b, dictionary),
    decreases a.len(),
{
    if a.len() > 0 {
        let p = a.drop_last();
        let q = b.drop_last();
        assert forall|k: int| 0 <= k < p.len() implies (#[trigger] p[k])@ == q[k]@ by {
            assert(p[k] == a[k]);
        }
        lemma_same_blocks(p, q, dictionary);
        assert(a[a.len() - 1]@ == b[b.len() - 1]@);
    }
}

/// What holds of a tier holds of one with the same parts.
proof fn lemma_same_parts(a: ColdTier, b: ColdTier)
    requires
        a.row_bytes == b.row_bytes,
        a.num_rows == b.num_rows,
        a.data() == b.data(),
        a.dictionary@ == b.dictionary@,
        a.blocks@.len() == b.blocks@.len(),
        forall|k: int| 0 <= k < a.blocks@.len() ==> (#[trigger] a.blocks@[k])@ == b.blocks@[k]@,
    ensures
        a.wf() ==> b.wf(),
        forall|level: i32| #[trigger] a.compressed_at(level) ==> b.compressed_at(level),
{
    assert forall|level: i32| #[trigger] a.compressed_at(level) implies b.compressed_at(level) by {
        assert forall|k: int| 0 <= k < b.blocks@.len() implies zstd_compressed(
            block_of(b.data(), b.row_bytes as nat, k),
            level,
            b.dictionary@,
            Some(Some((#[trigger] b.blocks@[k])@)),
        ) by {
            assert(a.blocks@[k]@ == b.blocks@[k]@);
        }
    }
    if a.wf() {
        assert forall|k: int| 0 <= k < b.blocks@.len() implies zstd_content(
            (#[trigger] b.blocks@[k])@,
            b.dictionary@,
        ) == Some(block_of(b.data(), b.row_bytes as nat, k)) by {
            assert(a.blocks@[k]@ == b.blocks@[k]@);
        }
    }
}

impl View for ColdTier {
    type V = RowsView;

    closed spec fn view(&self) -> RowsView {
        RowsView {
            row_bytes: self.row_bytes as nat,
            num_rows: self.num_rows as nat,
            data: self.data(),
        }
    }
}

/// Bytes of all blocks.
spec fn total_len(blocks: Seq<Vec<u8>>) -> int
    decreases blocks.len(),
{
    if blocks.len() == 0 {
        0
    } else {
        total_len(blocks.drop_last()) + blocks.last()@.len()
    }
}

/// Where a block starts and ends.
proof fn lemma_block(len: int, size: int, block: int)
    requires
        0 <= len,
        0 < size,
        0 <= block < (len + size - 1) / size,
    ensures
        0 <= block * size < len,
        (block + 1) * size == block * size + size,
        block + 1 < (len + size - 1) / size ==> block * size + size < len,
        block + 1 == (len + size - 1) / size ==> len <= block * size + size,
{
    let n = (len + size - 1) / size;
    assert(n * size <= len + size - 1 < n * size + size) by (nonlinear_arith)
        requires
            n == (len + size - 1) / size,
            size > 0,
    ;
    assert(block * size + size <= n * size) by (nonlinear_arith)
        requires
            block + 1 <= n,
            size > 0,
    ;
    assert(0 <= block * size) by (nonlinear_arith)
        requires
            0 <= block,
            size > 0,
    ;
    assert((block + 1) * size == block * size + size) by (nonlinear_arith);
    if block + 1 < n {
        assert(block * size + 2 * size <= n * size) by (nonlinear_arith)
            requires
                block + 2 <= n,
                size > 0,
        ;
    }
}

/// The blocks reach to the end of the data.
proof fn lemma_blocks_cover(len: int, size: int)
    requires
        0 <= len,
        0 < size,
    ensures
        len <= ((len + size - 1) / size) * size,
{
    let n = (len + size - 1) / size;
    assert(len <= n * size) by (nonlinear_arith)
        requires
            n == (len + size - 1) / size,
            size > 0,
    ;
}

/// The first `k` blocks hold the data as far as they reach.
proof fn lemma_joined(
    blocks: Seq<Vec<u8>>,
    dictionary: Seq<u8>,
    data: Seq<u8>,
    row_bytes: nat,
    k: int,
)
    requires
        0 < row_bytes,
        0 <= k <= blocks.len() == blocks_in(data, row_bytes),
        forall|b: int|
            0 <= b < blocks.len() ==> zstd_content((#[trigger] blocks[b])@, dictionary) == Some(
                block_of(data, row_bytes, b),
            ),
    ensures
        joined(blocks.take(k), dictionary) == data.take(
            if k * (ROWS_PER_BLOCK * row_bytes) <= data.len() {
                k * (ROWS_PER_BLOCK * row_bytes)
            } else {
                data.len() as int
            },
        ),
    decreases k,
{
    let size = (ROWS_PER_BLOCK * row_bytes) as int;
    if k > 0 {
        lemma_joined(blocks, dictionary, data, row_bytes, k - 1);
        lemma_block(data.len() as int, size, k - 1);
        let part = blocks.take(k);
        assert(part.drop_last() =~= blocks.take(k - 1));
        assert(part.last() == blocks[k - 1]);
        let end = if k * size <= data.len() {
            k * size
        } else {
            data.len() as int
        };
        assert(data.take((k - 1) * size) + block_of(data, row_bytes, k - 1) =~= data.take(end));
    } else {
        assert(0 * size == 0) by (nonlinear_arith);
        assert(blocks.take(0) =~= Seq::empty());
        assert(data.take(0) =~= Seq::empty());
    }
}

/// Where a row lies in its block.
proof fn lemma_row_in_block(data: Seq<u8>, row_bytes: nat, num_rows: int, r: int)
    requires
        0 < row_bytes,
        0 <= r < num_rows,
        data.len() == num_rows * row_bytes,
    ensures
        ({
            let block = r / ROWS_PER_BLOCK as int;
            let at = (r % ROWS_PER_BLOCK as int) * row_bytes;
            &&& 0 <= block < blocks_in(data, row_bytes)
            &&& 0 <= at
            &&& at + row_bytes <= block_of(data, row_bytes, block).len()
            &&& 0 <= r * row_bytes
            &&& r * row_bytes + row_bytes <= data.len()
            &&& block_of(data, row_bytes, block).subrange(at, at + row_bytes) == data.subrange(
                r * row_bytes,
                r * row_bytes + row_bytes,
            )
        }),
{
    let block = r / ROWS_PER_BLOCK as int;
    let within = r % ROWS_PER_BLOCK as int;
    let at = within * row_bytes;
    let size = (ROWS_PER_BLOCK * row_bytes) as int;
    let len = data.len() as int;
    lemma_row_inside(r, num_rows, row_bytes as int);
    assert(r == block * ROWS_PER_BLOCK + within);
    assert(r * row_bytes == block * size + at) by (nonlinear_arith)
        requires
            r == block * 512 + within,
            size == 512 * row_bytes,
            at == within * row_bytes,
    ;
    assert(0 <= at && at + row_bytes <= size) by (nonlinear_arith)
        requires
            0 <= within < 512,
            at == within * row_bytes,
            size == 512 * row_bytes,
    ;
    let n = (len + size - 1) / size;
    assert(n * size <= len + size - 1 < n * size + size) by (nonlinear_arith)
        requires
            n == (len + size - 1) / size,
            size > 0,
    ;
    assert(block < n) by (nonlinear_arith)
        requires
            block * size + at + row_bytes <= len,
            len <= n * size,
            0 <= at,
            row_bytes > 0,
            size > 0,
    ;
    lemma_block(len, size, block);
    assert(block_of(data, row_bytes, block).subrange(at, at + row_bytes) =~= data.subrange(
        r * row_bytes,
        r * row_bytes + row_bytes,
    ));
}

/// Puts rows together from the raw blocks that hold them. Block `needed[k]` is
/// `raws[k]`.
pub fn rows_from_blocks(rows: &[u32], row_bytes: usize, needed: &[u64], raws: &Vec<Vec<u8>>) -> (out:
    Vec<u8>)
    requires
        ascending(needed@),
        raws@.len() == needed@.len(),
        forall|i: int|
            0 <= i < rows@.len() ==> needed@.contains(
                (#[trigger] rows@[i] / ROWS_PER_BLOCK as u32) as u64,
            ),
        forall|i: int, k: int|
            #![trigger rows@[i], needed@[k]]
            0 <= i < rows@.len() && 0 <= k < needed@.len() && needed@[k] == rows@[i]
                / ROWS_PER_BLOCK as u32 ==> (rows@[i] as int % ROWS_PER_BLOCK as int) * row_bytes
                + row_bytes <= raws@[k]@.len(),
    ensures
        out@ == rows_in_blocks(rows@, row_bytes as nat, needed@, raws@),
{
    let mut out: Vec<u8> = Vec::new();
    let mut i: usize = 0;
    while i < rows.len()
        invariant
            i <= rows@.len(),
            ascending(needed@),
            raws@.len() == needed@.len(),
            forall|i: int|
                0 <= i < rows@.len() ==> needed@.contains(
                    (#[trigger] rows@[i] / ROWS_PER_BLOCK as u32) as u64,
                ),
            forall|i: int, k: int|
                #![trigger rows@[i], needed@[k]]
                0 <= i < rows@.len() && 0 <= k < needed@.len() && needed@[k] == rows@[i]
                    / ROWS_PER_BLOCK as u32 ==> (rows@[i] as int % ROWS_PER_BLOCK as int)
                    * row_bytes + row_bytes <= raws@[k]@.len(),
            out@ == rows_in_blocks(rows@.take(i as int), row_bytes as nat, needed@, raws@),
        decreases rows@.len() - i,
    {
        let row: u32 = rows[i];
        assert(needed@.contains((rows@[i as int] / ROWS_PER_BLOCK as u32) as u64));
        let k: usize = place_in(needed, (row / ROWS_PER_BLOCK as u32) as u64);
        let within: usize = (row % ROWS_PER_BLOCK as u32) as usize;
        assert(needed@[k as int] == rows@[i as int] / ROWS_PER_BLOCK as u32);
        assert((rows@[i as int] as int % ROWS_PER_BLOCK as int) * row_bytes + row_bytes
            <= raws@[k as int]@.len());
        let block_len: usize = raws[k].len();
        assert(0 <= within * row_bytes) by (nonlinear_arith);
        let at: usize = within * row_bytes;
        push_bytes(&mut out, slice_subrange(raws[k].as_slice(), at, at + row_bytes));
        proof {
            let list = rows@.take(i + 1);
            assert(list.drop_last() =~= rows@.take(i as int));
            assert(list.last() == row);
            let block = (row / ROWS_PER_BLOCK as u32) as u64;
            let j = choose|j: int| 0 <= j < needed@.len() && needed@[j] == block;
            assert(j == k);
        }
        i += 1;
    }
    assert(rows@.take(i as int) =~= rows@);
    out
}

/// The rows of a list in the raw blocks that hold them, one after the other.
pub open spec fn rows_in_blocks(
    rows: Seq<u32>,
    row_bytes: nat,
    needed: Seq<u64>,
    raws: Seq<Vec<u8>>,
) -> Seq<u8>
    decreases rows.len(),
{
    if rows.len() == 0 {
        Seq::empty()
    } else {
        let row = rows.last();
        let k = choose|k: int|
            0 <= k < needed.len() && needed[k] == (row / ROWS_PER_BLOCK as u32) as u64;
        let at = (row as int % ROWS_PER_BLOCK as int) * row_bytes;
        rows_in_blocks(rows.drop_last(), row_bytes, needed, raws) + raws[k]@.subrange(
            at,
            at + row_bytes,
        )
    }
}

/// The data ends with a row.
pub open spec fn whole_rows(data: Seq<u8>, row_bytes: usize) -> bool {
    row_bytes > 0 && data.len() % row_bytes as nat == 0
}

/// The blocks of `data`, in order.
pub open spec fn all_blocks(data: Seq<u8>, row_bytes: nat) -> Seq<Seq<u8>> {
    Seq::new(blocks_in(data, row_bytes) as nat, |b: int| block_of(data, row_bytes, b))
}

/// An outcome that training on the blocks of `data` can come to. On too few blocks
/// nothing is trained.
pub open spec fn trains(data: Seq<u8>, row_bytes: usize, outcome: Option<Seq<u8>>) -> bool {
    if whole_rows(data, row_bytes) && blocks_in(data, row_bytes as nat) >= DICTIONARY_BLOCKS {
        zstd_trained(all_blocks(data, row_bytes as nat), dictionary_bytes(data.len()), outcome)
    } else {
        outcome is None
    }
}

/// The dictionary that a tier goes with: with enough blocks the trained one, if
/// there is one.
pub open spec fn chosen_dictionary(
    data: Seq<u8>,
    row_bytes: nat,
    trained: Option<Seq<u8>>,
) -> Seq<u8> {
    match trained {
        Some(d) => if blocks_in(data, row_bytes) >= DICTIONARY_BLOCKS {
            d
        } else {
            Seq::empty()
        },
        None => Seq::empty(),
    }
}

/// zstd fails on a block with this error. It can only with a dictionary.
pub open spec fn fails_at(
    data: Seq<u8>,
    row_bytes: nat,
    level: i32,
    dictionary: Seq<u8>,
    block: int,
    e: ColdError,
) -> bool {
    let raw = block_of(data, row_bytes, block);
    &&& 0 <= block < blocks_in(data, row_bytes)
    &&& dictionary.len() > 0
    &&& match e {
        ColdError::Compressor => zstd_compressed(raw, level, dictionary, None),
        ColdError::Compress { dictionary: with } => with && zstd_compressed(
            raw,
            level,
            dictionary,
            Some(None),
        ),
        _ => false,
    }
}

/// What compressing rows comes to with a trained dictionary.
pub open spec fn built(
    data: Seq<u8>,
    row_bytes: usize,
    level: i32,
    trained: Option<Seq<u8>>,
    r: Result<ColdTier, ColdError>,
) -> bool {
    let dictionary = chosen_dictionary(data, row_bytes as nat, trained);
    match r {
        Ok(t) => {
            &&& whole_rows(data, row_bytes)
            &&& t.wf()
            &&& t@.row_bytes == row_bytes
            &&& t@.num_rows == data.len() / row_bytes as nat
            &&& t@.data == data
            &&& t.dictionary() == dictionary
            &&& t.compressed_at(level)
        },
        Err(e) => if row_bytes == 0 {
            e == ColdError::RowBytesZero
        } else if data.len() % row_bytes as nat != 0 {
            e == (ColdError::Ragged { len: data.len() as usize, row_bytes })
        } else {
            exists|b: int| #[trigger] fails_at(data, row_bytes as nat, level, dictionary, b, e)
        },
    }
}

impl ColdTier {
    /// What the blocks decompress to.
    spec fn data(&self) -> Seq<u8> {
        joined(self.blocks@, self.dictionary@)
    }

    /// The blocks decompress to the rows.
    pub closed spec fn wf(&self) -> bool {
        &&& self.row_bytes > 0
        &&& ROWS_PER_BLOCK * self.row_bytes <= usize::MAX
        &&& self.data().len() == self.num_rows * self.row_bytes
        &&& self.data().len() <= usize::MAX
        &&& self.blocks@.len() == blocks_in(self.data(), self.row_bytes as nat)
        &&& forall|b: int|
            0 <= b < self.blocks@.len() ==> zstd_content(
                (#[trigger] self.blocks@[b])@,
                self.dictionary@,
            ) == Some(block_of(self.data(), self.row_bytes as nat, b))
    }

    /// Every block was compressed at the level, against the dictionary.
    pub closed spec fn compressed_at(&self, level: i32) -> bool {
        forall|b: int|
            0 <= b < self.blocks@.len() ==> zstd_compressed(
                block_of(self.data(), self.row_bytes as nat, b),
                level,
                self.dictionary@,
                Some(Some((#[trigger] self.blocks@[b])@)),
            )
    }

    /// The dictionary that blocks are compressed against; empty where there is none.
    pub closed spec fn dictionary(&self) -> Seq<u8> {
        self.dictionary@
    }

    /// Bytes of the dictionary and all blocks.
    pub closed spec fn stored_bytes(&self) -> int {
        self.dictionary@.len() + total_len(self.blocks@)
    }

    /// What a tier shows of itself.
    pub proof fn lemma_shape(&self)
        requires
            self.wf(),
        ensures
            self@.row_bytes > 0,
            self@.data.len() == self@.num_rows * self@.row_bytes,
    {
    }

    /// Compresses `data`, rows of `row_bytes` bytes each, at the given zstd
    /// level. With enough blocks a dictionary is trained on them first. Fails
    /// where rows have no bytes, where the data does not end with a row, and
    /// where zstd fails on a block with a dictionary; without one it cannot.
    pub fn build(data: &[u8], row_bytes: usize, level: i32) -> (r: Result<ColdTier, ColdError>)
        requires
            whole_rows(data@, row_bytes) ==> ROWS_PER_BLOCK * row_bytes <= usize::MAX,
        ensures
            exists|outcome: Option<Seq<u8>>| #[trigger]
                trains(data@, row_bytes, outcome) && built(data@, row_bytes, level, outcome, r),
    {
        let len: usize = data.len();
        let mut trained: Option<Vec<u8>> = None;
        if row_bytes > 0 && len % row_bytes == 0 {
            let raws = cut_blocks(data, row_bytes);
            assert(contents(raws@) =~= all_blocks(data@, row_bytes as nat));
            if raws.len() >= DICTIONARY_BLOCKS {
                if let Ok(d) = zstd_train(raws.as_slice(), dictionary_size(len)) {
                    trained = Some(d);
                }
            }
        }
        assert(trains(data@, row_bytes, bytes_of(trained)));
        ColdTier::build_with(data, row_bytes, level, trained)
    }

    /// Compresses `data` at the given zstd level, with enough blocks against the
    /// trained dictionary, if there is one.
    pub fn build_with(
        data: &[u8],
        row_bytes: usize,
        level: i32,
        trained: Option<Vec<u8>>,
    ) -> (r: Result<ColdTier, ColdError>)
        requires
            whole_rows(data@, row_bytes) ==> ROWS_PER_BLOCK * row_bytes <= usize::MAX,
        ensures
            built(data@, row_bytes, level, bytes_of(trained), r),
    {
        if row_bytes == 0 {
            return Err(ColdError::RowBytesZero);
        }
        let len: usize = data.len();
        if len % row_bytes != 0 {
            return Err(ColdError::Ragged { len, row_bytes });
        }
        let num_rows: usize = len / row_bytes;
        proof {
            vstd::arithmetic::div_mod::lemma_fundamental_div_mod(len as int, row_bytes as int);
            vstd::arithmetic::mul::lemma_mul_is_commutative(num_rows as int, row_bytes as int);
        }
        let raws = cut_blocks(data, row_bytes);
        let ghost chosen = chosen_dictionary(data@, row_bytes as nat, bytes_of(trained));
        let mut dictionary: Vec<u8> = Vec::new();
        if raws.len() >= DICTIONARY_BLOCKS {
            if let Some(d) = trained {
                dictionary = d;
            }
        }
        assert(dictionary@ =~= chosen);
        let mut blocks: Vec<Vec<u8>> = Vec::new();
        let mut b: usize = 0;
        while b < raws.len()
            invariant
                b <= raws@.len(),
                raws@.len() == blocks_in(data@, row_bytes as nat),
                forall|k: int|
                    0 <= k < raws@.len() ==> (#[trigger] raws@[k])@ == block_of(
                        data@,
                        row_bytes as nat,
                        k,
                    ),
                blocks@.len() == b,
                forall|k: int|
                    0 <= k < b ==> zstd_content((#[trigger] blocks@[k])@, dictionary@) == Some(
                        block_of(data@, row_bytes as nat, k),
                    ),
                forall|k: int|
                    0 <= k < b ==> zstd_compressed(
                        block_of(data@, row_bytes as nat, k),
                        level,
                        dictionary@,
                        Some(Some((#[trigger] blocks@[k])@)),
                    ),
                dictionary@ == chosen,
                chosen == chosen_dictionary(data@, row_bytes as nat, bytes_of(trained)),
                whole_rows(data@, row_bytes),
            decreases raws@.len() - b,
        {
            assert(raws@[b as int]@ == block_of(data@, row_bytes as nat, b as int));
            let tried = zstd_compress(raws[b], level, dictionary.as_slice());
            match tried {
                Ok(Ok(frame)) => {
                    blocks.push(frame);
                },
                Ok(Err(_)) => {
                    let e = ColdError::Compress { dictionary: dictionary.len() > 0 };
                    assert(fails_at(data@, row_bytes as nat, level, chosen, b as int, e));
                    return Err(e);
                },
                Err(_) => {
                    let e = ColdError::Compressor;
                    assert(fails_at(data@, row_bytes as nat, level, chosen, b as int, e));
                    return Err(e);
                },
            }
            b += 1;
        }
        proof {
            lemma_joined(blocks@, dictionary@, data@, row_bytes as nat, b as int);
            assert(blocks@.take(b as int) =~= blocks@);
            lemma_blocks_cover(data@.len() as int, (ROWS_PER_BLOCK * row_bytes) as int);
            assert(data@.take(data@.len() as int) =~= data@);
        }
        Ok(ColdTier { row_bytes, num_rows, dictionary, blocks })
    }

    /// Number of rows in the tier.
    pub fn num_rows(&self) -> (n: usize)
        ensures
            n == self@.num_rows,
    {
        self.num_rows
    }

    /// Bytes per row.
    pub fn row_bytes(&self) -> (n: usize)
        ensures
            n == self@.row_bytes,
    {
        self.row_bytes
    }

    /// Bytes of all rows before compression.
    pub fn raw_bytes(&self) -> (n: usize)
        requires
            self.wf(),
        ensures
            n == self@.num_rows * self@.row_bytes,
    {
        self.num_rows * self.row_bytes
    }

    /// Compressed size of all blocks plus the dictionary, or the greatest size
    /// there is.
    pub fn compressed_bytes(&self) -> (n: usize)
        ensures
            n == (if self.stored_bytes() <= usize::MAX {
                self.stored_bytes()
            } else {
                usize::MAX as int
            }),
    {
        let mut n: usize = self.dictionary.len();
        let mut b: usize = 0;
        while b < self.blocks.len()
            invariant
                b <= self.blocks@.len(),
                n == ({
                    let so_far = self.dictionary@.len() + total_len(self.blocks@.take(b as int));
                    if so_far <= usize::MAX {
                        so_far
                    } else {
                        usize::MAX as int
                    }
                }),
            decreases self.blocks@.len() - b,
        {
            proof {
                let next = self.blocks@.take(b + 1);
                assert(next.drop_last() =~= self.blocks@.take(b as int));
            }
            n = n.saturating_add(self.blocks[b].len());
            b += 1;
        }
        assert(self.blocks@.take(b as int) =~= self.blocks@);
        n
    }

    /// Gathers rows into one buffer, in the order of the list. Every block that
    /// holds one of them is decompressed once. Fails on the first row that does
    /// not exist, and on nothing else.
    pub fn gather_rows(&self, rows: &[u32]) -> (r: Result<Vec<u8>, ColdError>)
        requires
            self.wf(),
        ensures
            match r {
                Ok(out) => out@ == self@.rows(rows@),
                Err(e) => exists|i: int|
                    self@.first_missing(rows@, i) && e == (ColdError::RowOutOfRange {
                        row: #[trigger] rows@[i],
                        num_rows: self@.num_rows as usize,
                    }),
            },
            r is Ok <==> self@.has_all(rows@),
    {
        let mut wanted: Vec<u64> = Vec::new();
        let mut i: usize = 0;
        while i < rows.len()
            invariant
                i <= rows@.len(),
                wanted@.len() == i,
                forall|k: int| 0 <= k < i ==> (#[trigger] rows@[k]) < self.num_rows,
                forall|k: int|
                    0 <= k < i ==> #[trigger] wanted@[k] == rows@[k] / ROWS_PER_BLOCK as u32,
            decreases rows@.len() - i,
        {
            let row: u32 = rows[i];
            if row as u64 >= self.num_rows as u64 {
                assert(self@.first_missing(rows@, i as int));
                assert(rows@[i as int] == row);
                return Err(ColdError::RowOutOfRange { row, num_rows: self.num_rows });
            }
            wanted.push((row / ROWS_PER_BLOCK as u32) as u64);
            i += 1;
        }
        let ghost asked = wanted@;
        let needed = sorted_distinct(wanted);
        proof {
            assert forall|k: int| 0 <= k < rows@.len() implies needed@.contains(
                (#[trigger] rows@[k] / ROWS_PER_BLOCK as u32) as u64,
            ) by {
                assert(asked[k] == rows@[k] / ROWS_PER_BLOCK as u32);
                assert(asked.contains(asked[k]));
            }
            assert forall|k: int| 0 <= k < needed@.len() implies (#[trigger] needed@[k])
                < self.blocks@.len() by {
                assert(needed@.contains(needed@[k]));
                let j = choose|j: int| 0 <= j < asked.len() && asked[j] == needed@[k];
                assert(asked[j] == rows@[j] / ROWS_PER_BLOCK as u32);
                lemma_row_in_block(
                    self.data(),
                    self.row_bytes as nat,
                    self.num_rows as int,
                    rows@[j] as int,
                );
            }
            if needed@.len() > 0 {
                assert(needed@.contains(needed@[0]));
                assert(asked.len() > 0);
            }
        }
        let mut raws: Vec<Vec<u8>> = Vec::new();
        let mut k: usize = 0;
        while k < needed.len()
            invariant
                self.wf(),
                k <= needed@.len(),
                raws@.len() == k,
                needed@.len() > 0 ==> rows@.len() > 0,
                self@.has_all(rows@),
                forall|j: int| 0 <= j < needed@.len() ==> (#[trigger] needed@[j]) < self.blocks@.len(),
                forall|j: int|
                    0 <= j < k ==> (#[trigger] raws@[j])@ == block_of(
                        self.data(),
                        self.row_bytes as nat,
                        needed@[j] as int,
                    ),
            decreases needed@.len() - k,
        {
            assert(needed@[k as int] < self.blocks@.len());
            let raw = self.decompress_block(needed[k]);
            match raw {
                Ok(raw) => {
                    raws.push(raw);
                },
                Err(e) => {
                    return Err(e);
                },
            }
            k += 1;
        }
        proof {
            assert forall|i: int, k: int|
                #![trigger rows@[i], needed@[k]]
                0 <= i < rows@.len() && 0 <= k < needed@.len() && needed@[k] == rows@[i]
                    / ROWS_PER_BLOCK as u32 implies (rows@[i] as int % ROWS_PER_BLOCK as int)
                * self.row_bytes + self.row_bytes <= raws@[k]@.len() by {
                lemma_row_in_block(
                    self.data(),
                    self.row_bytes as nat,
                    self.num_rows as int,
                    rows@[i] as int,
                );
                assert(raws@[k]@ == block_of(
                    self.data(),
                    self.row_bytes as nat,
                    needed@[k] as int,
                ));
            }
            self.lemma_gathered(rows@, needed@, raws@);
        }
        Ok(rows_from_blocks(rows, self.row_bytes, needed.as_slice(), &raws))
    }

    /// Rows put together from their blocks are the rows of the tier.
    proof fn lemma_gathered(&self, rows: Seq<u32>, needed: Seq<u64>, raws: Seq<Vec<u8>>)
        requires
            self.wf(),
            self@.has_all(rows),
            raws.len() == needed.len(),
            forall|i: int|
                0 <= i < rows.len() ==> needed.contains(
                    (#[trigger] rows[i] / ROWS_PER_BLOCK as u32) as u64,
                ),
            forall|j: int|
                0 <= j < needed.len() ==> (#[trigger] raws[j])@ == block_of(
                    self.data(),
                    self.row_bytes as nat,
                    needed[j] as int,
                ),
        ensures
            rows_in_blocks(rows, self.row_bytes as nat, needed, raws) == self@.rows(rows),
        decreases rows.len(),
    {
        if rows.len() > 0 {
            let rest = rows.drop_last();
            assert forall|i: int| 0 <= i < rest.len() implies needed.contains(
                (#[trigger] rest[i] / ROWS_PER_BLOCK as u32) as u64,
            ) by {
                assert(rest[i] == rows[i]);
            }
            assert forall|i: int| 0 <= i < rest.len() implies (#[trigger] rest[i])
                < self@.num_rows by {
                assert(rest[i] == rows[i]);
            }
            self.lemma_gathered(rest, needed, raws);
            let row = rows[rows.len() - 1];
            assert(needed.contains((row / ROWS_PER_BLOCK as u32) as u64));
            let k = choose|k: int|
                0 <= k < needed.len() && needed[k] == (row / ROWS_PER_BLOCK as u32) as u64;
            assert(raws[k]@ == block_of(self.data(), self.row_bytes as nat, needed[k] as int));
            lemma_row_in_block(
                self.data(),
                self.row_bytes as nat,
                self.num_rows as int,
                row as int,
            );
        }
    }

    /// Decompresses one block back to its rows.
    fn decompress_block(&self, block: u64) -> (r: Result<Vec<u8>, ColdError>)
        requires
            self.wf(),
            block < self.blocks@.len(),
        ensures
            r matches Ok(raw) && raw@ == block_of(self.data(), self.row_bytes as nat, block as int),
    {
        let count: usize = self.blocks.len();
        let at: usize = block as usize;
        proof {
            lemma_block(
                self.data().len() as int,
                (ROWS_PER_BLOCK * self.row_bytes) as int,
                block as int,
            );
            lemma_block_rows(
                self.num_rows as int,
                self.row_bytes as int,
                block as int,
                self.blocks@.len() as int,
            );
        }
        let rows_here: usize = if at == count - 1 {
            self.num_rows - at * ROWS_PER_BLOCK
        } else {
            ROWS_PER_BLOCK
        };
        let capacity: usize = rows_here * self.row_bytes;
        assert(self.blocks@[at as int]@ == self.blocks[at as int]@);
        let tried = zstd_decompress(
            self.blocks[at].as_slice(),
            self.dictionary.as_slice(),
            capacity,
        );
        match tried {
            Ok(Ok(raw)) => {
                if raw.len() != capacity {
                    return Err(
                        ColdError::BlockLength { block, len: raw.len(), expected: capacity },
                    );
                }
                Ok(raw)
            },
            Ok(Err(_)) => Err(ColdError::Decompress { dictionary: self.dictionary.len() > 0 }),
            Err(_) => Err(ColdError::Decompressor),
        }
    }
}

/// How many rows a block holds.
proof fn lemma_block_rows(num_rows: int, row_bytes: int, block: int, count: int)
    requires
        0 < row_bytes,
        0 <= num_rows,
        0 <= block < count,
        count == (num_rows * row_bytes + ROWS_PER_BLOCK * row_bytes - 1) / (ROWS_PER_BLOCK
            * row_bytes),
    ensures
        0 <= block * ROWS_PER_BLOCK <= num_rows,
        block == count - 1 ==> (num_rows - block * ROWS_PER_BLOCK) * row_bytes == num_rows
            * row_bytes - block * (ROWS_PER_BLOCK * row_bytes),
        block == count - 1 ==> num_rows - block * ROWS_PER_BLOCK <= ROWS_PER_BLOCK,
{
    let size = ROWS_PER_BLOCK * row_bytes;
    let len = num_rows * row_bytes;
    assert(0 <= len) by (nonlinear_arith)
        requires
            0 <= num_rows,
            0 < row_bytes,
            len == num_rows * row_bytes,
    ;
    lemma_block(len, size, block);
    assert(block * size == (block * 512) * row_bytes) by (nonlinear_arith)
        requires
            size == 512 * row_bytes,
    ;
    assert(block * 512 <= num_rows) by (nonlinear_arith)
        requires
            (block * 512) * row_bytes < num_rows * row_bytes,
            row_bytes > 0,
    ;
    assert((num_rows - block * 512) * row_bytes == num_rows * row_bytes - (block * 512)
        * row_bytes) by (nonlinear_arith);
    if block == count - 1 {
        assert(num_rows - block * 512 <= 512) by (nonlinear_arith)
            requires
                (num_rows - block * 512) * row_bytes <= 512 * row_bytes,
                row_bytes > 0,
        ;
    }
}

/// Size of the dictionary to train on `len` bytes: a hundredth of them, within
/// limits.
pub open spec fn dictionary_bytes(len: nat) -> nat {
    if len / 100 < MIN_DICTIONARY_BYTES {
        MIN_DICTIONARY_BYTES as nat
    } else if len / 100 > MAX_DICTIONARY_BYTES {
        MAX_DICTIONARY_BYTES as nat
    } else {
        len / 100
    }
}

/// Size of the dictionary to train on `len` bytes.
pub fn dictionary_size(len: usize) -> (n: usize)
    ensures
        n == dictionary_bytes(len as nat),
{
    let n: usize = len / 100;
    if n < MIN_DICTIONARY_BYTES {
        MIN_DICTIONARY_BYTES
    } else if n > MAX_DICTIONARY_BYTES {
        MAX_DICTIONARY_BYTES
    } else {
        n
    }
}

/// Cuts data into blocks.
fn cut_blocks(data: &[u8], row_bytes: usize) -> (raws: Vec<&[u8]>)
    requires
        0 < row_bytes,
        ROWS_PER_BLOCK * row_bytes <= usize::MAX,
    ensures
        raws@.len() == blocks_in(data@, row_bytes as nat),
        forall|k: int|
            0 <= k < raws@.len() ==> (#[trigger] raws@[k])@ == block_of(
                data@,
                row_bytes as nat,
                k,
            ),
{
    let size: usize = ROWS_PER_BLOCK * row_bytes;
    let len: usize = data.len();
    let mut raws: Vec<&[u8]> = Vec::new();
    let mut at: usize = 0;
    assert(0 * size == 0) by (nonlinear_arith);
    while at < len
        invariant
            len == data@.len(),
            size == ROWS_PER_BLOCK * row_bytes,
            0 < size,
            at <= len,
            at == raws@.len() * size || (at == len && raws@.len() == blocks_in(
                data@,
                row_bytes as nat,
            )),
            raws@.len() <= blocks_in(data@, row_bytes as nat),
            forall|k: int|
                0 <= k < raws@.len() ==> (#[trigger] raws@[k])@ == block_of(
                    data@,
                    row_bytes as nat,
                    k,
                ),
        decreases len - at,
    {
        let ghost b = raws@.len() as int;
        proof {
            let n = (len + size - 1) / size as int;
            assert(n * size <= len + size - 1 < n * size + size) by (nonlinear_arith)
                requires
                    n == (len + size - 1) / size as int,
                    size > 0,
            ;
            assert(b < n) by (nonlinear_arith)
                requires
                    b * size < len,
                    len <= n * size,
                    size > 0,
            ;
            lemma_block(len as int, size as int, b);
        }
        let end: usize = if len - at > size {
            at + size
        } else {
            len
        };
        raws.push(slice_subrange(data, at, end));
        at = end;
    }
    proof {
        let b = raws@.len() as int;
        let n = (len + size - 1) / size as int;
        if b < n {
            lemma_block(len as int, size as int, b);
        }
    }
    raws
}

/// A [`ColdTier`] of the rows of a feature file, which decodes what it gathers.
#[derive(Debug)]
pub struct ColdStore {
    tier: ColdTier,
    dtype: FeatureDtype,
    feature_dim: usize,
}

impl View for ColdStore {
    type V = StoreView;

    closed spec fn view(&self) -> StoreView {
        StoreView {
            num_nodes: self.tier@.num_rows,
            feature_dim: self.feature_dim as nat,
            dtype: self.dtype,
            payload: self.tier@.data,
        }
    }
}

/// The rows of a feature file behind its header.
pub open spec fn payload_of(b: Seq<u8>, h: FeatureHeader) -> Seq<u8> {
    b.subrange(
        h.features_start_offset as int,
        h.features_start_offset + h.num_nodes * h.feature_size,
    )
}

/// What compressing the rows of a feature file comes to with a trained dictionary.
pub open spec fn store_built(
    b: Seq<u8>,
    h: FeatureHeader,
    level: i32,
    trained: Option<Seq<u8>>,
    r: Result<ColdStore, ColdError>,
) -> bool {
    let data = payload_of(b, h);
    let dictionary = chosen_dictionary(data, h.feature_size as nat, trained);
    match r {
        Ok(s) => {
            &&& h.feature_dim > 0
            &&& s.wf()
            &&& s@ == (StoreView {
                num_nodes: h.num_nodes as nat,
                feature_dim: h.feature_dim as nat,
                dtype: h.dtype,
                payload: data,
            })
            &&& s.dictionary() == dictionary
            &&& s.compressed_at(level)
        },
        Err(e) => if h.feature_dim == 0 {
            e == ColdError::RowBytesZero
        } else {
            exists|k: int| #[trigger]
                fails_at(data, h.feature_size as nat, level, dictionary, k, e)
        },
    }
}

impl ColdStore {
    /// Every row of the tier is a row of features.
    pub closed spec fn wf(&self) -> bool {
        &&& self.tier.wf()
        &&& self.tier@.row_bytes == self.feature_dim * self.dtype.size()
    }

    /// The rows were compressed at the level.
    pub closed spec fn compressed_at(&self, level: i32) -> bool {
        self.tier.compressed_at(level)
    }

    /// The dictionary that rows are compressed against; empty where there is none.
    pub closed spec fn dictionary(&self) -> Seq<u8> {
        self.tier.dictionary()
    }

    /// What a store shows of itself.
    pub proof fn lemma_shape(&self)
        requires
            self.wf(),
        ensures
            self@.wf(),
            self@.feature_dim > 0,
            self@.feature_dim <= usize::MAX,
    {
        self.tier.lemma_shape();
        assert(self.feature_dim > 0) by (nonlinear_arith)
            requires
                self.feature_dim * self.dtype.size() > 0,
                self.feature_dim >= 0,
        ;
    }

    /// Compresses the rows of a feature file at the given zstd level.
    pub fn build_from_store(bytes: &[u8], level: i32) -> (r: Result<ColdStore, ColdError>)
        ensures
            match feature_header_of(bytes@, bytes@.len() as u64) {
                Err(cause) => r == Err::<ColdStore, ColdError>(ColdError::Header { cause }),
                Ok(h) => exists|outcome: Option<Seq<u8>>| #[trigger]
                    trains(payload_of(bytes@, h), h.feature_size, outcome) && store_built(
                        bytes@,
                        h,
                        level,
                        outcome,
                        r,
                    ),
            },
    {
        let len: usize = bytes.len();
        let h = match parse_feature_header(bytes, len as u64) {
            Ok(h) => h,
            Err(cause) => {
                return Err(ColdError::Header { cause });
            },
        };
        proof {
            lemma_payload_fits(h.num_nodes as int, h.feature_dim as int, h.dtype.size());
        }
        let start: usize = h.features_start_offset as usize;
        let end: usize = start + h.num_nodes * h.feature_size;
        let payload = slice_subrange(bytes, start, end);
        proof {
            if h.feature_dim > 0 {
                assert(h.feature_size > 0) by (nonlinear_arith)
                    requires
                        h.feature_dim > 0,
                        h.feature_size == h.feature_dim * h.dtype.size(),
                        h.dtype.size() > 0,
                ;
                vstd::arithmetic::div_mod::lemma_mod_multiples_basic(
                    h.num_nodes as int,
                    h.feature_size as int,
                );
                vstd::arithmetic::div_mod::lemma_div_multiples_vanish(
                    h.num_nodes as int,
                    h.feature_size as int,
                );
                vstd::arithmetic::mul::lemma_mul_is_commutative(
                    h.num_nodes as int,
                    h.feature_size as int,
                );
                if h.num_nodes == 0 {
                    assert(0 * h.feature_size == 0) by (nonlinear_arith);
                }
            } else {
                assert(0 * h.dtype.size() == 0) by (nonlinear_arith);
            }
        }
        let tier = ColdTier::build(payload, h.feature_size, level);
        let ghost outcome = choose|outcome: Option<Seq<u8>>| #[trigger]
            trains(payload@, h.feature_size, outcome) && built(
                payload@,
                h.feature_size,
                level,
                outcome,
                tier,
            );
        assert(trains(payload_of(bytes@, h), h.feature_size, outcome));
        match tier {
            Ok(tier) => Ok(ColdStore { tier, dtype: h.dtype, feature_dim: h.feature_dim }),
            Err(e) => Err(e),
        }
    }

    /// Rows held by the store.
    pub fn num_rows(&self) -> (n: usize)
        ensures
            n == self@.num_nodes,
    {
        self.tier.num_rows()
    }

    /// Feature dimension of every row.
    pub fn feature_dim(&self) -> (n: usize)
        ensures
            n == self@.feature_dim,
    {
        self.feature_dim
    }

    /// The compressed rows.
    pub fn tier(&self) -> (t: &ColdTier)
        requires
            self.wf(),
        ensures
            t.wf(),
            t@.num_rows == self@.num_nodes,
            t@.row_bytes == self@.row_bytes(),
            t@.data == self@.payload,
    {
        &self.tier
    }

    /// Gathers the decoded rows of `nodes`, in the order of the list. Fails where
    /// gathering the raw rows does.
    pub fn gather(&self, nodes: &[u32]) -> (r: Result<Vec<u32>, ColdError>)
        requires
            self.wf(),
        ensures
            match r {
                Ok(out) => out@ == self@.rows(nodes@),
                Err(e) => exists|i: int|
                    self@.first_missing(nodes@, i) && e == (ColdError::RowOutOfRange {
                        row: #[trigger] nodes@[i],
                        num_rows: self@.num_nodes as usize,
                    }),
            },
            r is Ok <==> self@.has_all(nodes@),
    {
        let raw = match self.tier.gather_rows(nodes) {
            Ok(raw) => raw,
            Err(e) => {
                proof {
                    if !self@.has_all(nodes@) {
                        let i = choose|i: int|
                            self.tier@.first_missing(nodes@, i) && e == (ColdError::RowOutOfRange {
                                row: #[trigger] nodes@[i],
                                num_rows: self.tier@.num_rows as usize,
                            });
                        assert(self@.first_missing(nodes@, i) && nodes@[i] == nodes@[i]);
                    }
                }
                return Err(e);
            },
        };
        let mut out: Vec<u32> = Vec::new();
        let row_bytes: usize = self.tier.row_bytes();
        let mut i: usize = 0;
        let mut at: usize = 0;
        proof {
            self.tier.lemma_shape();
            lemma_gathered_len(self.tier@, nodes@);
        }
        let raw_len: usize = raw.len();
        while i < nodes.len()
            invariant
                self.wf(),
                i <= nodes@.len(),
                row_bytes == self.tier@.row_bytes,
                raw_len == raw@.len(),
                raw@ == self.tier@.rows(nodes@),
                raw@.len() == nodes@.len() * row_bytes,
                self@.has_all(nodes@),
                at == i * row_bytes,
                out@ == self@.rows(nodes@.take(i as int)),
            decreases nodes@.len() - i,
        {
            proof {
                lemma_row_inside(i as int, nodes@.len() as int, row_bytes as int);
                self.lemma_decoded(nodes@, raw@, i as int);
                assert((i + 1) * row_bytes == i * row_bytes + row_bytes) by (nonlinear_arith);
                let list = nodes@.take(i + 1);
                assert(list.drop_last() =~= nodes@.take(i as int));
                assert(list.last() == nodes@[i as int]);
            }
            self.dtype.push_row(raw.as_slice(), at, self.feature_dim, &mut out);
            at += row_bytes;
            i += 1;
        }
        assert(nodes@.take(i as int) =~= nodes@);
        Ok(out)
    }

    /// The row at place `i` of a gather decodes to the features of its node.
    proof fn lemma_decoded(&self, nodes: Seq<u32>, raw: Seq<u8>, i: int)
        requires
            self.wf(),
            self@.has_all(nodes),
            0 <= i < nodes.len(),
            raw == self.tier@.rows(nodes),
        ensures
            row_at(raw, self.dtype, i * self.tier@.row_bytes, self.feature_dim as nat)
                == self@.row(nodes[i] as int),
    {
        let v = self.tier@;
        self.tier.lemma_shape();
        lemma_gathered_row(v, nodes, i);
        lemma_gathered_len(v, nodes);
        lemma_row_inside(i, nodes.len() as int, v.row_bytes as int);
        lemma_row_inside(nodes[i] as int, v.num_rows as int, v.row_bytes as int);
        let dim = self.feature_dim as nat;
        let size = self.dtype.size();
        let from = i * v.row_bytes;
        let to = nodes[i] * v.row_bytes;
        let part = raw.subrange(from, from + v.row_bytes);
        assert(part == v.row(nodes[i] as int));
        assert forall|j: int| 0 <= j < dim implies #[trigger] row_at(raw, self.dtype, from, dim)[j]
            == row_at(v.data, self.dtype, to, dim)[j] by {
            assert(0 <= j * size && j * size + size <= dim * size) by (nonlinear_arith)
                requires
                    0 <= j,
                    j + 1 <= dim,
                    size > 0,
            ;
            let o = j * size;
            let row = v.row(nodes[i] as int);
            assert(part[o] == row[o] && part[o + 1] == row[o + 1]);
            assert(raw[from + o] == v.data[to + o] && raw[from + o + 1] == v.data[to + o + 1]);
            if size == 4 {
                assert(part[o + 2] == row[o + 2] && part[o + 3] == row[o + 3]);
                assert(raw[from + o + 2] == v.data[to + o + 2]);
                assert(raw[from + o + 3] == v.data[to + o + 3]);
            }
        }
        assert(row_at(raw, self.dtype, from, dim) =~= row_at(v.data, self.dtype, to, dim));
    }
}

/// How long a gather is.
proof fn lemma_gathered_len(v: RowsView, list: Seq<u32>)
    requires
        v.has_all(list),
        v.data.len() == v.num_rows * v.row_bytes,
    ensures
        v.rows(list).len() == list.len() * v.row_bytes,
    decreases list.len(),
{
    if list.len() > 0 {
        let rest = list.drop_last();
        assert forall|i: int| 0 <= i < rest.len() implies (#[trigger] rest[i]) < v.num_rows by {
            assert(rest[i] == list[i]);
        }
        lemma_gathered_len(v, rest);
        assert(list[list.len() - 1] < v.num_rows);
        lemma_row_inside(list.last() as int, v.num_rows as int, v.row_bytes as int);
        assert((list.len() - 1) * v.row_bytes + v.row_bytes == list.len() * v.row_bytes)
            by (nonlinear_arith);
    } else {
        assert(0 * v.row_bytes == 0) by (nonlinear_arith);
    }
}

/// Where a row stands in a gather.
proof fn lemma_gathered_row(v: RowsView, list: Seq<u32>, i: int)
    requires
        v.has_all(list),
        v.data.len() == v.num_rows * v.row_bytes,
        0 <= i < list.len(),
    ensures
        v.rows(list).subrange(i * v.row_bytes, i * v.row_bytes + v.row_bytes) == v.row(
            list[i] as int,
        ),
    decreases list.len(),
{
    let rest = list.drop_last();
    assert forall|k: int| 0 <= k < rest.len() implies (#[trigger] rest[k]) < v.num_rows by {
        assert(rest[k] == list[k]);
    }
    lemma_gathered_len(v, rest);
    lemma_gathered_len(v, list);
    assert(list[list.len() - 1] < v.num_rows);
    lemma_row_inside(list.last() as int, v.num_rows as int, v.row_bytes as int);
    lemma_row_inside(i, list.len() as int, v.row_bytes as int);
    let at = i * v.row_bytes;
    if i < rest.len() {
        lemma_gathered_row(v, rest, i);
        lemma_row_inside(i, rest.len() as int, v.row_bytes as int);
        assert(rest[i] == list[i]);
        assert(v.rows(list).subrange(at, at + v.row_bytes) =~= v.rows(rest).subrange(
            at,
            at + v.row_bytes,
        ));
    } else {
        assert(v.rows(list).subrange(at, at + v.row_bytes) =~= v.row(list[i] as int));
    }
}

/// A full gather gives back what went in: all rows in order are the data.
pub proof fn law_full_gather_is_the_data(v: RowsView, list: Seq<u32>)
    requires
        v.data.len() == v.num_rows * v.row_bytes,
        list.len() == v.num_rows,
        forall|i: int| 0 <= i < list.len() ==> (#[trigger] list[i]) == i,
    ensures
        v.rows(list) == v.data,
{
    lemma_gathered_len(v, list);
    assert forall|p: int| 0 <= p < v.data.len() implies #[trigger] v.rows(list)[p] == v.data[p] by {
        let i = p / v.row_bytes as int;
        let w = p % v.row_bytes as int;
        assert(v.row_bytes > 0) by (nonlinear_arith)
            requires
                p < v.num_rows * v.row_bytes,
                0 <= p,
        ;
        vstd::arithmetic::div_mod::lemma_fundamental_div_mod(p, v.row_bytes as int);
        assert(p == i * v.row_bytes + w && 0 <= w < v.row_bytes) by (nonlinear_arith)
            requires
                p == v.row_bytes * i + w,
                v.row_bytes > 0,
                w == p % v.row_bytes as int,
        ;
        assert(0 <= i < v.num_rows) by (nonlinear_arith)
            requires
                p == i * v.row_bytes + w,
                0 <= p < v.num_rows * v.row_bytes,
                0 <= w < v.row_bytes,
        ;
        lemma_gathered_row(v, list, i);
        lemma_row_inside(i, v.num_rows as int, v.row_bytes as int);
        let at = i * v.row_bytes;
        assert(v.rows(list).subrange(at, at + v.row_bytes)[w] == v.row(i)[w]);
    }
    assert(v.rows(list) =~= v.data);
}

/// A tier covers its data row by row, and a row is gathered just where it exists.
pub proof fn law_tier_covers_the_data(
    data: Seq<u8>,
    row_bytes: usize,
    level: i32,
    trained: Option<Seq<u8>>,
    t: ColdTier,
    row: u32,
)
    requires
        built(data, row_bytes, level, trained, Ok(t)),
    ensures
        t@.row_bytes == row_bytes,
        t@.num_rows * t@.row_bytes == data.len(),
        t@.has_all(seq![row]) <==> row < t@.num_rows,
        t@.rows(seq![row]) == t@.row(row as int),
{
    vstd::arithmetic::div_mod::lemma_fundamental_div_mod(data.len() as int, row_bytes as int);
    vstd::arithmetic::mul::lemma_mul_is_commutative(t@.num_rows as int, row_bytes as int);
    let list = seq![row];
    assert(list[0] == row);
    assert(list.drop_last() =~= Seq::<u32>::empty());
    reveal_with_fuel(RowsView::rows, 2);
    assert(t@.rows(list) =~= t@.row(row as int));
}

/// Data of few blocks is always compressed, as long as it ends with a row.
pub proof fn law_few_blocks_are_compressed(
    data: Seq<u8>,
    row_bytes: usize,
    level: i32,
    trained: Option<Seq<u8>>,
    r: Result<ColdTier, ColdError>,
)
    requires
        built(data, row_bytes, level, trained, r),
        blocks_in(data, row_bytes as nat) < DICTIONARY_BLOCKS,
    ensures
        r is Ok <==> whole_rows(data, row_bytes),
{
}

/// A cold store holds the same rows as the feature store of the same file.
pub proof fn law_cold_store_matches_feature_store(b: Seq<u8>)
    requires
        b.len() <= usize::MAX,
        stored_features(b) is Ok,
        feature_header_of(b, b.len() as u64) is Ok,
    ensures
        stored_features(b)->Ok_0 == (StoreView {
            num_nodes: feature_header_of(b, b.len() as u64)->Ok_0.num_nodes as nat,
            feature_dim: feature_header_of(b, b.len() as u64)->Ok_0.feature_dim as nat,
            dtype: feature_header_of(b, b.len() as u64)->Ok_0.dtype,
            payload: payload_of(b, feature_header_of(b, b.len() as u64)->Ok_0),
        }),
{
    lemma_payload_fits(claimed_nodes(b), claimed_dim(b), claimed_dtype(b).size());
}

/// Blocks cut the data every 512 rows: all are of that size but the last, which
/// has the rest and is not empty, and a row stands whole in the block of its
/// number.
pub proof fn law_blocks_cut_every_512_rows(data: Seq<u8>, row_bytes: usize, row: int)
    requires
        whole_rows(data, row_bytes),
        0 <= row < data.len() / row_bytes as nat,
    ensures
        ({
            let w = row_bytes as int;
            let size = 512 * w;
            let n = blocks_in(data, row_bytes as nat);
            let b = row / 512;
            let block = block_of(data, row_bytes as nat, b);
            let at = (row % 512) * w;
            &&& (n - 1) * size < data.len() <= n * size
            &&& 0 <= b < n
            &&& b < n - 1 ==> block.len() == size
            &&& b == n - 1 ==> block.len() == data.len() - (n - 1) * size
            &&& 0 <= at && at + w <= block.len()
            &&& block.subrange(at, at + w) == data.subrange(row * w, row * w + w)
        }),
{
    let w = row_bytes as int;
    let size = 512 * w;
    let len = data.len() as int;
    let n = blocks_in(data, row_bytes as nat);
    let b = row / 512;
    let at = (row % 512) * w;
    let rows = len / w;
    vstd::arithmetic::div_mod::lemma_fundamental_div_mod(len, w);
    assert(len == rows * w) by (nonlinear_arith)
        requires
            len == w * rows + len % w,
            len % w == 0,
    ;
    assert(row * w + w <= len) by (nonlinear_arith)
        requires
            len == rows * w,
            row + 1 <= rows,
            w > 0,
    ;
    assert(row * w == b * size + at) by (nonlinear_arith)
        requires
            row == 512 * b + row % 512,
            size == 512 * w,
            at == (row % 512) * w,
    ;
    assert(0 <= at && at + w <= size) by (nonlinear_arith)
        requires
            0 <= row % 512 < 512,
            at == (row % 512) * w,
            size == 512 * w,
            w > 0,
    ;
    assert(0 <= b * size) by (nonlinear_arith)
        requires
            b >= 0,
            size > 0,
    ;
    let x = len + size - 1;
    vstd::arithmetic::div_mod::lemma_fundamental_div_mod(x, size);
    vstd::arithmetic::div_mod::lemma_mod_bound(x, size);
    assert(n == x / size);
    assert(size * n == n * size) by (nonlinear_arith);
    assert((n - 1) * size == n * size - size) by (nonlinear_arith);
    assert((b + 1) * size == b * size + size) by (nonlinear_arith);
    assert(b < n) by (nonlinear_arith)
        requires
            b * size < len,
            len <= n * size,
            size > 0,
    ;
    if b < n - 1 {
        assert((b + 1) * size <= (n - 1) * size) by (nonlinear_arith)
            requires
                b + 1 <= n - 1,
                size > 0,
        ;
    }
    let block = block_of(data, row_bytes as nat, b);
    assert(block.subrange(at, at + w) =~= data.subrange(row * w, row * w + w));
}

/// Gathered rows stand one behind the other in the order of the list.
pub proof fn law_tier_rows_keep_the_order(v: RowsView, list: Seq<u32>, row: u32)
    ensures
        v.rows(Seq::empty()) == Seq::<u8>::empty(),
        v.rows(list.push(row)) == v.rows(list) + v.data.subrange(
            row * v.row_bytes,
            row * v.row_bytes + v.row_bytes,
        ),
{
    assert(list.push(row).drop_last() =~= list);
}

/// A row that is taken out of decompressed blocks is the stretch of its block
/// that its place among the block's 512 rows gives.
pub proof fn law_row_is_taken_from_its_block(
    rows: Seq<u32>,
    row: u32,
    row_bytes: nat,
    needed: Seq<u64>,
    raws: Seq<Vec<u8>>,
    k: int,
)
    requires
        forall|i: int, j: int| 0 <= i < j < needed.len() ==> needed[i] < needed[j],
        0 <= k < needed.len(),
        needed[k] == row / 512,
    ensures
        rows_in_blocks(Seq::empty(), row_bytes, needed, raws) == Seq::<u8>::empty(),
        rows_in_blocks(rows.push(row), row_bytes, needed, raws) == rows_in_blocks(
            rows,
            row_bytes,
            needed,
            raws,
        ) + raws[k]@.subrange(
            (row as int % 512) * row_bytes,
            (row as int % 512) * row_bytes + row_bytes,
        ),
{
    assert(rows.push(row).drop_last() =~= rows);
    let j = choose|j: int|
        0 <= j < needed.len() && needed[j] == (row / ROWS_PER_BLOCK as u32) as u64;
    assert(needed[k] == (row / ROWS_PER_BLOCK as u32) as u64);
    if j < k {
        assert(needed[j] < needed[k]);
    } else if k < j {
        assert(needed[k] < needed[j]);
    }
}

/// A dictionary gets a hundredth of the data, but at least 4 KiB and at most
/// 112 KiB, and is trained only for eight blocks or more.
pub proof fn law_dictionary_size_is_bounded(len: nat)
    ensures
        4096 <= dictionary_bytes(len) <= 114688,
        409600 <= len <= 11468800 ==> dictionary_bytes(len) == len / 100,
        len < 409600 ==> dictionary_bytes(len) == 4096,
        len >= 11468900 ==> dictionary_bytes(len) == 114688,
{
}

/// With fewer than eight blocks no dictionary is used, whatever was trained; with
/// eight or more the trained one is, if there is one.
pub proof fn law_dictionary_needs_eight_blocks(
    data: Seq<u8>,
    row_bytes: nat,
    trained: Option<Seq<u8>>,
)
    ensures
        blocks_in(data, row_bytes) < 8 ==> chosen_dictionary(data, row_bytes, trained)
            == Seq::<u8>::empty(),
        trained is None ==> chosen_dictionary(data, row_bytes, trained) == Seq::<u8>::empty(),
        blocks_in(data, row_bytes) >= 8 && trained is Some ==> chosen_dictionary(
            data,
            row_bytes,
            trained,
        ) == trained->0,
{
}

/// The first missing row of a list is the first that the tier does not have;
/// there is none exactly if it has all.
pub proof fn law_first_missing_row(v: RowsView, list: Seq<u32>, i: int)
    ensures
        v.first_missing(list, i) <==> {
            &&& 0 <= i < list.len()
            &&& list[i] >= v.num_rows
            &&& forall|k: int| 0 <= k < i ==> (#[trigger] list[k]) < v.num_rows
        },
        v.first_missing(list, i) ==> !v.has_all(list),
        v.has_all(list) && 0 <= i < list.len() ==> list[i] < v.num_rows,
{
}

/// A message tells the numbers of its error, in this order.
pub proof fn law_cold_messages_tell_their_numbers(e: ColdError)
    ensures
        match e {
            ColdError::Ragged { len, row_bytes } => tells(
                e.text(),
                seq![decimal(len as nat), decimal(row_bytes as nat)],
            ),
            ColdError::RowOutOfRange { row, num_rows } => tells(
                e.text(),
                seq![decimal(row as nat), decimal(num_rows as nat)],
            ),
            ColdError::BlockLength { block, len, expected } => tells(
                e.text(),
                seq![decimal(block as nat), decimal(len as nat), decimal(expected as nat)],
            ),
            _ => true,
        },
{
    match e {
        ColdError::Ragged { len, row_bytes } => {
            lemma_tells_two(
                e.text(),
                "data length "@,
                decimal(len as nat),
                " is not a multiple of row_bytes "@,
                decimal(row_bytes as nat),
                Seq::<char>::empty(),
            );
        },
        ColdError::RowOutOfRange { row, num_rows } => {
            lemma_tells_two(
                e.text(),
                "row "@,
                decimal(row as nat),
                " out of range (num_rows="@,
                decimal(num_rows as nat),
                ")"@,
            );
        },
        ColdError::BlockLength { block, len, expected } => {
            lemma_tells_three(
                e.text(),
                "block "@,
                decimal(block as nat),
                " decompressed to "@,
                decimal(len as nat),
                " bytes, expected "@,
                decimal(expected as nat),
                Seq::<char>::empty(),
            );
        },
        _ => {},
    }
}

} // verus!
