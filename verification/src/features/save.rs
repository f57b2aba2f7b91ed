//! Writing feature files.
use vstd::prelude::*;
use crate::bytes::{
    le8, lemma_holds_between, lemma_u16s_word, lemma_u32s_round_trip, lemma_u64_round_trip, push_u16s,
    push_u32s, push_u64, push_zeros, u16s_le, u32s_at, u32s_le, u64_le,
};
use super::error::FeatureError;
use super::half_float::widened;
use super::header::{
    claimed_dtype, lemma_row_inside, FeatureDtype, FEATURE_MAGIC, MAX_FEATURE_DIM,
    MAX_FEATURE_NODES,
};
use super::store::{
    store_layout, stored_features, FeatureData, StoreLayout, StoreView, ALIGNED_DATA_OFFSET,
};

verus! {

/// The part of a file before the payload.
pub open spec fn feature_head(dtype: FeatureDtype, num_nodes: u64, feature_dim: u64) -> Seq<u8> {
    u64_le(FEATURE_MAGIC) + u64_le(num_nodes) + u64_le(feature_dim) + u64_le(
        ALIGNED_DATA_OFFSET as u64,
    ) + seq![dtype.code()] + Seq::new(479, |i: int| 0u8)
}

/// Appends the part of a file before the payload.
fn push_head(out: &mut Vec<u8>, dtype: FeatureDtype, num_nodes: u64, feature_dim: u64)
    ensures
        final(out)@ == old(out)@ + feature_head(dtype, num_nodes, feature_dim),
{
    push_u64(out, FEATURE_MAGIC);
    push_u64(out, num_nodes);
    push_u64(out, feature_dim);
    push_u64(out, ALIGNED_DATA_OFFSET as u64);
    out.push(dtype.tag());
    push_zeros(out, 479);
    assert(out@ =~= old(out)@ + feature_head(dtype, num_nodes, feature_dim));
}

/// What is wrong with an array of `len` features for `num_nodes` nodes.
pub open spec fn array_complaint(len: int, num_nodes: usize, feature_dim: usize) -> Option<
    FeatureError,
> {
    if num_nodes * feature_dim > usize::MAX {
        Some(FeatureError::ArrayOverflow)
    } else if len != num_nodes * feature_dim {
        Some(
            FeatureError::ArrayLength {
                expected: (num_nodes * feature_dim) as usize,
                len: len as usize,
            },
        )
    } else {
        None
    }
}

fn check_array(len: usize, num_nodes: usize, feature_dim: usize) -> (r: Result<(), FeatureError>)
    ensures
        match array_complaint(len as int, num_nodes, feature_dim) {
            Some(e) => r == Err::<(), FeatureError>(e),
            None => r == Ok::<(), FeatureError>(()),
        },
{
    match num_nodes.checked_mul(feature_dim) {
        None => Err(FeatureError::ArrayOverflow),
        Some(expected) => {
            if len != expected {
                Err(FeatureError::ArrayLength { expected, len })
            } else {
                Ok(())
            }
        },
    }
}

/// The bytes of a file of single-precision features.
pub open spec fn feature_file(features: Seq<u32>, num_nodes: u64, feature_dim: u64) -> Seq<u8> {
    feature_head(FeatureDtype::F32, num_nodes, feature_dim) + u32s_le(features)
}

/// The bytes of a file of half-precision features.
pub open spec fn half_feature_file(halves: Seq<u16>, num_nodes: u64, feature_dim: u64) -> Seq<u8> {
    feature_head(FeatureDtype::F16, num_nodes, feature_dim) + u16s_le(halves)
}

/// Writes a file of single-precision features, given as bit patterns.
pub fn save_features(features: &[u32], num_nodes: usize, feature_dim: usize) -> (r: Result<
    Vec<u8>,
    FeatureError,
>)
    ensures
        match array_complaint(features@.len() as int, num_nodes, feature_dim) {
            Some(e) => r == Err::<Vec<u8>, FeatureError>(e),
            None => r matches Ok(b) && b@ == feature_file(
                features@,
                num_nodes as u64,
                feature_dim as u64,
            ),
        },
{
    match check_array(features.len(), num_nodes, feature_dim) {
        Ok(_) => {},
        Err(e) => {
            return Err(e);
        },
    }
    let mut out: Vec<u8> = Vec::new();
    push_head(&mut out, FeatureDtype::F32, num_nodes as u64, feature_dim as u64);
    push_u32s(&mut out, features);
    assert(out@ =~= feature_file(features@, num_nodes as u64, feature_dim as u64));
    Ok(out)
}

/// Writes a file of half-precision features, given as bit patterns.
pub fn save_features_f16(halves: &[u16], num_nodes: usize, feature_dim: usize) -> (r: Result<
    Vec<u8>,
    FeatureError,
>)
    ensures
        match array_complaint(halves@.len() as int, num_nodes, feature_dim) {
            Some(e) => r == Err::<Vec<u8>, FeatureError>(e),
            None => r matches Ok(b) && b@ == half_feature_file(
                halves@,
                num_nodes as u64,
                feature_dim as u64,
            ),
        },
{
    match check_array(halves.len(), num_nodes, feature_dim) {
        Ok(_) => {},
        Err(e) => {
            return Err(e);
        },
    }
    let mut out: Vec<u8> = Vec::new();
    push_head(&mut out, FeatureDtype::F16, num_nodes as u64, feature_dim as u64);
    push_u16s(&mut out, halves);
    assert(out@ =~= half_feature_file(halves@, num_nodes as u64, feature_dim as u64));
    Ok(out)
}

/// Creates features of zeros, to be filled row by row and saved with
/// [`save_feature_data`].
pub fn create_features(num_nodes: usize, feature_dim: usize) -> (d: FeatureData)
    requires
        num_nodes * feature_dim <= usize::MAX,
    ensures
        d.wf(),
        d.num_nodes == num_nodes,
        d.feature_dim == feature_dim,
        d.features@ == Seq::new((num_nodes * feature_dim) as nat, |i: int| 0u32),
{
    FeatureData::new(num_nodes, feature_dim)
}

/// Writes a file of constructed features.
pub fn save_feature_data(data: &FeatureData) -> (r: Result<Vec<u8>, FeatureError>)
    requires
        data.num_nodes <= usize::MAX,
        data.feature_dim <= usize::MAX,
    ensures
        match array_complaint(
            data.features@.len() as int,
            data.num_nodes as usize,
            data.feature_dim as usize,
        ) {
            Some(e) => r == Err::<Vec<u8>, FeatureError>(e),
            None => r matches Ok(b) && b@ == feature_file(
                data.features@,
                data.num_nodes,
                data.feature_dim,
            ),
        },
{
    save_features(data.features.as_slice(), data.num_nodes as usize, data.feature_dim as usize)
}

/// A head followed by a payload of the right length is a file of those rows.
proof fn lemma_head_reads_back(
    dtype: FeatureDtype,
    num_nodes: usize,
    feature_dim: usize,
    payload: Seq<u8>,
)
    requires
        num_nodes <= MAX_FEATURE_NODES,
        feature_dim <= MAX_FEATURE_DIM,
        payload.len() == num_nodes * (feature_dim * dtype.size()),
        ALIGNED_DATA_OFFSET + payload.len() <= usize::MAX,
    ensures
        stored_features(feature_head(dtype, num_nodes as u64, feature_dim as u64) + payload) == Ok::<
            StoreView,
            FeatureError,
        >(
            StoreView {
                num_nodes: num_nodes as nat,
                feature_dim: feature_dim as nat,
                dtype,
                payload,
            },
        ),
{
    let n = num_nodes as u64;
    let d = feature_dim as u64;
    let head = feature_head(dtype, n, d);
    let b = head + payload;
    let m = u64_le(FEATURE_MAGIC);
    let nb = u64_le(n);
    let db = u64_le(d);
    let ob = u64_le(ALIGNED_DATA_OFFSET as u64);
    let rest = seq![dtype.code()] + Seq::new(479, |i: int| 0u8);
    assert(b =~= Seq::<u8>::empty() + m + (nb + db + ob + rest + payload));
    lemma_holds_between(Seq::empty(), m, nb + db + ob + rest + payload);
    assert(b =~= m + nb + (db + ob + rest + payload));
    lemma_holds_between(m, nb, db + ob + rest + payload);
    assert(b =~= (m + nb) + db + (ob + rest + payload));
    lemma_holds_between(m + nb, db, ob + rest + payload);
    assert(b =~= (m + nb + db) + ob + (rest + payload));
    lemma_holds_between(m + nb + db, ob, rest + payload);
    lemma_u64_round_trip(b, 0, FEATURE_MAGIC);
    lemma_u64_round_trip(b, 8, n);
    lemma_u64_round_trip(b, 16, d);
    lemma_u64_round_trip(b, 24, ALIGNED_DATA_OFFSET as u64);
    assert(head.len() == ALIGNED_DATA_OFFSET);
    assert(b[32] == dtype.code()) by {
        assert(b[32] == head[32]);
    }
    let l = StoreLayout { num_nodes, feature_dim, start: ALIGNED_DATA_OFFSET, dtype };
    assert(claimed_dtype(b) == dtype);
    assert(store_layout(b) == Ok::<StoreLayout, FeatureError>(l));
    assert(b.subrange(ALIGNED_DATA_OFFSET as int, ALIGNED_DATA_OFFSET + payload.len())
        =~= payload);
}

/// Saved single-precision features load back: the file is read as one of the
/// same nodes and dimensions, and each node has the row that was saved for it.
pub proof fn law_features_round_trip(features: Seq<u32>, num_nodes: usize, feature_dim: usize)
    requires
        num_nodes <= MAX_FEATURE_NODES,
        feature_dim <= MAX_FEATURE_DIM,
        features.len() == num_nodes * feature_dim,
        ALIGNED_DATA_OFFSET + 4 * features.len() <= usize::MAX,
    ensures
        stored_features(feature_file(features, num_nodes as u64, feature_dim as u64)) matches Ok(s)
            && s.num_nodes == num_nodes && s.feature_dim == feature_dim && s.dtype
            == FeatureDtype::F32 && forall|i: int|
            0 <= i < num_nodes ==> #[trigger] s.row(i) == features.subrange(
                i * feature_dim,
                i * feature_dim + feature_dim,
            ),
{
    let n = num_nodes as int;
    let d = feature_dim as int;
    let payload = u32s_le(features);
    assert(n * (d * 4) == 4 * (n * d)) by (nonlinear_arith);
    lemma_head_reads_back(FeatureDtype::F32, num_nodes, feature_dim, payload);
    let s = StoreView {
        num_nodes: num_nodes as nat,
        feature_dim: feature_dim as nat,
        dtype: FeatureDtype::F32,
        payload,
    };
    assert forall|i: int| 0 <= i < n implies #[trigger] s.row(i) == features.subrange(
        i * d,
        i * d + d,
    ) by {
        lemma_row_inside(i, n, d);
        assert(i * (d * 4) == 4 * (i * d)) by (nonlinear_arith);
        lemma_holds_between(Seq::empty(), payload, Seq::empty());
        assert(Seq::<u8>::empty() + payload + Seq::<u8>::empty() =~= payload);
        lemma_u32s_round_trip(payload, 0, features);
        assert forall|j: int| 0 <= j < d implies s.row(i)[j] == features.subrange(
            i * d,
            i * d + d,
        )[j] by {
            assert(u32s_at(payload, 0, features.len())[i * d + j] == features[i * d + j]);
        }
        assert(s.row(i) =~= features.subrange(i * d, i * d + d));
    }
}

/// Saved half-precision features load back, each widened to single precision.
pub proof fn law_half_features_round_trip(halves: Seq<u16>, num_nodes: usize, feature_dim: usize)
    requires
        num_nodes <= MAX_FEATURE_NODES,
        feature_dim <= MAX_FEATURE_DIM,
        halves.len() == num_nodes * feature_dim,
        ALIGNED_DATA_OFFSET + 2 * halves.len() <= usize::MAX,
    ensures
        stored_features(half_feature_file(halves, num_nodes as u64, feature_dim as u64)) matches Ok(
            s,
        ) && s.num_nodes == num_nodes && s.feature_dim == feature_dim && s.dtype
            == FeatureDtype::F16 && forall|i: int|
            0 <= i < num_nodes ==> #[trigger] s.row(i) == halves.subrange(
                i * feature_dim,
                i * feature_dim + feature_dim,
            ).map_values(|h: u16| widened(h) as u32),
{
    let n = num_nodes as int;
    let d = feature_dim as int;
    let payload = u16s_le(halves);
    assert(n * (d * 2) == 2 * (n * d)) by (nonlinear_arith);
    lemma_head_reads_back(FeatureDtype::F16, num_nodes, feature_dim, payload);
    let s = StoreView {
        num_nodes: num_nodes as nat,
        feature_dim: feature_dim as nat,
        dtype: FeatureDtype::F16,
        payload,
    };
    assert forall|i: int| 0 <= i < n implies #[trigger] s.row(i) == halves.subrange(
        i * d,
        i * d + d,
    ).map_values(|h: u16| widened(h) as u32) by {
        lemma_row_inside(i, n, d);
        assert(i * (d * 2) == 2 * (i * d)) by (nonlinear_arith);
        lemma_holds_between(Seq::empty(), payload, Seq::empty());
        assert(Seq::<u8>::empty() + payload + Seq::<u8>::empty() =~= payload);
        let want = halves.subrange(i * d, i * d + d).map_values(|h: u16| widened(h) as u32);
        assert forall|j: int| 0 <= j < d implies s.row(i)[j] == want[j] by {
            lemma_u16s_word(payload, 0, halves, i * d + j);
        }
        assert(s.row(i) =~= want);
    }
}

/// A written feature file: magic number, nodes, dimensions, the payload at byte
/// 512, the element type, zeros, and the values behind them.
pub proof fn law_feature_file_layout(features: Seq<u32>, num_nodes: u64, feature_dim: u64, i: int)
    ensures
        ({
            let b = feature_file(features, num_nodes, feature_dim);
            &&& b.len() == 512 + 4 * features.len()
            &&& le8(b, 0) == 0x5441_4546_4854_4541
            &&& le8(b, 8) == num_nodes
            &&& le8(b, 16) == feature_dim
            &&& le8(b, 24) == 512
            &&& b[32] == 0
            &&& 32 < i < 512 ==> b[i] == 0
            &&& b.subrange(512, b.len() as int) == u32s_le(features)
        }),
{
    let b = feature_file(features, num_nodes, feature_dim);
    lemma_head_bytes(FeatureDtype::F32, num_nodes, feature_dim, u32s_le(features), i);
    assert(b.subrange(512, b.len() as int) =~= u32s_le(features));
}

/// A written file of half-precision values: the same with element type 1 and
/// two bytes per value.
pub proof fn law_half_feature_file_layout(
    halves: Seq<u16>,
    num_nodes: u64,
    feature_dim: u64,
    i: int,
)
    ensures
        ({
            let b = half_feature_file(halves, num_nodes, feature_dim);
            &&& b.len() == 512 + 2 * halves.len()
            &&& le8(b, 0) == 0x5441_4546_4854_4541
            &&& le8(b, 8) == num_nodes
            &&& le8(b, 16) == feature_dim
            &&& le8(b, 24) == 512
            &&& b[32] == 1
            &&& 32 < i < 512 ==> b[i] == 0
            &&& b.subrange(512, b.len() as int) == u16s_le(halves)
        }),
{
    let b = half_feature_file(halves, num_nodes, feature_dim);
    lemma_head_bytes(FeatureDtype::F16, num_nodes, feature_dim, u16s_le(halves), i);
    assert(b.subrange(512, b.len() as int) =~= u16s_le(halves));
}

proof fn lemma_head_bytes(
    dtype: FeatureDtype,
    num_nodes: u64,
    feature_dim: u64,
    rest: Seq<u8>,
    i: int,
)
    ensures
        ({
            let b = feature_head(dtype, num_nodes, feature_dim) + rest;
            &&& feature_head(dtype, num_nodes, feature_dim).len() == 512
            &&& le8(b, 0) == FEATURE_MAGIC
            &&& le8(b, 8) == num_nodes
            &&& le8(b, 16) == feature_dim
            &&& le8(b, 24) == 512
            &&& b[32] == dtype.code()
            &&& 32 < i < 512 ==> b[i] == 0
        }),
{
    let head = feature_head(dtype, num_nodes, feature_dim);
    let b = head + rest;
    let m = u64_le(FEATURE_MAGIC);
    let nb = u64_le(num_nodes);
    let db = u64_le(feature_dim);
    let ob = u64_le(ALIGNED_DATA_OFFSET as u64);
    let tail = seq![dtype.code()] + Seq::new(479, |i: int| 0u8) + rest;
    assert(b =~= Seq::<u8>::empty() + m + (nb + db + ob + tail));
    lemma_holds_between(Seq::empty(), m, nb + db + ob + tail);
    assert(b =~= m + nb + (db + ob + tail));
    lemma_holds_between(m, nb, db + ob + tail);
    assert(b =~= (m + nb) + db + (ob + tail));
    lemma_holds_between(m + nb, db, ob + tail);
    assert(b =~= (m + nb + db) + ob + tail);
    lemma_holds_between(m + nb + db, ob, tail);
    lemma_u64_round_trip(b, 0, FEATURE_MAGIC);
    lemma_u64_round_trip(b, 8, num_nodes);
    lemma_u64_round_trip(b, 16, feature_dim);
    lemma_u64_round_trip(b, 24, ALIGNED_DATA_OFFSET as u64);
    assert(b[32] == head[32]);
    if 32 < i < 512 {
        assert(b[i] == head[i]);
    }
}

/// An array is written exactly if it has one value per node and dimension; a
/// product that does not fit is reported first.
pub proof fn law_array_has_a_value_per_node_and_dimension(
    len: int,
    num_nodes: usize,
    feature_dim: usize,
)
    requires
        0 <= len <= usize::MAX,
    ensures
        array_complaint(len, num_nodes, feature_dim) is None <==> len == num_nodes * feature_dim,
        num_nodes * feature_dim > usize::MAX <==> array_complaint(len, num_nodes, feature_dim)
            == Some(FeatureError::ArrayOverflow),
        num_nodes * feature_dim <= usize::MAX && len != num_nodes * feature_dim ==> (
        array_complaint(len, num_nodes, feature_dim) matches Some(
            FeatureError::ArrayLength { expected, len: got },
        ) && expected == num_nodes * feature_dim && got == len),
{
}

} // verus!
