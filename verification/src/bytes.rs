//! Little-endian encoding of the integers that files and device commands hold.
use vstd::prelude::*;

verus! {

/// Byte `k` of the little-endian form of `x`, for `k` below 8.
pub open spec fn le_byte(x: int, k: int) -> u8 {
    if k == 0 {
        (x % 0x100) as u8
    } else if k == 1 {
        ((x / 0x100) % 0x100) as u8
    } else if k == 2 {
        ((x / 0x1_0000) % 0x100) as u8
    } else if k == 3 {
        ((x / 0x100_0000) % 0x100) as u8
    } else if k == 4 {
        ((x / 0x1_0000_0000) % 0x100) as u8
    } else if k == 5 {
        ((x / 0x100_0000_0000) % 0x100) as u8
    } else if k == 6 {
        ((x / 0x1_0000_0000_0000) % 0x100) as u8
    } else {
        ((x / 0x100_0000_0000_0000) % 0x100) as u8
    }
}

/// The little-endian bytes of a `u16`.
pub open spec fn u16_le(x: u16) -> Seq<u8> {
    Seq::new(2, |k: int| le_byte(x as int, k))
}

/// The little-endian bytes of a `u32`.
pub open spec fn u32_le(x: u32) -> Seq<u8> {
    Seq::new(4, |k: int| le_byte(x as int, k))
}

/// The little-endian bytes of a `u64`.
pub open spec fn u64_le(x: u64) -> Seq<u8> {
    Seq::new(8, |k: int| le_byte(x as int, k))
}

/// The integer whose little-endian form starts at `at` and takes two bytes.
pub open spec fn le2(b: Seq<u8>, at: int) -> int {
    b[at] + 0x100 * b[at + 1]
}

/// The integer whose little-endian form starts at `at` and takes four bytes.
pub open spec fn le4(b: Seq<u8>, at: int) -> int {
    b[at] + 0x100 * b[at + 1] + 0x1_0000 * b[at + 2] + 0x100_0000 * b[at + 3]
}

/// The integer whose little-endian form starts at `at` and takes eight bytes.
pub open spec fn le8(b: Seq<u8>, at: int) -> int {
    le4(b, at) + 0x1_0000_0000 * le4(b, at + 4)
}

/// The concatenated little-endian bytes of a sequence of `u32`.
pub open spec fn u32s_le(v: Seq<u32>) -> Seq<u8> {
    Seq::new(4 * v.len(), |i: int| le_byte(v[i / 4] as int, i % 4))
}

/// The concatenated little-endian bytes of a sequence of `u64`.
pub open spec fn u64s_le(v: Seq<u64>) -> Seq<u8> {
    Seq::new(8 * v.len(), |i: int| le_byte(v[i / 8] as int, i % 8))
}

/// The concatenated little-endian bytes of a sequence of `u16`.
pub open spec fn u16s_le(v: Seq<u16>) -> Seq<u8> {
    Seq::new(2 * v.len(), |i: int| le_byte(v[i / 2] as int, i % 2))
}

/// The `count` words of four bytes that start at `at`.
pub open spec fn u32s_at(b: Seq<u8>, at: int, count: nat) -> Seq<u32> {
    Seq::new(count, |i: int| le4(b, at + 4 * i) as u32)
}

/// The `count` words of eight bytes that start at `at`.
pub open spec fn u64s_at(b: Seq<u8>, at: int, count: nat) -> Seq<u64> {
    Seq::new(count, |i: int| le8(b, at + 8 * i) as u64)
}

/// Whether `part` stands in `b` from position `at` on.
pub open spec fn holds_at(b: Seq<u8>, at: int, part: Seq<u8>) -> bool {
    &&& 0 <= at
    &&& at + part.len() <= b.len()
    &&& forall|i: int| #![trigger part[i]] 0 <= i < part.len() ==> b[at + i] == part[i]
}

/// A part stands where the bytes before it end.
pub proof fn lemma_holds_between(pre: Seq<u8>, part: Seq<u8>, post: Seq<u8>)
    ensures
        holds_at(pre + part + post, pre.len() as int, part),
{
}

/// A part of a part is a part of the whole.
pub proof fn lemma_holds_inside(b: Seq<u8>, at: int, part: Seq<u8>, off: int, inner: Seq<u8>)
    requires
        holds_at(b, at, part),
        holds_at(part, off, inner),
    ensures
        holds_at(b, at + off, inner),
{
    assert forall|i: int| #![trigger inner[i]] 0 <= i < inner.len() implies b[at + off + i]
        == inner[i] by {
        assert(part[off + i] == inner[i]);
        assert(b[at + (off + i)] == part[off + i]);
    }
}

/// Two bytes read back as the `u16` that wrote them.
pub proof fn lemma_u16_round_trip(b: Seq<u8>, at: int, x: u16)
    requires
        holds_at(b, at, u16_le(x)),
    ensures
        le2(b, at) == x,
{
    let p = u16_le(x);
    assert(p[0] == b[at] && p[1] == b[at + 1]);
}

/// Four bytes read back as the `u32` that wrote them.
pub proof fn lemma_u32_round_trip(b: Seq<u8>, at: int, x: u32)
    requires
        holds_at(b, at, u32_le(x)),
    ensures
        le4(b, at) == x,
{
    let p = u32_le(x);
    assert(p[0] == b[at] && p[1] == b[at + 1] && p[2] == b[at + 2] && p[3] == b[at + 3]);
}

/// The low bytes of a `u64` are the bytes of its low half.
proof fn lemma_u64_low_half(x: u64, k: int)
    requires
        0 <= k < 4,
    ensures
        le_byte(x as int % 0x1_0000_0000, k) == le_byte(x as int, k),
{
    assert((x % 0x1_0000_0000) % 0x100 == x % 0x100) by (bit_vector);
    assert(((x % 0x1_0000_0000) / 0x100) % 0x100 == (x / 0x100) % 0x100) by (bit_vector);
    assert(((x % 0x1_0000_0000) / 0x1_0000) % 0x100 == (x / 0x1_0000) % 0x100) by (bit_vector);
    assert(((x % 0x1_0000_0000) / 0x100_0000) % 0x100 == (x / 0x100_0000) % 0x100)
        by (bit_vector);
}

/// The high bytes of a `u64` are the bytes of its high half.
proof fn lemma_u64_high_half(x: int, k: int)
    requires
        0 <= x <= u64::MAX,
        0 <= k < 4,
    ensures
        le_byte(x / 0x1_0000_0000, k) == le_byte(x, 4 + k),
{
    let hi = x / 0x1_0000_0000;
    if k == 1 {
        assert(x / 0x100_0000_0000 == hi / 0x100);
    } else if k == 2 {
        assert(x / 0x1_0000_0000_0000 == hi / 0x1_0000);
    } else if k == 3 {
        assert(x / 0x100_0000_0000_0000 == hi / 0x100_0000);
    }
}

/// Eight bytes read back as the `u64` that wrote them.
pub proof fn lemma_u64_round_trip(b: Seq<u8>, at: int, x: u64)
    requires
        holds_at(b, at, u64_le(x)),
    ensures
        le8(b, at) == x,
{
    let p = u64_le(x);
    let lo = (x as int % 0x1_0000_0000) as u32;
    let hi = (x as int / 0x1_0000_0000) as u32;
    assert forall|i: int| 0 <= i < 4 implies b[at + i] == #[trigger] u32_le(lo)[i] by {
        assert(p[i] == b[at + i]);
        lemma_u64_low_half(x, i);
    }
    assert forall|i: int| 0 <= i < 4 implies b[at + 4 + i] == #[trigger] u32_le(hi)[i] by {
        assert(p[4 + i] == b[at + (4 + i)]);
        lemma_u64_high_half(x as int, i);
    }
    lemma_u32_round_trip(b, at, lo);
    lemma_u32_round_trip(b, at + 4, hi);
}

/// A word of a stored sequence of `u16` reads back as itself.
pub proof fn lemma_u16s_word(b: Seq<u8>, at: int, v: Seq<u16>, i: int)
    requires
        holds_at(b, at, u16s_le(v)),
        0 <= i < v.len(),
    ensures
        le2(b, at + 2 * i) == v[i],
{
    let p = u16s_le(v);
    assert forall|k: int| 0 <= k < 2 implies b[at + 2 * i + k] == #[trigger] u16_le(v[i])[k] by {
        assert(p[2 * i + k] == b[at + (2 * i + k)]);
        assert((2 * i + k) / 2 == i && (2 * i + k) % 2 == k);
    }
    lemma_u16_round_trip(b, at + 2 * i, v[i]);
}

/// A stored sequence of `u32` reads back as itself.
pub proof fn lemma_u32s_round_trip(b: Seq<u8>, at: int, v: Seq<u32>)
    requires
        holds_at(b, at, u32s_le(v)),
    ensures
        u32s_at(b, at, v.len()) == v,
{
    let p = u32s_le(v);
    assert forall|i: int| 0 <= i < v.len() implies u32s_at(b, at, v.len())[i] == v[i] by {
        assert(p[4 * i] == b[at + 4 * i]);
        assert(p[4 * i + 1] == b[at + (4 * i + 1)]);
        assert(p[4 * i + 2] == b[at + (4 * i + 2)]);
        assert(p[4 * i + 3] == b[at + (4 * i + 3)]);
        assert forall|k: int| 0 <= k < 4 implies b[at + 4 * i + k] == #[trigger] u32_le(v[i])[k] by {
            assert(p[4 * i + k] == b[at + (4 * i + k)]);
            assert((4 * i + k) / 4 == i && (4 * i + k) % 4 == k);
        }
        lemma_u32_round_trip(b, at + 4 * i, v[i]);
    }
    assert(u32s_at(b, at, v.len()) =~= v);
}

/// A stored sequence of `u64` reads back as itself.
pub proof fn lemma_u64s_round_trip(b: Seq<u8>, at: int, v: Seq<u64>)
    requires
        holds_at(b, at, u64s_le(v)),
    ensures
        u64s_at(b, at, v.len()) == v,
{
    let p = u64s_le(v);
    assert forall|i: int| 0 <= i < v.len() implies u64s_at(b, at, v.len())[i] == v[i] by {
        assert forall|k: int| 0 <= k < 8 implies b[at + 8 * i + k] == #[trigger] u64_le(v[i])[k] by {
            assert(p[8 * i + k] == b[at + (8 * i + k)]);
            assert((8 * i + k) / 8 == i && (8 * i + k) % 8 == k);
        }
        lemma_u64_round_trip(b, at + 8 * i, v[i]);
    }
    assert(u64s_at(b, at, v.len()) =~= v);
}

/// Reads the `u16` that starts at `at`.
pub fn read_u16(b: &[u8], at: usize) -> (x: u16)
    requires
        at + 2 <= b@.len(),
    ensures
        x == le2(b@, at as int),
{
    b[at] as u16 + 0x100 * (b[at + 1] as u16)
}

/// Reads the `u32` that starts at `at`.
pub fn read_u32(b: &[u8], at: usize) -> (x: u32)
    requires
        at + 4 <= b@.len(),
    ensures
        x == le4(b@, at as int),
{
    b[at] as u32 + 0x100 * (b[at + 1] as u32) + 0x1_0000 * (b[at + 2] as u32) + 0x100_0000 * (b[at
        + 3] as u32)
}

/// Reads the `u64` that starts at `at`.
pub fn read_u64(b: &[u8], at: usize) -> (x: u64)
    requires
        at + 8 <= b@.len(),
    ensures
        x == le8(b@, at as int),
{
    let len: usize = b.len();
    assert(at + 8 <= len);
    read_u32(b, at) as u64 + 0x1_0000_0000 * (read_u32(b, at + 4) as u64)
}

/// Appends the two bytes of `x`.
pub fn push_u16(out: &mut Vec<u8>, x: u16)
    ensures
        final(out)@ == old(out)@ + u16_le(x),
{
    out.push((x % 0x100) as u8);
    out.push((x / 0x100) as u8);
    assert(out@ =~= old(out)@ + u16_le(x));
}

/// Appends the four bytes of `x`.
pub fn push_u32(out: &mut Vec<u8>, x: u32)
    ensures
        final(out)@ == old(out)@ + u32_le(x),
{
    out.push((x % 0x100) as u8);
    out.push(((x / 0x100) % 0x100) as u8);
    out.push(((x / 0x1_0000) % 0x100) as u8);
    out.push((x / 0x100_0000) as u8);
    assert(out@ =~= old(out)@ + u32_le(x));
}

/// Appends the eight bytes of `x`.
pub fn push_u64(out: &mut Vec<u8>, x: u64)
    ensures
        final(out)@ == old(out)@ + u64_le(x),
{
    out.push((x % 0x100) as u8);
    out.push(((x / 0x100) % 0x100) as u8);
    out.push(((x / 0x1_0000) % 0x100) as u8);
    out.push(((x / 0x100_0000) % 0x100) as u8);
    out.push(((x / 0x1_0000_0000) % 0x100) as u8);
    out.push(((x / 0x100_0000_0000) % 0x100) as u8);
    out.push(((x / 0x1_0000_0000_0000) % 0x100) as u8);
    out.push((x / 0x100_0000_0000_0000) as u8);
    assert(out@ =~= old(out)@ + u64_le(x));
}

/// Appends every byte of `part`.
pub fn push_bytes(out: &mut Vec<u8>, part: &[u8])
    ensures
        final(out)@ == old(out)@ + part@,
{
    let mut i: usize = 0;
    while i < part.len()
        invariant
            i <= part@.len(),
            out@ == old(out)@ + part@.take(i as int),
        decreases part@.len() - i,
    {
        out.push(part[i]);
        i += 1;
        assert(part@.take(i as int) =~= part@.take(i - 1).push(part@[i - 1]));
    }
    assert(part@.take(i as int) =~= part@);
}

/// Appends `count` zero bytes.
pub fn push_zeros(out: &mut Vec<u8>, count: usize)
    ensures
        final(out)@ == old(out)@ + Seq::new(count as nat, |i: int| 0u8),
{
    let mut i: usize = 0;
    while i < count
        invariant
            i <= count,
            out@ == old(out)@ + Seq::new(i as nat, |k: int| 0u8),
        decreases count - i,
    {
        out.push(0);
        i += 1;
        assert(Seq::new(i as nat, |k: int| 0u8) =~= Seq::new((i - 1) as nat, |k: int| 0u8).push(0u8));
    }
}

/// Appends the bytes of every word of `v`.
pub fn push_u16s(out: &mut Vec<u8>, v: &[u16])
    ensures
        final(out)@ == old(out)@ + u16s_le(v@),
{
    let mut i: usize = 0;
    while i < v.len()
        invariant
            i <= v@.len(),
            out@ == old(out)@ + u16s_le(v@.take(i as int)),
        decreases v@.len() - i,
    {
        push_u16(out, v[i]);
        i += 1;
        assert(u16s_le(v@.take(i as int)) =~= u16s_le(v@.take(i - 1)) + u16_le(v@[i - 1]));
    }
    assert(v@.take(i as int) =~= v@);
}

/// Appends the bytes of every word of `v`.
pub fn push_u32s(out: &mut Vec<u8>, v: &[u32])
    ensures
        final(out)@ == old(out)@ + u32s_le(v@),
{
    let mut i: usize = 0;
    while i < v.len()
        invariant
            i <= v@.len(),
            out@ == old(out)@ + u32s_le(v@.take(i as int)),
        decreases v@.len() - i,
    {
        push_u32(out, v[i]);
        i += 1;
        assert(u32s_le(v@.take(i as int)) =~= u32s_le(v@.take(i - 1)) + u32_le(v@[i - 1]));
    }
    assert(v@.take(i as int) =~= v@);
}

/// Appends the bytes of every word of `v`.
pub fn push_u64s(out: &mut Vec<u8>, v: &[u64])
    ensures
        final(out)@ == old(out)@ + u64s_le(v@),
{
    let mut i: usize = 0;
    while i < v.len()
        invariant
            i <= v@.len(),
            out@ == old(out)@ + u64s_le(v@.take(i as int)),
        decreases v@.len() - i,
    {
        push_u64(out, v[i]);
        i += 1;
        assert(u64s_le(v@.take(i as int)) =~= u64s_le(v@.take(i - 1)) + u64_le(v@[i - 1]));
    }
    assert(v@.take(i as int) =~= v@);
}

/// Reads `count` words of four bytes from `at` on.
pub fn read_u32s(b: &[u8], at: usize, count: usize) -> (v: Vec<u32>)
    requires
        at + 4 * count <= b@.len(),
    ensures
        v@ == u32s_at(b@, at as int, count as nat),
{
    let mut v: Vec<u32> = Vec::with_capacity(count);
    let len: usize = b.len();
    let mut i: usize = 0;
    while i < count
        invariant
            i <= count,
            at + 4 * count <= len == b@.len(),
            v@ == u32s_at(b@, at as int, i as nat),
        decreases count - i,
    {
        v.push(read_u32(b, at + 4 * i));
        i += 1;
        assert(v@ =~= u32s_at(b@, at as int, i as nat));
    }
    v
}

/// Reads `count` words of eight bytes from `at` on.
pub fn read_u64s(b: &[u8], at: usize, count: usize) -> (v: Vec<u64>)
    requires
        at + 8 * count <= b@.len(),
    ensures
        v@ == u64s_at(b@, at as int, count as nat),
{
    let mut v: Vec<u64> = Vec::with_capacity(count);
    let len: usize = b.len();
    let mut i: usize = 0;
    while i < count
        invariant
            i <= count,
            at + 8 * count <= len == b@.len(),
            v@ == u64s_at(b@, at as int, i as nat),
        decreases count - i,
    {
        v.push(read_u64(b, at + 8 * i));
        i += 1;
        assert(v@ =~= u64s_at(b@, at as int, i as nat));
    }
    v
}

} // verus!
