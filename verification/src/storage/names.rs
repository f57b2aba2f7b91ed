//! Type names in fixed fields of 64 bytes, padded with zeros.
use vstd::prelude::*;
use vstd::slice::slice_subrange;
use vstd::utf8::{
    char_is_scalar, decode_utf8, encode_scalar, encode_utf8, encode_utf8_decode_utf8,
    encode_utf8_valid_utf8, is_scalar, valid_utf8,
};
use crate::bytes::{holds_at, push_bytes, push_zeros};

verus! {

/// Bytes of a name field.
pub const NAME_BYTES: usize = 64;

/// The field that holds the name `bytes`.
pub open spec fn padded(bytes: Seq<u8>) -> Seq<u8> {
    bytes + Seq::new((NAME_BYTES - bytes.len()) as nat, |i: int| 0u8)
}

/// A name that a field can hold, with at least one byte of padding.
pub open spec fn name_fits(name: Seq<char>) -> bool {
    encode_utf8(name).len() < NAME_BYTES
}

/// A text in which the zero character does not occur.
pub open spec fn without_zero(name: Seq<char>) -> bool {
    forall|i: int| 0 <= i < name.len() ==> (#[trigger] name[i]) as u32 != 0
}

/// Where the name in the field at `at` ends, searched from its byte `k` on: at
/// the first zero byte, or at the end of the field.
pub open spec fn name_end(b: Seq<u8>, at: int, k: int) -> int
    decreases NAME_BYTES - k,
{
    if k >= NAME_BYTES {
        NAME_BYTES as int
    } else if b[at + k] == 0 {
        k
    } else {
        name_end(b, at, k + 1)
    }
}

/// The bytes of the name in the field at `at`.
pub open spec fn name_bytes(b: Seq<u8>, at: int) -> Seq<u8> {
    b.subrange(at, at + name_end(b, at, 0))
}

/// The name in the field at `at`, if it is UTF-8.
pub open spec fn name_at(b: Seq<u8>, at: int) -> Option<Seq<char>> {
    if valid_utf8(name_bytes(b, at)) {
        Some(decode_utf8(name_bytes(b, at)))
    } else {
        None
    }
}

proof fn lemma_name_end(b: Seq<u8>, at: int, k: int, end: int)
    requires
        0 <= k <= end < NAME_BYTES,
        forall|i: int| k <= i < end ==> #[trigger] b[at + i] != 0,
        b[at + end] == 0,
    ensures
        name_end(b, at, k) == end,
    decreases end - k,
{
    if k < end {
        assert(b[at + k] != 0);
        lemma_name_end(b, at, k + 1, end);
    }
}

proof fn lemma_name_end_bounds(b: Seq<u8>, at: int, k: int)
    requires
        0 <= k <= NAME_BYTES,
    ensures
        k <= name_end(b, at, k) <= NAME_BYTES,
    decreases NAME_BYTES - k,
{
    if k < NAME_BYTES {
        lemma_name_end_bounds(b, at, k + 1);
    }
}

/// The bytes of a scalar other than zero are not zero.
proof fn lemma_scalar_bytes_nonzero(c: u32)
    requires
        is_scalar(c),
        c != 0,
    ensures
        forall|i: int| 0 <= i < encode_scalar(c).len() ==> #[trigger] encode_scalar(c)[i] != 0,
{
    assert(c <= 0x7F && c != 0 ==> (c & 0x7F) as u8 != 0) by (bit_vector);
    assert(0xC0u8 | ((c >> 6) & 0x1F) as u8 != 0) by (bit_vector);
    assert(0xE0u8 | ((c >> 12) & 0x0F) as u8 != 0) by (bit_vector);
    assert(0xF0u8 | ((c >> 18) & 0x7) as u8 != 0) by (bit_vector);
    assert(0x80u8 | (c & 0x3F) as u8 != 0) by (bit_vector);
    assert(0x80u8 | ((c >> 6) & 0x3F) as u8 != 0) by (bit_vector);
    assert(0x80u8 | ((c >> 12) & 0x3F) as u8 != 0) by (bit_vector);
}

/// The bytes of a text without the zero character are not zero.
proof fn lemma_text_bytes_nonzero(name: Seq<char>)
    requires
        without_zero(name),
    ensures
        forall|i: int| 0 <= i < encode_utf8(name).len() ==> #[trigger] encode_utf8(name)[i] != 0,
    decreases name.len(),
{
    if name.len() > 0 {
        let rest = name.drop_first();
        assert forall|i: int| 0 <= i < rest.len() implies (#[trigger] rest[i]) as u32 != 0 by {
            assert(rest[i] == name[i + 1]);
        }
        lemma_text_bytes_nonzero(rest);
        char_is_scalar(name[0]);
        assert(name[0] as u32 != 0);
        lemma_scalar_bytes_nonzero(name[0] as u32);
        let head = encode_scalar(name[0] as u32);
        assert forall|i: int| 0 <= i < encode_utf8(name).len() implies #[trigger] encode_utf8(
            name,
        )[i] != 0 by {
            if i >= head.len() {
                assert(encode_utf8(name)[i] == encode_utf8(rest)[i - head.len()]);
            }
        }
    }
}

/// A name without the zero character reads back from its field as it was
/// written.
pub proof fn law_name_round_trip(b: Seq<u8>, at: int, name: Seq<char>)
    requires
        name_fits(name),
        without_zero(name),
        holds_at(b, at, padded(encode_utf8(name))),
    ensures
        name_at(b, at) == Some(name),
{
    let bytes = encode_utf8(name);
    let field = padded(bytes);
    lemma_text_bytes_nonzero(name);
    assert forall|i: int| 0 <= i < bytes.len() implies #[trigger] b[at + i] != 0 by {
        assert(field[i] == b[at + i]);
        assert(bytes[i] != 0);
    }
    assert(field[bytes.len() as int] == b[at + bytes.len()]);
    lemma_name_end(b, at, 0, bytes.len() as int);
    assert(name_bytes(b, at) =~= bytes) by {
        assert forall|i: int| 0 <= i < bytes.len() implies name_bytes(b, at)[i] == bytes[i] by {
            assert(field[i] == b[at + i]);
        }
    }
    encode_utf8_valid_utf8(name);
    encode_utf8_decode_utf8(name);
}

/// `String::from_utf8` of the standard library: the text that the bytes encode,
/// if they are UTF-8.
#[verifier::external_body]
fn text_of(bytes: Vec<u8>) -> (s: Option<String>)
    ensures
        match s {
            Some(t) => valid_utf8(bytes@) && t@ == decode_utf8(bytes@),
            None => !valid_utf8(bytes@),
        },
{
    String::from_utf8(bytes).ok()
}

/// Whether a field can hold the name.
pub fn fits_field(name: &str) -> (b: bool)
    ensures
        b == name_fits(name@),
{
    name.as_bytes().len() < NAME_BYTES
}

/// Appends the field that holds `name`.
pub fn write_padded_name(buf: &mut Vec<u8>, name: &str)
    requires
        name_fits(name@),
    ensures
        final(buf)@ == old(buf)@ + padded(encode_utf8(name@)),
{
    let bytes = name.as_bytes();
    push_bytes(buf, bytes);
    push_zeros(buf, NAME_BYTES - bytes.len());
    assert(buf@ =~= old(buf)@ + padded(encode_utf8(name@)));
}

/// Reads the name in the field at `at`.
pub fn read_padded_name(b: &[u8], at: usize) -> (name: Option<String>)
    requires
        at + NAME_BYTES <= b@.len(),
    ensures
        match name {
            Some(s) => name_at(b@, at as int) == Some(s@),
            None => name_at(b@, at as int) is None,
        },
{
    let len: usize = b.len();
    let mut end: usize = 0;
    while end < NAME_BYTES && b[at + end] != 0
        invariant
            at + NAME_BYTES <= len == b@.len(),
            end <= NAME_BYTES,
            name_end(b@, at as int, 0) == name_end(b@, at as int, end as int),
        decreases NAME_BYTES - end,
    {
        end += 1;
    }
    assert(name_end(b@, at as int, 0) == end);
    let mut bytes: Vec<u8> = Vec::with_capacity(end);
    push_bytes(&mut bytes, slice_subrange(b, at, at + end));
    assert(bytes@ =~= name_bytes(b@, at as int));
    text_of(bytes)
}

/// A stored name ends at its first zero byte, or fills its 64 bytes; it is read
/// where these bytes are valid text.
pub proof fn law_name_ends_at_the_first_zero(b: Seq<u8>, at: int)
    ensures
        ({
            let end = name_end(b, at, 0);
            let bytes = b.subrange(at, at + end);
            &&& 0 <= end <= 64
            &&& forall|k: int| 0 <= k < end ==> b[#[trigger] (at + k)] != 0
            &&& end < 64 ==> b[at + end] == 0
            &&& name_at(b, at) is Some <==> valid_utf8(bytes)
            &&& name_at(b, at) matches Some(name) ==> name == decode_utf8(bytes)
        }),
{
    lemma_name_end_from(b, at, 0);
}

proof fn lemma_name_end_from(b: Seq<u8>, at: int, from: int)
    requires
        0 <= from <= 64,
    ensures
        from <= name_end(b, at, from) <= 64,
        forall|k: int| from <= k < name_end(b, at, from) ==> b[#[trigger] (at + k)] != 0,
        name_end(b, at, from) < 64 ==> b[at + name_end(b, at, from)] == 0,
    decreases 64 - from,
{
    if from < 64 && b[at + from] != 0 {
        lemma_name_end_from(b, at, from + 1);
        assert forall|k: int| from <= k < name_end(b, at, from) implies b[#[trigger] (at + k)]
            != 0 by {
            if k > from {
                assert(b[at + k] != 0);
            }
        }
    }
}

/// A name fits if it leaves room for a zero byte in 64; it is written as its
/// bytes, filled up with zeros.
pub proof fn law_padded_names_fill_their_field(name: Seq<char>)
    ensures
        name_fits(name) <==> encode_utf8(name).len() <= 63,
        name_fits(name) ==> {
            let bytes = encode_utf8(name);
            let field = padded(bytes);
            &&& field.len() == 64
            &&& field.take(bytes.len() as int) == bytes
            &&& forall|k: int| bytes.len() <= k < 64 ==> field[k] == 0
        },
{
    let bytes = encode_utf8(name);
    if name_fits(name) {
        assert(padded(bytes).take(bytes.len() as int) =~= bytes);
    }
}

} // verus!
