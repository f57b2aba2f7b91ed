//! Messages of the driver that measures the path between two devices.
//!
//! A message is 96 bytes: the request in the first 76, four bytes of padding,
//! and the answer in the last 16.
use super::p2pdma::{P2pdmaPath, P2pdmaPolicy};
use crate::bytes::{
    holds_at, le4, le8, push_bytes, push_u32, push_zeros, read_u32, read_u64, u32_le, u64_le,
};
use crate::bytes::{lemma_u32_round_trip, lemma_u64_round_trip};
use crate::internal::device::words::zeros;
use crate::text::{decimal, label};
use vstd::prelude::*;
use vstd::string::StringExecFns;
use vstd::utf8::encode_utf8;

verus! {

/// Bytes of a device address.
pub const AETHER_P2PDMA_BDF_LEN: usize = 32;

/// Magic number of the driver's requests.
pub const AETHER_P2PDMA_IOCTL_MAGIC: u8 = 0xAE;

/// Number of the request that validates a path.
pub const AETHER_P2PDMA_VALIDATE_NR: u8 = 1;

/// Status: the path may be used.
pub const AETHER_P2PDMA_OK: u32 = 0;

/// Status: the path is too long.
pub const AETHER_P2PDMA_TOO_FAR: u32 = 1;

/// Status: no memory unit translates.
pub const AETHER_P2PDMA_NO_IOMMU: u32 = 2;

/// Status: access control redirects.
pub const AETHER_P2PDMA_ACS_REDIRECTED: u32 = 3;

/// Status: a device cannot do it.
pub const AETHER_P2PDMA_UNSUPPORTED: u32 = 4;

/// Bytes of a message.
pub const MESSAGE_BYTES: usize = 96;

/// Where the answer starts in a message.
pub const ANSWER_AT: usize = 80;

/// Why a device address cannot be sent.
#[derive(Debug, Clone, Copy, PartialEq, Eq, Structural)]
pub enum BdfError {
    /// There is a zero byte in it.
    InteriorNul {
        /// Where the first one is.
        position: usize,
    },
    /// It is too long.
    TooLong,
}

impl BdfError {
    /// The text of the error.
    pub fn message(self) -> (s: String)
        ensures
            s@ == (match self {
                BdfError::InteriorNul { position } => "nul byte found in provided data at position: "@
                    + decimal(position as nat),
                BdfError::TooLong => "PCI BDF string too long"@,
            }),
    {
        match self {
            BdfError::InteriorNul { position } => label(
                "nul byte found in provided data at position: ",
                position as u64,
            ),
            BdfError::TooLong => String::from_str("PCI BDF string too long"),
        }
    }
}

/// The first zero byte is at `position`.
pub open spec fn first_zero(b: Seq<u8>, position: int) -> bool {
    &&& 0 <= position < b.len()
    &&& b[position] == 0
    &&& forall|i: int| 0 <= i < position ==> #[trigger] b[i] != 0
}

/// No byte is zero.
pub open spec fn no_zero(b: Seq<u8>) -> bool {
    forall|i: int| 0 <= i < b.len() ==> #[trigger] b[i] != 0
}

/// The field that holds a device address.
pub open spec fn bdf_field(b: Seq<u8>) -> Seq<u8> {
    b + zeros((AETHER_P2PDMA_BDF_LEN - b.len()) as nat)
}

/// A device address that its field can hold, with a zero byte behind it.
pub open spec fn bdf_fits(b: Seq<u8>) -> bool {
    no_zero(b) && b.len() < AETHER_P2PDMA_BDF_LEN
}

/// A device address that is refused with `e`. A zero byte counts before the length.
pub open spec fn bdf_refused(b: Seq<u8>, e: BdfError) -> bool {
    match e {
        BdfError::InteriorNul { position } => first_zero(b, position as int),
        BdfError::TooLong => no_zero(b) && b.len() >= AETHER_P2PDMA_BDF_LEN,
    }
}

/// A device address in its field of 32 bytes, with a zero byte behind it.
pub fn encode_bdf(bdf: &str) -> (r: Result<Vec<u8>, BdfError>)
    ensures
        match r {
            Ok(field) => bdf_fits(encode_utf8(bdf@)) && field@ == bdf_field(encode_utf8(bdf@)),
            Err(e) => bdf_refused(encode_utf8(bdf@), e),
        },
{
    let bytes = bdf.as_bytes();
    let len: usize = bytes.len();
    let mut i: usize = 0;
    while i < len
        invariant
            i <= len == bytes@.len(),
            bytes@ == encode_utf8(bdf@),
            forall|k: int| 0 <= k < i ==> #[trigger] bytes@[k] != 0,
        decreases len - i,
    {
        if bytes[i] == 0 {
            return Err(BdfError::InteriorNul { position: i });
        }
        i += 1;
    }
    if len >= AETHER_P2PDMA_BDF_LEN {
        return Err(BdfError::TooLong);
    }
    let mut field: Vec<u8> = Vec::new();
    push_bytes(&mut field, bytes);
    push_zeros(&mut field, AETHER_P2PDMA_BDF_LEN - len);
    assert(field@ =~= bdf_field(encode_utf8(bdf@)));
    Ok(field)
}

/// The message that asks for a path, its answer still zero.
pub open spec fn request_bytes(
    producer: Seq<u8>,
    consumer: Seq<u8>,
    dmabuf_fd: i32,
    policy: P2pdmaPolicy,
) -> Seq<u8> {
    producer + consumer + u32_le(dmabuf_fd as u32) + u32_le(policy.maximum_distance) + seq![
        if policy.require_iommu {
            1u8
        } else {
            0u8
        },
    ] + zeros(23)
}

/// The message that asks for the path between two devices. The producer's address
/// is looked at first.
pub fn validate_request(
    producer_bdf: &str,
    consumer_bdf: &str,
    dmabuf_fd: i32,
    policy: P2pdmaPolicy,
) -> (r: Result<Vec<u8>, BdfError>)
    ensures
        ({
            let p = encode_utf8(producer_bdf@);
            let c = encode_utf8(consumer_bdf@);
            match r {
                Ok(message) => {
                    &&& bdf_fits(p) && bdf_fits(c)
                    &&& message@ == request_bytes(bdf_field(p), bdf_field(c), dmabuf_fd, policy)
                    &&& message@.len() == MESSAGE_BYTES
                },
                Err(e) => bdf_refused(p, e) || (bdf_fits(p) && bdf_refused(c, e)),
            }
        }),
{
    let producer = match encode_bdf(producer_bdf) {
        Ok(field) => field,
        Err(e) => return Err(e),
    };
    let consumer = match encode_bdf(consumer_bdf) {
        Ok(field) => field,
        Err(e) => return Err(e),
    };
    let mut message: Vec<u8> = Vec::new();
    push_bytes(&mut message, producer.as_slice());
    push_bytes(&mut message, consumer.as_slice());
    push_u32(&mut message, dmabuf_fd as u32);
    push_u32(&mut message, policy.maximum_distance);
    message.push(
        if policy.require_iommu {
            1
        } else {
            0
        },
    );
    push_zeros(&mut message, 23);
    assert(message@ =~= request_bytes(producer@, consumer@, dmabuf_fd, policy));
    Ok(message)
}

/// The code of the request: read and write, the size of a message, the magic number
/// and the number of the request.
pub fn validate_code() -> (code: u64)
    ensures
        code == 0x4000_0000 * 3 + 0x1_0000 * MESSAGE_BYTES + 0x100 * AETHER_P2PDMA_IOCTL_MAGIC
            + AETHER_P2PDMA_VALIDATE_NR,
        code == 0xc060_ae01,
{
    0xC060_AE01
}

/// The answer of the driver.
#[derive(Debug, Clone, Copy, PartialEq, Eq, Structural)]
pub struct AetherP2pdmaResp {
    /// Status.
    pub status: u32,
    /// Length of the path.
    pub distance: u32,
    /// Address of the memory on the bus.
    pub peer_bus_addr: u64,
}

impl Default for AetherP2pdmaResp {
    fn default() -> (resp: Self)
        ensures
            resp == (AetherP2pdmaResp { status: 0, distance: 0, peer_bus_addr: 0 }),
    {
        AetherP2pdmaResp { status: 0, distance: 0, peer_bus_addr: 0 }
    }
}

/// Reads the answer out of a message.
pub fn parse_response(message: &[u8]) -> (resp: AetherP2pdmaResp)
    requires
        message@.len() == MESSAGE_BYTES,
    ensures
        resp.status == le4(message@, 80),
        resp.distance == le4(message@, 84),
        resp.peer_bus_addr == le8(message@, 88),
{
    AetherP2pdmaResp {
        status: read_u32(message, ANSWER_AT),
        distance: read_u32(message, ANSWER_AT + 4),
        peer_bus_addr: read_u64(message, ANSWER_AT + 8),
    }
}

/// An answer that a driver wrote behind the request is read back as it is.
pub proof fn law_response_round_trip(request: Seq<u8>, resp: AetherP2pdmaResp)
    requires
        request.len() == ANSWER_AT,
    ensures
        ({
            let message = request + u32_le(resp.status) + u32_le(resp.distance) + u64_le(
                resp.peer_bus_addr,
            );
            &&& message.len() == MESSAGE_BYTES
            &&& le4(message, 80) == resp.status
            &&& le4(message, 84) == resp.distance
            &&& le8(message, 88) == resp.peer_bus_addr
        }),
{
    let message = request + u32_le(resp.status) + u32_le(resp.distance) + u64_le(
        resp.peer_bus_addr,
    );
    assert(holds_at(message, 80, u32_le(resp.status)));
    assert(holds_at(message, 84, u32_le(resp.distance)));
    assert(holds_at(message, 88, u64_le(resp.peer_bus_addr)));
    lemma_u32_round_trip(message, 80, resp.status);
    lemma_u32_round_trip(message, 84, resp.distance);
    lemma_u64_round_trip(message, 88, resp.peer_bus_addr);
}

/// What an answer says of the path.
pub open spec fn answered(resp: AetherP2pdmaResp, policy: P2pdmaPolicy) -> P2pdmaPath {
    if resp.status == AETHER_P2PDMA_OK {
        P2pdmaPath::Usable { distance: resp.distance }
    } else if resp.status == AETHER_P2PDMA_TOO_FAR {
        P2pdmaPath::TooFar { distance: resp.distance, maximum: policy.maximum_distance }
    } else if resp.status == AETHER_P2PDMA_NO_IOMMU {
        P2pdmaPath::NoIommu
    } else if resp.status == AETHER_P2PDMA_ACS_REDIRECTED {
        P2pdmaPath::AcsRedirected
    } else {
        P2pdmaPath::Unsupported
    }
}

/// The path of an answer, and the bus address where the path may be used.
pub fn classify_resp(resp: AetherP2pdmaResp, policy: P2pdmaPolicy) -> (r: (P2pdmaPath, Option<u64>))
    ensures
        r.0 == answered(resp, policy),
        r.1 == (if r.0 is Usable {
            Some(resp.peer_bus_addr)
        } else {
            None
        }),
{
    if resp.status == AETHER_P2PDMA_OK {
        (P2pdmaPath::Usable { distance: resp.distance }, Some(resp.peer_bus_addr))
    } else if resp.status == AETHER_P2PDMA_TOO_FAR {
        (
            P2pdmaPath::TooFar { distance: resp.distance, maximum: policy.maximum_distance },
            None,
        )
    } else if resp.status == AETHER_P2PDMA_NO_IOMMU {
        (P2pdmaPath::NoIommu, None)
    } else if resp.status == AETHER_P2PDMA_ACS_REDIRECTED {
        (P2pdmaPath::AcsRedirected, None)
    } else {
        (P2pdmaPath::Unsupported, None)
    }
}

/// What validating a path gave.
#[derive(Debug, Clone, Copy, PartialEq, Eq, Structural)]
pub struct P2pdmaValidateResult {
    /// The path.
    pub path: P2pdmaPath,
    /// The bus address, where the path may be used.
    pub peer_bus_addr: Option<u64>,
}

/// The result in a message that the driver answered.
pub fn validate_outcome(message: &[u8], policy: P2pdmaPolicy) -> (r: P2pdmaValidateResult)
    requires
        message@.len() == MESSAGE_BYTES,
    ensures
        ({
            let resp = AetherP2pdmaResp {
                status: le4(message@, 80) as u32,
                distance: le4(message@, 84) as u32,
                peer_bus_addr: le8(message@, 88) as u64,
            };
            &&& r.path == answered(resp, policy)
            &&& r.peer_bus_addr == (if r.path is Usable {
                Some(resp.peer_bus_addr)
            } else {
                None
            })
        }),
{
    let (path, peer_bus_addr) = classify_resp(parse_response(message), policy);
    P2pdmaValidateResult { path, peer_bus_addr }
}

/// An address fits if it has no zero byte and leaves room for one in 32 bytes. A
/// zero byte is refused with the place of the first one, and otherwise a longer
/// address as too long; the field is the address, filled up with zeros.
pub proof fn law_addresses_fill_their_field(b: Seq<u8>)
    ensures
        ({
            let clean = forall|i: int| 0 <= i < b.len() ==> #[trigger] b[i] != 0;
            &&& bdf_fits(b) <==> clean && b.len() <= 31
            &&& bdf_refused(b, BdfError::TooLong) <==> clean && b.len() >= 32
            &&& forall|p: usize| #[trigger]
                bdf_refused(b, BdfError::InteriorNul { position: p }) <==> p < b.len() && b[p as int]
                    == 0 && forall|i: int| 0 <= i < p ==> #[trigger] b[i] != 0
        }),
        bdf_fits(b) ==> {
            &&& bdf_field(b).len() == 32
            &&& bdf_field(b).take(b.len() as int) == b
            &&& forall|i: int| b.len() <= i < 32 ==> bdf_field(b)[i] == 0
        },
{
    if bdf_fits(b) {
        assert(bdf_field(b).take(b.len() as int) =~= b);
    }
}

/// A request is the two address fields, the descriptor, the greatest distance and
/// whether translation is required, and zeros up to 96 bytes.
pub proof fn law_request_layout(
    producer: Seq<u8>,
    consumer: Seq<u8>,
    dmabuf_fd: i32,
    policy: P2pdmaPolicy,
    i: int,
)
    requires
        producer.len() == 32,
        consumer.len() == 32,
    ensures
        ({
            let b = request_bytes(producer, consumer, dmabuf_fd, policy);
            &&& b.len() == 96
            &&& b.subrange(0, 32) == producer
            &&& b.subrange(32, 64) == consumer
            &&& b.subrange(64, 68) == u32_le(dmabuf_fd as u32)
            &&& b.subrange(68, 72) == u32_le(policy.maximum_distance)
            &&& b[72] == (if policy.require_iommu {
                1u8
            } else {
                0u8
            })
            &&& 72 < i < 96 ==> b[i] == 0
        }),
{
    let b = request_bytes(producer, consumer, dmabuf_fd, policy);
    assert(b.subrange(0, 32) =~= producer);
    assert(b.subrange(32, 64) =~= consumer);
    assert(b.subrange(64, 68) =~= u32_le(dmabuf_fd as u32));
    assert(b.subrange(68, 72) =~= u32_le(policy.maximum_distance));
}

/// What an answer means: 0 is a usable path, 1 one that is too long, 2 one without
/// translation, 3 one that is redirected, and everything else none.
pub proof fn law_answers_by_status(resp: AetherP2pdmaResp, policy: P2pdmaPolicy)
    ensures
        resp.status == 0 ==> answered(resp, policy) == (P2pdmaPath::Usable {
            distance: resp.distance,
        }),
        resp.status == 1 ==> answered(resp, policy) == (P2pdmaPath::TooFar {
            distance: resp.distance,
            maximum: policy.maximum_distance,
        }),
        resp.status == 2 ==> answered(resp, policy) == P2pdmaPath::NoIommu,
        resp.status == 3 ==> answered(resp, policy) == P2pdmaPath::AcsRedirected,
        resp.status >= 4 ==> answered(resp, policy) == P2pdmaPath::Unsupported,
{
}

} // verus!
