//! Wire protocol codec.
//!
//! Every datagram is one message: a fixed 14-byte header and an optional
//! payload. All integers are big-endian (network byte order).
use vstd::prelude::*;
use vstd::utf8::{decode_utf8, encode_utf8, valid_utf8};
use crate::endpoint::Endpoint;
use crate::text::{
    decimal, hex_padded, push_bytes, push_decimal, push_hex, push_text, string_of, utf8_text,
};

verus! {

pub const PROTOCOL_VERSION: u8 = 0x03;

pub const HEADER_SIZE: usize = 14;

/// Number of recent segment positions represented by an availability mask.
pub const AVAILABILITY_MASK_BITS: u32 = 16;

/// Peerlist flag: claimed endpoint == observed (verified mapping).
pub const PEER_UPNP_MAPPED: u8 = 0x01;

/// Peerlist flag: same public IP as the requester (likely same NAT).
pub const PEER_SAME_IP: u8 = 0x02;

/// Peerlist flag: assigned preferred source by the master.
pub const PEER_PARENT: u8 = 0x04;

/// Flag of a not-found reply: temporary source admission limit.
pub const SEGMENT_NOT_READY: u8 = 0x01;

/// What a datagram is about.
#[derive(Debug, Clone, Copy, PartialEq, Eq, Structural)]
pub enum MessageType {
    HandshakeRequest,
    HandshakeResponse,
    ManifestRequest,
    ManifestResponse,
    SegmentRequest,
    SegmentContents,
    SegmentNotFound,
    Ack,
    PeerlistRequest,
    PeerlistResponse,
    Ping,
    Pong,
}

/// The code of a message type on the wire.
pub open spec fn type_code(t: MessageType) -> u8 {
    match t {
        MessageType::HandshakeRequest => 0x01,
        MessageType::HandshakeResponse => 0x02,
        MessageType::ManifestRequest => 0x20,
        MessageType::ManifestResponse => 0x21,
        MessageType::SegmentRequest => 0x30,
        MessageType::SegmentContents => 0x31,
        MessageType::SegmentNotFound => 0x32,
        MessageType::Ack => 0x40,
        MessageType::PeerlistRequest => 0x50,
        MessageType::PeerlistResponse => 0x51,
        MessageType::Ping => 0x60,
        MessageType::Pong => 0x61,
    }
}

/// The message type with a code, if the code is one of a type.
pub open spec fn type_of_code(code: u8) -> Option<MessageType> {
    if exists|t: MessageType| #[trigger] type_code(t) == code {
        Some(choose|t: MessageType| #[trigger] type_code(t) == code)
    } else {
        None
    }
}

/// A code belongs to one type only.
pub proof fn type_codes_differ(t: MessageType)
    ensures
        type_of_code(type_code(t)) == Some(t),
{
    let u = choose|u: MessageType| #[trigger] type_code(u) == type_code(t);
    assert(type_code(u) == type_code(t));
    assert(u == t);
}

impl MessageType {
    /// The message type with a code.
    pub fn from_u8(code: u8) -> (r: Option<MessageType>)
        ensures
            r == type_of_code(code),
            match r {
                Some(t) => type_code(t) == code,
                None => forall|t: MessageType| #[trigger] type_code(t) != code,
            },
    {
        let r = match code {
            0x01 => Some(MessageType::HandshakeRequest),
            0x02 => Some(MessageType::HandshakeResponse),
            0x20 => Some(MessageType::ManifestRequest),
            0x21 => Some(MessageType::ManifestResponse),
            0x30 => Some(MessageType::SegmentRequest),
            0x31 => Some(MessageType::SegmentContents),
            0x32 => Some(MessageType::SegmentNotFound),
            0x40 => Some(MessageType::Ack),
            0x50 => Some(MessageType::PeerlistRequest),
            0x51 => Some(MessageType::PeerlistResponse),
            0x60 => Some(MessageType::Ping),
            0x61 => Some(MessageType::Pong),
            _ => None,
        };
        proof {
            if let Some(t) = r {
                type_codes_differ(t);
            }
        }
        r
    }

    /// The code on the wire.
    pub fn code(&self) -> (c: u8)
        ensures
            c == type_code(*self),
    {
        match self {
            MessageType::HandshakeRequest => 0x01,
            MessageType::HandshakeResponse => 0x02,
            MessageType::ManifestRequest => 0x20,
            MessageType::ManifestResponse => 0x21,
            MessageType::SegmentRequest => 0x30,
            MessageType::SegmentContents => 0x31,
            MessageType::SegmentNotFound => 0x32,
            MessageType::Ack => 0x40,
            MessageType::PeerlistRequest => 0x50,
            MessageType::PeerlistResponse => 0x51,
            MessageType::Ping => 0x60,
            MessageType::Pong => 0x61,
        }
    }
}

/// ACK subtype carried in the header's flags byte.
#[derive(Debug, Clone, Copy, PartialEq, Eq, Structural)]
pub enum AckType {
    /// ACK with a 4-byte payload `(next_start, next_count)`: request the
    /// next packet range.
    Progress,
    /// ACK with empty payload: transfer complete.
    Complete,
}

/// The flags byte of an ACK subtype.
pub open spec fn ack_code(t: AckType) -> u8 {
    match t {
        AckType::Progress => 0x00,
        AckType::Complete => 0x04,
    }
}

impl AckType {
    /// The ACK subtype with a flags byte.
    pub fn from_u8(v: u8) -> (r: Option<AckType>)
        ensures
            match r {
                Some(t) => ack_code(t) == v,
                None => forall|t: AckType| #[trigger] ack_code(t) != v,
            },
    {
        match v {
            0x00 => Some(AckType::Progress),
            0x04 => Some(AckType::Complete),
            _ => None,
        }
    }

    /// The flags byte.
    pub fn code(&self) -> (c: u8)
        ensures
            c == ack_code(*self),
    {
        match self {
            AckType::Progress => 0x00,
            AckType::Complete => 0x04,
        }
    }
}

/// Whether bit `i` of a mask is set.
pub open spec fn mask_bit(mask: u16, i: u16) -> bool {
    mask & (1u16 << i) != 0
}

/// Compact recent segment inventory. Bit 0 represents `newest`, bit 1
/// `newest - 1`, through bit 15. Segment numbers map to `seg_<number>.ts`.
#[derive(Debug, Clone, Copy, PartialEq, Eq, Structural)]
pub struct SegmentAvailability {
    pub newest: u64,
    pub mask: u16,
}

/// What an inventory says of a segment: nothing outside its window.
pub open spec fn inventory_says(a: SegmentAvailability, segment: u64) -> Option<bool> {
    if segment <= a.newest && a.newest - segment < AVAILABILITY_MASK_BITS {
        Some(mask_bit(a.mask, (a.newest - segment) as u16))
    } else {
        None
    }
}

impl SegmentAvailability {
    /// Whether this inventory explicitly covers `segment` and says it exists.
    /// A segment outside the 16-entry window is unknown, not absent.
    pub fn contains(&self, segment: u64) -> (r: Option<bool>)
        ensures
            r == inventory_says(*self, segment),
    {
        if segment > self.newest {
            return None;
        }
        let distance: u64 = self.newest - segment;
        if distance >= AVAILABILITY_MASK_BITS as u64 {
            return None;
        }
        Some(self.mask & (1u16 << (distance as u16)) != 0)
    }
}

/// A decoded message.
#[derive(Debug, Clone, PartialEq, Eq)]
pub enum Message {
    /// Payload: claimed endpoint (6 B) + name (UTF-8). The claimed endpoint
    /// is a port mapping, if any (0.0.0.0:0 if none).
    HandshakeRequest { claimed: Endpoint, name: String },
    /// Payload: observed endpoint (6 B) + name (UTF-8). The observed endpoint
    /// is the requester's public endpoint as seen by the responder.
    HandshakeResponse { observed: Endpoint, name: String },
    /// No payload.
    ManifestRequest,
    /// Payload: raw manifest (m3u8) bytes.
    ManifestResponse { data: Vec<u8> },
    /// Payload: filename (UTF-8).
    SegmentRequest { transfer_id: u16, filename: String },
    /// Payload: file chunk of at most one packet.
    SegmentContents { transfer_id: u16, packet_number: u16, total_packets: u16, data: Vec<u8> },
    /// Optionally carries the responder's compact recent segment inventory.
    SegmentNotFound {
        transfer_id: u16,
        availability: Option<SegmentAvailability>,
        retryable: bool,
    },
    /// For Progress, payload is (next_start, next_count); for Complete,
    /// payload is empty.
    Ack { transfer_id: u16, ack_type: AckType, next_start: u16, next_count: u16 },
    /// No payload.
    PeerlistRequest,
    /// Payload: packed (ip:port) entries + flags byte.
    PeerlistResponse { peers: Vec<(Endpoint, u8)> },
    /// Payload: beacon nonce (4 B) + node name (UTF-8). Doubles as LAN beacon
    /// when broadcast; the nonce lets a node recognize (and ignore) its own
    /// broadcast echo.
    Ping { nonce: u32, name: String },
    /// Optionally carries the sender's compact recent segment inventory.
    Pong { availability: Option<SegmentAvailability> },
}

/// The model of a message.
#[verifier::ext_equal]
pub enum MessageView {
    HandshakeRequest { claimed: Endpoint, name: Seq<char> },
    HandshakeResponse { observed: Endpoint, name: Seq<char> },
    ManifestRequest,
    ManifestResponse { data: Seq<u8> },
    SegmentRequest { transfer_id: u16, filename: Seq<char> },
    SegmentContents { transfer_id: u16, packet_number: u16, total_packets: u16, data: Seq<u8> },
    SegmentNotFound {
        transfer_id: u16,
        availability: Option<SegmentAvailability>,
        retryable: bool,
    },
    Ack { transfer_id: u16, ack_type: AckType, next_start: u16, next_count: u16 },
    PeerlistRequest,
    PeerlistResponse { peers: Seq<(Endpoint, u8)> },
    Ping { nonce: u32, name: Seq<char> },
    Pong { availability: Option<SegmentAvailability> },
}

impl View for Message {
    type V = MessageView;

    open spec fn view(&self) -> MessageView {
        match *self {
            Message::HandshakeRequest { claimed, name } => MessageView::HandshakeRequest {
                claimed,
                name: name@,
            },
            Message::HandshakeResponse { observed, name } => MessageView::HandshakeResponse {
                observed,
                name: name@,
            },
            Message::ManifestRequest => MessageView::ManifestRequest,
            Message::ManifestResponse { data } => MessageView::ManifestResponse { data: data@ },
            Message::SegmentRequest { transfer_id, filename } => MessageView::SegmentRequest {
                transfer_id,
                filename: filename@,
            },
            Message::SegmentContents {
                transfer_id,
                packet_number,
                total_packets,
                data,
            } => MessageView::SegmentContents {
                transfer_id,
                packet_number,
                total_packets,
                data: data@,
            },
            Message::SegmentNotFound {
                transfer_id,
                availability,
                retryable,
            } => MessageView::SegmentNotFound { transfer_id, availability, retryable },
            Message::Ack { transfer_id, ack_type, next_start, next_count } => MessageView::Ack {
                transfer_id,
                ack_type,
                next_start,
                next_count,
            },
            Message::PeerlistRequest => MessageView::PeerlistRequest,
            Message::PeerlistResponse { peers } => MessageView::PeerlistResponse { peers: peers@ },
            Message::Ping { nonce, name } => MessageView::Ping { nonce, name: name@ },
            Message::Pong { availability } => MessageView::Pong { availability },
        }
    }
}

/// The models of a list of messages.
pub open spec fn messages(v: Seq<Message>) -> Seq<MessageView> {
    v.map_values(|m: Message| m@)
}

/// Why a datagram is no message.
#[derive(Debug, Clone, PartialEq, Eq)]
pub enum ProtocolError {
    /// Datagram shorter than the fixed header.
    TruncatedHeader { len: usize },
    /// Magic bytes did not match `QST`.
    BadMagic { got: [u8; 3] },
    /// Unsupported protocol version.
    BadVersion { got: u8 },
    /// Unknown message type code.
    UnknownMessageType { code: u8 },
    /// Header's data length exceeds the datagram.
    TruncatedPayload { declared: u16, actual: usize },
    /// Node names and filenames must be valid UTF-8.
    InvalidUtf8,
    /// Unknown ACK flags byte.
    BadAckFlags { got: u8 },
    /// Progress ACK payload must be exactly 4 bytes.
    BadAckPayload { len: usize },
    /// Peerlist payload length must be a multiple of 7 bytes.
    BadPeerlistPayload { len: usize },
    /// Availability payload must be empty or exactly 10 bytes.
    BadAvailabilityPayload { len: usize },
}

/// An error in words.
pub open spec fn error_text(e: ProtocolError) -> Seq<char> {
    match e {
        ProtocolError::TruncatedHeader { len } => "datagram too short for header: "@ + decimal(
            len as int,
        ) + " bytes"@,
        ProtocolError::BadMagic { got } => "bad magic: ["@ + hex_padded(got@[0] as int, 2) + ", "@
            + hex_padded(got@[1] as int, 2) + ", "@ + hex_padded(got@[2] as int, 2)
            + "] (expected QST)"@,
        ProtocolError::BadVersion { got } => "unsupported protocol version: 0x"@ + hex_padded(
            got as int,
            2,
        ),
        ProtocolError::UnknownMessageType { code } => "unknown message type: 0x"@ + hex_padded(
            code as int,
            2,
        ),
        ProtocolError::TruncatedPayload { declared, actual } => "payload truncated: header says "@
            + decimal(declared as int) + " bytes, datagram has "@ + decimal(actual as int),
        ProtocolError::InvalidUtf8 => "payload is not valid UTF-8"@,
        ProtocolError::BadAckFlags { got } => "unknown ACK flags: 0x"@ + hex_padded(got as int, 2),
        ProtocolError::BadAckPayload { len } => "progress ACK payload must be 4 bytes, got "@
            + decimal(len as int),
        ProtocolError::BadPeerlistPayload { len } =>
            "peerlist payload must be a multiple of 7 bytes, got "@ + decimal(len as int),
        ProtocolError::BadAvailabilityPayload { len } =>
            "availability payload must be empty or 10 bytes, got "@ + decimal(len as int),
    }
}

impl ProtocolError {
    /// The error in words.
    pub fn text(&self) -> (s: String)
        ensures
            s@ == error_text(*self),
    {
        let mut out: Vec<char> = Vec::new();
        match self {
            ProtocolError::TruncatedHeader { len } => {
                push_text(&mut out, "datagram too short for header: ");
                push_decimal(&mut out, *len as u64);
                push_text(&mut out, " bytes");
            },
            ProtocolError::BadMagic { got } => {
                push_text(&mut out, "bad magic: [");
                push_hex(&mut out, got[0] as u64, 2);
                push_text(&mut out, ", ");
                push_hex(&mut out, got[1] as u64, 2);
                push_text(&mut out, ", ");
                push_hex(&mut out, got[2] as u64, 2);
                push_text(&mut out, "] (expected QST)");
            },
            ProtocolError::BadVersion { got } => {
                push_text(&mut out, "unsupported protocol version: 0x");
                push_hex(&mut out, *got as u64, 2);
            },
            ProtocolError::UnknownMessageType { code } => {
                push_text(&mut out, "unknown message type: 0x");
                push_hex(&mut out, *code as u64, 2);
            },
            ProtocolError::TruncatedPayload { declared, actual } => {
                push_text(&mut out, "payload truncated: header says ");
                push_decimal(&mut out, *declared as u64);
                push_text(&mut out, " bytes, datagram has ");
                push_decimal(&mut out, *actual as u64);
            },
            ProtocolError::InvalidUtf8 => {
                push_text(&mut out, "payload is not valid UTF-8");
            },
            ProtocolError::BadAckFlags { got } => {
                push_text(&mut out, "unknown ACK flags: 0x");
                push_hex(&mut out, *got as u64, 2);
            },
            ProtocolError::BadAckPayload { len } => {
                push_text(&mut out, "progress ACK payload must be 4 bytes, got ");
                push_decimal(&mut out, *len as u64);
            },
            ProtocolError::BadPeerlistPayload { len } => {
                push_text(&mut out, "peerlist payload must be a multiple of 7 bytes, got ");
                push_decimal(&mut out, *len as u64);
            },
            ProtocolError::BadAvailabilityPayload { len } => {
                push_text(&mut out, "availability payload must be empty or 10 bytes, got ");
                push_decimal(&mut out, *len as u64);
            },
        }
        proof {
            assert(out@ =~= error_text(*self));
        }
        string_of(&out)
    }
}

/// The lowest `width` bytes of `n`, most significant first.
pub open spec fn big_endian(n: int, width: nat) -> Seq<u8>
    decreases width,
{
    if width == 0 {
        Seq::empty()
    } else {
        big_endian(n / 256, (width - 1) as nat).push((n % 256) as u8)
    }
}

/// The number that bytes spell, most significant first.
pub open spec fn number(s: Seq<u8>) -> int
    decreases s.len(),
{
    if s.len() == 0 {
        0
    } else {
        number(s.drop_last()) * 256 + s.last()
    }
}

/// The largest number that `width` bytes spell.
pub open spec fn number_limit(width: nat) -> int
    decreases width,
{
    if width == 0 {
        0
    } else {
        number_limit((width - 1) as nat) * 256 + 255
    }
}

proof fn number_bounds(s: Seq<u8>)
    ensures
        0 <= number(s) <= number_limit(s.len()),
    decreases s.len(),
{
    if s.len() > 0 {
        number_bounds(s.drop_last());
    }
}

/// The limits of the widths in use.
proof fn number_limits()
    ensures
        number_limit(2) == 0xffff,
        number_limit(4) == 0xffff_ffff,
        number_limit(8) == 0xffff_ffff_ffff_ffff,
{
    reveal_with_fuel(number_limit, 9);
}

/// What was spelled in enough bytes reads back.
pub proof fn big_endian_reads_back(n: int, width: nat)
    requires
        0 <= n <= number_limit(width),
    ensures
        big_endian(n, width).len() == width,
        number(big_endian(n, width)) == n,
    decreases width,
{
    if width > 0 {
        big_endian_reads_back(n / 256, (width - 1) as nat);
        let s = big_endian(n, width);
        assert(s.drop_last() =~= big_endian(n / 256, (width - 1) as nat));
    }
}

fn push_big_endian(out: &mut Vec<u8>, n: u64, width: u32)
    ensures
        final(out)@ == old(out)@ + big_endian(n as int, width as nat),
    decreases width,
{
    let ghost start = out@;
    if width > 0 {
        push_big_endian(out, n / 256, width - 1);
        out.push((n % 256) as u8);
        proof {
            assert(out@ =~= start + big_endian(n as int, width as nat));
        }
    } else {
        proof {
            assert(out@ =~= start + big_endian(n as int, width as nat));
        }
    }
}

fn read_number(s: &[u8], from: usize, to: usize) -> (n: u64)
    requires
        from <= to <= s@.len(),
        to - from <= 8,
    ensures
        n == number(s@.subrange(from as int, to as int)),
{
    let mut n: u64 = 0;
    let mut i: usize = from;
    proof {
        assert(s@.subrange(from as int, from as int) =~= Seq::<u8>::empty());
    }
    while i < to
        invariant
            from <= i <= to <= s@.len(),
            to - from <= 8,
            n == number(s@.subrange(from as int, i as int)),
        decreases to - i,
    {
        proof {
            let prefix = s@.subrange(from as int, i as int);
            let next = s@.subrange(from as int, i + 1);
            assert(next.drop_last() =~= prefix);
            assert(next.last() == s@[i as int]);
            number_bounds(next);
            reveal_with_fuel(number_limit, 9);
        }
        n = n * 256 + s[i] as u64;
        i = i + 1;
    }
    n
}

/// The bytes of an inventory: nothing, or its newest segment and its mask.
pub open spec fn availability_bytes(a: Option<SegmentAvailability>) -> Seq<u8> {
    match a {
        None => Seq::empty(),
        Some(a) => big_endian(a.newest as int, 8) + big_endian(a.mask as int, 2),
    }
}

/// An endpoint in 6 bytes: the IPv4 octets and the port. Anything that is not
/// IPv4, or has port 0, is all zeros.
pub open spec fn endpoint_bytes(e: Endpoint) -> Seq<u8> {
    match e {
        Endpoint::V4 { ip, port } => if port != 0 {
            big_endian(ip as int, 4) + big_endian(port as int, 2)
        } else {
            big_endian(0, 6)
        },
        Endpoint::V6 { .. } => big_endian(0, 6),
    }
}

/// The entries of a peerlist, 7 bytes for each IPv4 endpoint.
pub open spec fn peers_bytes(peers: Seq<(Endpoint, u8)>) -> Seq<u8>
    decreases peers.len(),
{
    if peers.len() == 0 {
        Seq::empty()
    } else {
        let rest = peers_bytes(peers.drop_last());
        match peers.last().0 {
            Endpoint::V4 { ip, port } => rest + big_endian(ip as int, 4) + big_endian(
                port as int,
                2,
            ) + seq![peers.last().1],
            Endpoint::V6 { .. } => rest,
        }
    }
}

/// The type of a message.
pub open spec fn type_of(m: MessageView) -> MessageType {
    match m {
        MessageView::HandshakeRequest { .. } => MessageType::HandshakeRequest,
        MessageView::HandshakeResponse { .. } => MessageType::HandshakeResponse,
        MessageView::ManifestRequest => MessageType::ManifestRequest,
        MessageView::ManifestResponse { .. } => MessageType::ManifestResponse,
        MessageView::SegmentRequest { .. } => MessageType::SegmentRequest,
        MessageView::SegmentContents { .. } => MessageType::SegmentContents,
        MessageView::SegmentNotFound { .. } => MessageType::SegmentNotFound,
        MessageView::Ack { .. } => MessageType::Ack,
        MessageView::PeerlistRequest => MessageType::PeerlistRequest,
        MessageView::PeerlistResponse { .. } => MessageType::PeerlistResponse,
        MessageView::Ping { .. } => MessageType::Ping,
        MessageView::Pong { .. } => MessageType::Pong,
    }
}

/// The flags byte of a message.
pub open spec fn flags_of(m: MessageView) -> u8 {
    match m {
        MessageView::SegmentNotFound { retryable: true, .. } => SEGMENT_NOT_READY,
        MessageView::Ack { ack_type, .. } => ack_code(ack_type),
        _ => 0,
    }
}

/// The transfer that a message belongs to, 0 for none.
pub open spec fn transfer_of(m: MessageView) -> u16 {
    match m {
        MessageView::SegmentRequest { transfer_id, .. } => transfer_id,
        MessageView::SegmentContents { transfer_id, .. } => transfer_id,
        MessageView::SegmentNotFound { transfer_id, .. } => transfer_id,
        MessageView::Ack { transfer_id, .. } => transfer_id,
        _ => 0,
    }
}

/// The packet number and the number of packets of a message, 0 for none.
pub open spec fn packet_of(m: MessageView) -> (u16, u16) {
    match m {
        MessageView::SegmentContents { packet_number, total_packets, .. } => (
            packet_number,
            total_packets,
        ),
        _ => (0, 0),
    }
}

/// The payload of a message.
pub open spec fn payload_of(m: MessageView) -> Seq<u8> {
    match m {
        MessageView::HandshakeRequest { claimed, name } => endpoint_bytes(claimed) + encode_utf8(
            name,
        ),
        MessageView::HandshakeResponse { observed, name } => endpoint_bytes(observed)
            + encode_utf8(name),
        MessageView::ManifestRequest => Seq::empty(),
        MessageView::ManifestResponse { data } => data,
        MessageView::SegmentRequest { filename, .. } => encode_utf8(filename),
        MessageView::SegmentContents { data, .. } => data,
        MessageView::SegmentNotFound { availability, .. } => availability_bytes(availability),
        MessageView::Ack { ack_type, next_start, next_count, .. } => match ack_type {
            AckType::Progress => big_endian(next_start as int, 2) + big_endian(
                next_count as int,
                2,
            ),
            AckType::Complete => Seq::empty(),
        },
        MessageView::PeerlistRequest => Seq::empty(),
        MessageView::PeerlistResponse { peers } => peers_bytes(peers),
        MessageView::Ping { nonce, name } => big_endian(nonce as int, 4) + encode_utf8(name),
        MessageView::Pong { availability } => availability_bytes(availability),
    }
}

/// The bytes that every datagram begins with.
pub open spec fn magic() -> Seq<u8> {
    seq![0x51u8, 0x53u8, 0x54u8]
}

/// The datagram of a message. The length field holds the lowest 16 bits of
/// the payload's length.
pub open spec fn datagram_of(m: MessageView) -> Seq<u8> {
    magic().push(PROTOCOL_VERSION).push(type_code(type_of(m))).push(flags_of(m)) + big_endian(
        payload_of(m).len() as int,
        2,
    ) + big_endian(transfer_of(m) as int, 2) + big_endian(packet_of(m).0 as int, 2) + big_endian(
        packet_of(m).1 as int,
        2,
    ) + payload_of(m)
}

/// The payload of an optional inventory.
pub fn encode_availability(availability: Option<SegmentAvailability>) -> (payload: Vec<u8>)
    ensures
        payload@ == availability_bytes(availability),
{
    let mut payload: Vec<u8> = Vec::new();
    if let Some(a) = availability {
        push_big_endian(&mut payload, a.newest, 8);
        push_big_endian(&mut payload, a.mask as u64, 2);
        proof {
            assert(payload@ =~= availability_bytes(availability));
        }
    }
    payload
}

fn encode_endpoint(addr: Endpoint) -> (p: Vec<u8>)
    ensures
        p@ == endpoint_bytes(addr),
{
    let mut p: Vec<u8> = Vec::new();
    match addr {
        Endpoint::V4 { ip, port } => {
            if port != 0 {
                push_big_endian(&mut p, ip as u64, 4);
                push_big_endian(&mut p, port as u64, 2);
            } else {
                push_big_endian(&mut p, 0, 6);
            }
        },
        Endpoint::V6 { .. } => {
            push_big_endian(&mut p, 0, 6);
        },
    }
    proof {
        assert(p@ =~= endpoint_bytes(addr));
    }
    p
}

fn encode_peers(peers: &[(Endpoint, u8)]) -> (payload: Vec<u8>)
    ensures
        payload@ == peers_bytes(peers@),
{
    let mut payload: Vec<u8> = Vec::new();
    let mut i: usize = 0;
    while i < peers.len()
        invariant
            i <= peers@.len(),
            payload@ == peers_bytes(peers@.take(i as int)),
        decreases peers@.len() - i,
    {
        let ghost before = payload@;
        let (peer, flags) = peers[i];
        if let Endpoint::V4 { ip, port } = peer {
            push_big_endian(&mut payload, ip as u64, 4);
            push_big_endian(&mut payload, port as u64, 2);
            payload.push(flags);
        }
        proof {
            let next = peers@.take(i + 1);
            assert(next.drop_last() =~= peers@.take(i as int));
            assert(next.last() == peers@[i as int]);
            assert(payload@ =~= peers_bytes(next));
        }
        i = i + 1;
    }
    proof {
        assert(peers@.take(peers@.len() as int) =~= peers@);
    }
    payload
}

fn message_type(message: &Message) -> (t: MessageType)
    ensures
        t == type_of(message@),
{
    match message {
        Message::HandshakeRequest { .. } => MessageType::HandshakeRequest,
        Message::HandshakeResponse { .. } => MessageType::HandshakeResponse,
        Message::ManifestRequest => MessageType::ManifestRequest,
        Message::ManifestResponse { .. } => MessageType::ManifestResponse,
        Message::SegmentRequest { .. } => MessageType::SegmentRequest,
        Message::SegmentContents { .. } => MessageType::SegmentContents,
        Message::SegmentNotFound { .. } => MessageType::SegmentNotFound,
        Message::Ack { .. } => MessageType::Ack,
        Message::PeerlistRequest => MessageType::PeerlistRequest,
        Message::PeerlistResponse { .. } => MessageType::PeerlistResponse,
        Message::Ping { .. } => MessageType::Ping,
        Message::Pong { .. } => MessageType::Pong,
    }
}

fn message_payload(message: &Message) -> (p: Vec<u8>)
    ensures
        p@ == payload_of(message@),
{
    let mut p: Vec<u8> = Vec::new();
    match message {
        Message::HandshakeRequest { claimed, name } => {
            p = encode_endpoint(*claimed);
            push_bytes(&mut p, name.as_str().as_bytes());
        },
        Message::HandshakeResponse { observed, name } => {
            p = encode_endpoint(*observed);
            push_bytes(&mut p, name.as_str().as_bytes());
        },
        Message::ManifestRequest => {},
        Message::ManifestResponse { data } => {
            push_bytes(&mut p, data.as_slice());
        },
        Message::SegmentRequest { filename, .. } => {
            push_bytes(&mut p, filename.as_str().as_bytes());
        },
        Message::SegmentContents { data, .. } => {
            push_bytes(&mut p, data.as_slice());
        },
        Message::SegmentNotFound { availability, .. } => {
            p = encode_availability(*availability);
        },
        Message::Ack { ack_type, next_start, next_count, .. } => {
            if *ack_type == AckType::Progress {
                push_big_endian(&mut p, *next_start as u64, 2);
                push_big_endian(&mut p, *next_count as u64, 2);
            }
        },
        Message::PeerlistRequest => {},
        Message::PeerlistResponse { peers } => {
            p = encode_peers(peers.as_slice());
        },
        Message::Ping { nonce, name } => {
            push_big_endian(&mut p, *nonce as u64, 4);
            push_bytes(&mut p, name.as_str().as_bytes());
        },
        Message::Pong { availability } => {
            p = encode_availability(*availability);
        },
    }
    proof {
        assert(p@ =~= payload_of(message@));
    }
    p
}

/// Encode a message into a datagram buffer (header + payload).
pub fn encode(message: &Message) -> (buf: Vec<u8>)
    ensures
        buf@ == datagram_of(message@),
{
    let (flags, transfer_id, packet_number, total_packets): (u8, u16, u16, u16) = match message {
        Message::SegmentRequest { transfer_id, .. } => (0, *transfer_id, 0, 0),
        Message::SegmentContents { transfer_id, packet_number, total_packets, .. } => (
            0,
            *transfer_id,
            *packet_number,
            *total_packets,
        ),
        Message::SegmentNotFound { transfer_id, retryable, .. } => (
            if *retryable {
                SEGMENT_NOT_READY
            } else {
                0
            },
            *transfer_id,
            0,
            0,
        ),
        Message::Ack { transfer_id, ack_type, .. } => (ack_type.code(), *transfer_id, 0, 0),
        _ => (0, 0, 0, 0),
    };
    let payload = message_payload(message);
    let mut buf: Vec<u8> = vec![0x51u8, 0x53u8, 0x54u8];
    buf.push(PROTOCOL_VERSION);
    buf.push(message_type(message).code());
    buf.push(flags);
    proof {
        assert(buf@ =~= magic().push(PROTOCOL_VERSION).push(type_code(type_of(message@))).push(
            flags_of(message@),
        ));
    }
    push_big_endian(&mut buf, payload.len() as u64, 2);
    push_big_endian(&mut buf, transfer_id as u64, 2);
    push_big_endian(&mut buf, packet_number as u64, 2);
    push_big_endian(&mut buf, total_packets as u64, 2);
    push_bytes(&mut buf, payload.as_slice());
    buf
}

/// The number in the bytes from `from` to `to`.
pub open spec fn field(d: Seq<u8>, from: int, to: int) -> int {
    number(d.subrange(from, to))
}

/// The inventory in a payload.
pub open spec fn parsed_availability(p: Seq<u8>) -> Result<
    Option<SegmentAvailability>,
    ProtocolError,
> {
    if p.len() == 0 {
        Ok(None)
    } else if p.len() == 10 {
        Ok(Some(SegmentAvailability { newest: field(p, 0, 8) as u64, mask: field(p, 8, 10) as u16 }))
    } else {
        Err(ProtocolError::BadAvailabilityPayload { len: p.len() as usize })
    }
}

/// The name that bytes encode.
pub open spec fn parsed_name(p: Seq<u8>) -> Result<Seq<char>, ProtocolError> {
    if valid_utf8(p) {
        Ok(decode_utf8(p))
    } else {
        Err(ProtocolError::InvalidUtf8)
    }
}

/// The endpoint in the first 6 bytes of a payload, and the name after it.
pub open spec fn parsed_endpoint_name(p: Seq<u8>) -> Result<(Endpoint, Seq<char>), ProtocolError> {
    if p.len() < 6 {
        Err(ProtocolError::TruncatedPayload { declared: p.len() as u16, actual: 0 })
    } else {
        match parsed_name(p.skip(6)) {
            Ok(name) => Ok(
                (
                    Endpoint::V4 { ip: field(p, 0, 4) as u32, port: field(p, 4, 6) as u16 },
                    name,
                ),
            ),
            Err(e) => Err(e),
        }
    }
}

/// The entries of a peerlist payload in chunks of 7 bytes, without those that
/// have port 0.
pub open spec fn parsed_peers(p: Seq<u8>) -> Seq<(Endpoint, u8)>
    decreases p.len(),
{
    if p.len() < 7 {
        Seq::empty()
    } else {
        let at = p.len() - 7;
        let rest = parsed_peers(p.take(at));
        let port = field(p, at + 4, at + 6) as u16;
        if port != 0 {
            rest.push((Endpoint::V4 { ip: field(p, at, at + 4) as u32, port }, p[at + 6]))
        } else {
            rest
        }
    }
}

/// The message with a type, a header and a payload.
pub open spec fn parsed_body(t: MessageType, d: Seq<u8>, p: Seq<u8>) -> Result<
    MessageView,
    ProtocolError,
> {
    let flags = d[5];
    let transfer_id = field(d, 8, 10) as u16;
    match t {
        MessageType::HandshakeRequest => match parsed_endpoint_name(p) {
            Ok((claimed, name)) => Ok(MessageView::HandshakeRequest { claimed, name }),
            Err(e) => Err(e),
        },
        MessageType::HandshakeResponse => match parsed_endpoint_name(p) {
            Ok((observed, name)) => Ok(MessageView::HandshakeResponse { observed, name }),
            Err(e) => Err(e),
        },
        MessageType::ManifestRequest => Ok(MessageView::ManifestRequest),
        MessageType::ManifestResponse => Ok(MessageView::ManifestResponse { data: p }),
        MessageType::SegmentRequest => match parsed_name(p) {
            Ok(filename) => Ok(MessageView::SegmentRequest { transfer_id, filename }),
            Err(e) => Err(e),
        },
        MessageType::SegmentContents => Ok(
            MessageView::SegmentContents {
                transfer_id,
                packet_number: field(d, 10, 12) as u16,
                total_packets: field(d, 12, 14) as u16,
                data: p,
            },
        ),
        MessageType::SegmentNotFound => match parsed_availability(p) {
            Ok(availability) => Ok(
                MessageView::SegmentNotFound {
                    transfer_id,
                    availability,
                    retryable: flags % 2 == 1,
                },
            ),
            Err(e) => Err(e),
        },
        MessageType::Ack => if flags == ack_code(AckType::Complete) {
            Ok(
                MessageView::Ack {
                    transfer_id,
                    ack_type: AckType::Complete,
                    next_start: 0,
                    next_count: 0,
                },
            )
        } else if flags != ack_code(AckType::Progress) {
            Err(ProtocolError::BadAckFlags { got: flags })
        } else if p.len() != 4 {
            Err(ProtocolError::BadAckPayload { len: p.len() as usize })
        } else {
            Ok(
                MessageView::Ack {
                    transfer_id,
                    ack_type: AckType::Progress,
                    next_start: field(p, 0, 2) as u16,
                    next_count: field(p, 2, 4) as u16,
                },
            )
        },
        MessageType::PeerlistRequest => Ok(MessageView::PeerlistRequest),
        MessageType::PeerlistResponse => if p.len() % 7 != 0 {
            Err(ProtocolError::BadPeerlistPayload { len: p.len() as usize })
        } else {
            Ok(MessageView::PeerlistResponse { peers: parsed_peers(p) })
        },
        MessageType::Ping => if p.len() < 4 {
            Err(ProtocolError::TruncatedPayload { declared: p.len() as u16, actual: 0 })
        } else {
            match parsed_name(p.skip(4)) {
                Ok(name) => Ok(MessageView::Ping { nonce: field(p, 0, 4) as u32, name }),
                Err(e) => Err(e),
            }
        },
        MessageType::Pong => match parsed_availability(p) {
            Ok(availability) => Ok(MessageView::Pong { availability }),
            Err(e) => Err(e),
        },
    }
}

/// The message in a datagram, or the first thing that is wrong with it.
/// Bytes behind the declared payload do not matter.
pub open spec fn parsed(d: Seq<u8>) -> Result<MessageView, ProtocolError> {
    if d.len() < HEADER_SIZE {
        Err(ProtocolError::TruncatedHeader { len: d.len() as usize })
    } else if d.take(3) != magic() {
        Err(ProtocolError::BadMagic { got: [d[0], d[1], d[2]] })
    } else if d[3] != PROTOCOL_VERSION {
        Err(ProtocolError::BadVersion { got: d[3] })
    } else {
        let declared = field(d, 6, 8);
        match type_of_code(d[4]) {
            None => Err(ProtocolError::UnknownMessageType { code: d[4] }),
            Some(t) => if d.len() - HEADER_SIZE < declared {
                Err(
                    ProtocolError::TruncatedPayload {
                        declared: declared as u16,
                        actual: (d.len() - HEADER_SIZE) as usize,
                    },
                )
            } else {
                parsed_body(t, d, d.subrange(HEADER_SIZE as int, HEADER_SIZE + declared))
            },
        }
    }
}

fn read_u16(s: &[u8], from: usize) -> (n: u16)
    requires
        from + 2 <= s@.len(),
    ensures
        n == field(s@, from as int, from + 2) as u16,
        n == field(s@, from as int, from + 2),
{
    proof {
        number_bounds(s@.subrange(from as int, from + 2));
        number_limits();
    }
    let len: usize = s.len();
    assert(from + 2 <= len);
    read_number(s, from, from + 2) as u16
}

fn read_u32(s: &[u8], from: usize) -> (n: u32)
    requires
        from + 4 <= s@.len(),
    ensures
        n == field(s@, from as int, from + 4) as u32,
        n == field(s@, from as int, from + 4),
{
    proof {
        number_bounds(s@.subrange(from as int, from + 4));
        number_limits();
    }
    let len: usize = s.len();
    assert(from + 4 <= len);
    read_number(s, from, from + 4) as u32
}

/// The optional inventory in a payload.
pub fn decode_availability(payload: &[u8]) -> (r: Result<Option<SegmentAvailability>, ProtocolError>)
    ensures
        r == parsed_availability(payload@),
{
    if payload.len() == 0 {
        Ok(None)
    } else if payload.len() == 10 {
        let newest = read_number(payload, 0, 8);
        let mask = read_u16(payload, 8);
        Ok(Some(SegmentAvailability { newest, mask }))
    } else {
        Err(ProtocolError::BadAvailabilityPayload { len: payload.len() })
    }
}

fn utf8_name(payload: &[u8]) -> (r: Result<String, ProtocolError>)
    ensures
        match r {
            Ok(name) => parsed_name(payload@) == Ok::<Seq<char>, ProtocolError>(name@),
            Err(e) => parsed_name(payload@) == Err::<Seq<char>, ProtocolError>(e),
        },
{
    match utf8_text(payload) {
        Some(name) => Ok(name),
        None => Err(ProtocolError::InvalidUtf8),
    }
}

fn split_endpoint_name(payload: &[u8]) -> (r: Result<(Endpoint, String), ProtocolError>)
    ensures
        match r {
            Ok((e, name)) => parsed_endpoint_name(payload@) == Ok::<
                (Endpoint, Seq<char>),
                ProtocolError,
            >((e, name@)),
            Err(e) => parsed_endpoint_name(payload@) == Err::<
                (Endpoint, Seq<char>),
                ProtocolError,
            >(e),
        },
{
    if payload.len() < 6 {
        return Err(
            ProtocolError::TruncatedPayload { declared: payload.len() as u16, actual: 0 },
        );
    }
    let ip = read_u32(payload, 0);
    let port = read_u16(payload, 4);
    proof {
        assert(payload@.subrange(6, payload@.len() as int) =~= payload@.skip(6));
    }
    match utf8_name(vstd::slice::slice_subrange(payload, 6, payload.len())) {
        Ok(name) => Ok((Endpoint::V4 { ip, port }, name)),
        Err(e) => Err(e),
    }
}

fn decode_peers(payload: &[u8]) -> (r: Result<Vec<(Endpoint, u8)>, ProtocolError>)
    ensures
        match r {
            Ok(peers) => payload@.len() % 7 == 0 && peers@ == parsed_peers(payload@),
            Err(e) => payload@.len() % 7 != 0 && e == (ProtocolError::BadPeerlistPayload {
                len: payload@.len() as usize,
            }),
        },
{
    if payload.len() % 7 != 0 {
        return Err(ProtocolError::BadPeerlistPayload { len: payload.len() });
    }
    let mut peers: Vec<(Endpoint, u8)> = Vec::new();
    let mut at: usize = 0;
    while at < payload.len()
        invariant
            at <= payload@.len(),
            at % 7 == 0,
            payload@.len() % 7 == 0,
            peers@ == parsed_peers(payload@.take(at as int)),
        decreases payload@.len() - at,
    {
        let ip = read_u32(payload, at);
        let port = read_u16(payload, at + 4);
        let flags = payload[at + 6];
        proof {
            let next = payload@.take(at + 7);
            assert(next.take(at as int) =~= payload@.take(at as int));
            assert(next.subrange(at as int, at + 4) =~= payload@.subrange(at as int, at + 4));
            assert(next.subrange(at + 4, at + 6) =~= payload@.subrange(at + 4, at + 6));
        }
        if port != 0 {
            peers.push((Endpoint::V4 { ip, port }, flags));
        }
        at = at + 7;
    }
    proof {
        assert(payload@.take(payload@.len() as int) =~= payload@);
    }
    Ok(peers)
}

fn decode_body(t: MessageType, datagram: &[u8], payload: &[u8]) -> (r: Result<
    Message,
    ProtocolError,
>)
    requires
        datagram@.len() >= HEADER_SIZE,
    ensures
        match r {
            Ok(m) => parsed_body(t, datagram@, payload@) == Ok::<MessageView, ProtocolError>(m@),
            Err(e) => parsed_body(t, datagram@, payload@) == Err::<MessageView, ProtocolError>(e),
        },
{
    let flags = datagram[5];
    let transfer_id = read_u16(datagram, 8);
    match t {
        MessageType::HandshakeRequest => match split_endpoint_name(payload) {
            Ok((claimed, name)) => Ok(Message::HandshakeRequest { claimed, name }),
            Err(e) => Err(e),
        },
        MessageType::HandshakeResponse => match split_endpoint_name(payload) {
            Ok((observed, name)) => Ok(Message::HandshakeResponse { observed, name }),
            Err(e) => Err(e),
        },
        MessageType::ManifestRequest => Ok(Message::ManifestRequest),
        MessageType::ManifestResponse => Ok(
            Message::ManifestResponse { data: vstd::slice::slice_to_vec(payload) },
        ),
        MessageType::SegmentRequest => match utf8_name(payload) {
            Ok(filename) => Ok(Message::SegmentRequest { transfer_id, filename }),
            Err(e) => Err(e),
        },
        MessageType::SegmentContents => Ok(
            Message::SegmentContents {
                transfer_id,
                packet_number: read_u16(datagram, 10),
                total_packets: read_u16(datagram, 12),
                data: vstd::slice::slice_to_vec(payload),
            },
        ),
        MessageType::SegmentNotFound => match decode_availability(payload) {
            Ok(availability) => {
                proof {
                    assert(flags & 1 != 0 <==> flags % 2 == 1) by (bit_vector);
                }
                Ok(
                    Message::SegmentNotFound {
                        transfer_id,
                        availability,
                        retryable: flags & SEGMENT_NOT_READY != 0,
                    },
                )
            },
            Err(e) => Err(e),
        },
        MessageType::Ack => match AckType::from_u8(flags) {
            None => {
                proof {
                    assert(ack_code(AckType::Complete) != flags);
                    assert(ack_code(AckType::Progress) != flags);
                }
                Err(ProtocolError::BadAckFlags { got: flags })
            },
            Some(AckType::Complete) => Ok(
                Message::Ack {
                    transfer_id,
                    ack_type: AckType::Complete,
                    next_start: 0,
                    next_count: 0,
                },
            ),
            Some(AckType::Progress) => {
                if payload.len() != 4 {
                    return Err(ProtocolError::BadAckPayload { len: payload.len() });
                }
                Ok(
                    Message::Ack {
                        transfer_id,
                        ack_type: AckType::Progress,
                        next_start: read_u16(payload, 0),
                        next_count: read_u16(payload, 2),
                    },
                )
            },
        },
        MessageType::PeerlistRequest => Ok(Message::PeerlistRequest),
        MessageType::PeerlistResponse => match decode_peers(payload) {
            Ok(peers) => Ok(Message::PeerlistResponse { peers }),
            Err(e) => Err(e),
        },
        MessageType::Ping => {
            if payload.len() < 4 {
                return Err(
                    ProtocolError::TruncatedPayload { declared: payload.len() as u16, actual: 0 },
                );
            }
            let nonce = read_u32(payload, 0);
            proof {
                assert(payload@.subrange(4, payload@.len() as int) =~= payload@.skip(4));
            }
            match utf8_name(vstd::slice::slice_subrange(payload, 4, payload.len())) {
                Ok(name) => Ok(Message::Ping { nonce, name }),
                Err(e) => Err(e),
            }
        },
        MessageType::Pong => match decode_availability(payload) {
            Ok(availability) => Ok(Message::Pong { availability }),
            Err(e) => Err(e),
        },
    }
}

/// Decode a datagram into a message, validating magic, version and lengths.
pub fn decode(datagram: &[u8]) -> (r: Result<Message, ProtocolError>)
    ensures
        match r {
            Ok(m) => parsed(datagram@) == Ok::<MessageView, ProtocolError>(m@),
            Err(e) => parsed(datagram@) == Err::<MessageView, ProtocolError>(e),
        },
{
    if datagram.len() < HEADER_SIZE {
        return Err(ProtocolError::TruncatedHeader { len: datagram.len() });
    }
    proof {
        assert(datagram@.take(3) =~= seq![datagram@[0], datagram@[1], datagram@[2]]);
        assert(magic()[0] == 0x51 && magic()[1] == 0x53 && magic()[2] == 0x54);
    }
    if !(datagram[0] == 0x51 && datagram[1] == 0x53 && datagram[2] == 0x54) {
        return Err(ProtocolError::BadMagic { got: [datagram[0], datagram[1], datagram[2]] });
    }
    if datagram[3] != PROTOCOL_VERSION {
        return Err(ProtocolError::BadVersion { got: datagram[3] });
    }
    let t = match MessageType::from_u8(datagram[4]) {
        Some(t) => t,
        None => {
            return Err(ProtocolError::UnknownMessageType { code: datagram[4] });
        },
    };
    let declared: u16 = read_u16(datagram, 6);
    let actual: usize = datagram.len() - HEADER_SIZE;
    if actual < declared as usize {
        return Err(ProtocolError::TruncatedPayload { declared, actual });
    }
    let payload = vstd::slice::slice_subrange(
        datagram,
        HEADER_SIZE,
        HEADER_SIZE + declared as usize,
    );
    decode_body(t, datagram, payload)
}

/// Whether an endpoint survives the 6 bytes that a handshake gives it.
pub open spec fn plain_endpoint(e: Endpoint) -> bool {
    match e {
        Endpoint::V4 { ip, port } => port != 0 || ip == 0,
        Endpoint::V6 { .. } => false,
    }
}

/// Whether every entry of a peerlist is an IPv4 endpoint with a port.
pub open spec fn plain_peers(peers: Seq<(Endpoint, u8)>) -> bool {
    forall|i: int|
        0 <= i < peers.len() ==> {
            &&& (#[trigger] peers[i]).0 is V4
            &&& peers[i].0.spec_port() != 0
        }
}

/// Whether a datagram holds all of a message: the payload fits the length
/// field, endpoints are IPv4, and a Complete ACK asks for no packets.
pub open spec fn representable(m: MessageView) -> bool {
    &&& payload_of(m).len() <= 0xffff
    &&& match m {
        MessageView::HandshakeRequest { claimed, .. } => plain_endpoint(claimed),
        MessageView::HandshakeResponse { observed, .. } => plain_endpoint(observed),
        MessageView::PeerlistResponse { peers } => plain_peers(peers),
        MessageView::Ack { ack_type: AckType::Complete, next_start, next_count, .. } => next_start
            == 0 && next_count == 0,
        _ => true,
    }
}

proof fn name_reads_back(name: Seq<char>)
    ensures
        parsed_name(encode_utf8(name)) == Ok::<Seq<char>, ProtocolError>(name),
{
    vstd::utf8::encode_utf8_valid_utf8(name);
    vstd::utf8::encode_utf8_decode_utf8(name);
}

/// An inventory payload is empty or ten bytes long, and any such payload is
/// one.
pub proof fn availability_lengths(p: Seq<u8>)
    ensures
        parsed_availability(p) is Err <==> p.len() != 0 && p.len() != 10,
        p.len() != 0 && p.len() != 10 ==> parsed_availability(p) == Err::<
            Option<SegmentAvailability>,
            ProtocolError,
        >(ProtocolError::BadAvailabilityPayload { len: p.len() as usize }),
        parsed_availability(p) == Ok::<Option<SegmentAvailability>, ProtocolError>(None) <==> p.len()
            == 0,
{
}

/// An inventory reads back from its payload.
pub proof fn availability_reads_back(a: Option<SegmentAvailability>)
    ensures
        parsed_availability(availability_bytes(a)) == Ok::<
            Option<SegmentAvailability>,
            ProtocolError,
        >(a),
{
    if let Some(x) = a {
        number_limits();
        big_endian_reads_back(x.newest as int, 8);
        big_endian_reads_back(x.mask as int, 2);
        let p = availability_bytes(a);
        assert(p.subrange(0, 8) =~= big_endian(x.newest as int, 8));
        assert(p.subrange(8, 10) =~= big_endian(x.mask as int, 2));
    }
}

proof fn zero_number(width: nat)
    ensures
        number(big_endian(0, width)) == 0,
        big_endian(0, width).len() == width,
        forall|i: int| 0 <= i < width ==> #[trigger] big_endian(0, width)[i] == 0,
    decreases width,
{
    if width > 0 {
        zero_number((width - 1) as nat);
        assert(big_endian(0, width).drop_last() =~= big_endian(0, (width - 1) as nat));
    }
}

proof fn endpoint_name_reads_back(e: Endpoint, name: Seq<char>)
    requires
        plain_endpoint(e),
    ensures
        parsed_endpoint_name(endpoint_bytes(e) + encode_utf8(name)) == Ok::<
            (Endpoint, Seq<char>),
            ProtocolError,
        >((e, name)),
{
    let p = endpoint_bytes(e) + encode_utf8(name);
    name_reads_back(name);
    number_limits();
    if let Endpoint::V4 { ip, port } = e {
        if port != 0 {
            big_endian_reads_back(ip as int, 4);
            big_endian_reads_back(port as int, 2);
            assert(p.subrange(0, 4) =~= big_endian(ip as int, 4));
            assert(p.subrange(4, 6) =~= big_endian(port as int, 2));
        } else {
            zero_number(6);
            zero_number(4);
            zero_number(2);
            assert(p.subrange(0, 4) =~= big_endian(0, 4));
            assert(p.subrange(4, 6) =~= big_endian(0, 2));
        }
        assert(p.skip(6) =~= encode_utf8(name));
    }
}

proof fn peers_read_back(peers: Seq<(Endpoint, u8)>)
    requires
        plain_peers(peers),
    ensures
        peers_bytes(peers).len() == 7 * peers.len(),
        parsed_peers(peers_bytes(peers)) == peers,
    decreases peers.len(),
{
    if peers.len() > 0 {
        let rest = peers.drop_last();
        assert forall|i: int| 0 <= i < rest.len() implies (#[trigger] rest[i]).0 is V4
            && rest[i].0.spec_port() != 0 by {
            assert(rest[i] == peers[i]);
        }
        peers_read_back(rest);
        let p = peers_bytes(peers);
        assert(peers.last() == peers[peers.len() - 1]);
        if let Endpoint::V4 { ip, port } = peers.last().0 {
            number_limits();
            big_endian_reads_back(ip as int, 4);
            big_endian_reads_back(port as int, 2);
            let at = p.len() - 7;
            assert(p.take(at) =~= peers_bytes(rest));
            assert(p.subrange(at, at + 4) =~= big_endian(ip as int, 4));
            assert(p.subrange(at + 4, at + 6) =~= big_endian(port as int, 2));
            assert(p[at + 6] == peers.last().1);
            assert(parsed_peers(p) =~= peers);
        }
    } else {
        assert(parsed_peers(peers_bytes(peers)) =~= peers);
    }
}

/// The header fields of a message's datagram.
proof fn header_reads_back(m: MessageView)
    requires
        payload_of(m).len() <= 0xffff,
    ensures
        ({
            let d = datagram_of(m);
            let p = payload_of(m);
            &&& d.len() == HEADER_SIZE + p.len()
            &&& d.take(3) == magic()
            &&& d[3] == PROTOCOL_VERSION
            &&& d[4] == type_code(type_of(m))
            &&& d[5] == flags_of(m)
            &&& field(d, 6, 8) == p.len()
            &&& field(d, 8, 10) == transfer_of(m)
            &&& field(d, 10, 12) == packet_of(m).0
            &&& field(d, 12, 14) == packet_of(m).1
            &&& d.subrange(14, HEADER_SIZE + p.len()) == p
        }),
{
    let d = datagram_of(m);
    let p = payload_of(m);
    number_limits();
    big_endian_reads_back(p.len() as int, 2);
    big_endian_reads_back(transfer_of(m) as int, 2);
    big_endian_reads_back(packet_of(m).0 as int, 2);
    big_endian_reads_back(packet_of(m).1 as int, 2);
    assert(d.take(3) =~= magic());
    assert(d.subrange(6, 8) =~= big_endian(p.len() as int, 2));
    assert(d.subrange(8, 10) =~= big_endian(transfer_of(m) as int, 2));
    assert(d.subrange(10, 12) =~= big_endian(packet_of(m).0 as int, 2));
    assert(d.subrange(12, 14) =~= big_endian(packet_of(m).1 as int, 2));
    assert(d.subrange(14, HEADER_SIZE + p.len()) =~= p);
}

/// What was encoded decodes to the same message, for every message that a
/// datagram can hold.
pub proof fn decode_undoes_encode(m: MessageView)
    requires
        representable(m),
    ensures
        parsed(datagram_of(m)) == Ok::<MessageView, ProtocolError>(m),
{
    let d = datagram_of(m);
    let p = payload_of(m);
    header_reads_back(m);
    type_codes_differ(type_of(m));
    match m {
        MessageView::HandshakeRequest { claimed, name } => {
            endpoint_name_reads_back(claimed, name);
        },
        MessageView::HandshakeResponse { observed, name } => {
            endpoint_name_reads_back(observed, name);
        },
        MessageView::SegmentRequest { filename, .. } => {
            name_reads_back(filename);
        },
        MessageView::SegmentNotFound { availability, .. } => {
            availability_reads_back(availability);
        },
        MessageView::Ack { ack_type, next_start, next_count, .. } => {
            if ack_type == AckType::Progress {
                number_limits();
                big_endian_reads_back(next_start as int, 2);
                big_endian_reads_back(next_count as int, 2);
                assert(p.subrange(0, 2) =~= big_endian(next_start as int, 2));
                assert(p.subrange(2, 4) =~= big_endian(next_count as int, 2));
            }
        },
        MessageView::PeerlistResponse { peers } => {
            peers_read_back(peers);
        },
        MessageView::Ping { nonce, name } => {
            number_limits();
            big_endian_reads_back(nonce as int, 4);
            name_reads_back(name);
            assert(p.subrange(0, 4) =~= big_endian(nonce as int, 4));
            assert(p.skip(4) =~= encode_utf8(name));
        },
        MessageView::Pong { availability } => {
            availability_reads_back(availability);
        },
        _ => {},
    }
}

/// Bytes behind the declared payload change nothing.
pub proof fn trailing_bytes_are_ignored(d: Seq<u8>, more: Seq<u8>)
    requires
        parsed(d) is Ok,
    ensures
        parsed(d + more) == parsed(d),
{
    let e = d + more;
    assert(e.take(3) =~= d.take(3));
    assert(e.subrange(6, 8) =~= d.subrange(6, 8));
    assert(e.subrange(8, 10) =~= d.subrange(8, 10));
    assert(e.subrange(10, 12) =~= d.subrange(10, 12));
    assert(e.subrange(12, 14) =~= d.subrange(12, 14));
    let declared = field(d, 6, 8);
    number_bounds(d.subrange(6, 8));
    assert(e.subrange(14, 14 + declared) =~= d.subrange(14, 14 + declared));
}

} // verus!
