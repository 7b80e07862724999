//! What holds of the bytes of a datagram.
use vstd::prelude::*;
use vstd::utf8::encode_utf8;
use crate::endpoint::Endpoint;
use crate::protocol::{
    big_endian, datagram_of, parsed, payload_of, type_code, type_of_code, AckType, MessageType,
    MessageView,
};

verus! {

/// The number that two bytes of a datagram spell, the first one being the
/// higher.
pub open spec fn word(d: Seq<u8>, i: int) -> int {
    d[i] * 256 + d[i + 1]
}

proof fn two_bytes(n: int)
    requires
        0 <= n,
    ensures
        big_endian(n, 2) == seq![(n / 256 % 256) as u8, (n % 256) as u8],
{
    reveal_with_fuel(big_endian, 3);
    assert(big_endian(n, 2) =~= seq![(n / 256 % 256) as u8, (n % 256) as u8]);
}

/// The code of each kind of message.
pub open spec fn code_of(m: MessageView) -> u8 {
    match m {
        MessageView::HandshakeRequest { .. } => 0x01,
        MessageView::HandshakeResponse { .. } => 0x02,
        MessageView::ManifestRequest => 0x20,
        MessageView::ManifestResponse { .. } => 0x21,
        MessageView::SegmentRequest { .. } => 0x30,
        MessageView::SegmentContents { .. } => 0x31,
        MessageView::SegmentNotFound { .. } => 0x32,
        MessageView::Ack { .. } => 0x40,
        MessageView::PeerlistRequest => 0x50,
        MessageView::PeerlistResponse { .. } => 0x51,
        MessageView::Ping { .. } => 0x60,
        MessageView::Pong { .. } => 0x61,
    }
}

/// A datagram begins with QST, the version 3, the code of its kind, and flags:
/// 1 for a refusal that is for the moment, 4 for the final ACK, else 0. Then come
/// the length of the payload, the transfer, the packet and the number of packets
/// in two bytes each, with 0 where a message has none, and then the payload.
pub proof fn datagrams_have_a_header(m: MessageView)
    requires
        payload_of(m).len() <= 0xffff,
    ensures
        ({
            let d = datagram_of(m);
            &&& d.len() == 14 + payload_of(m).len()
            &&& d[0] == 0x51 && d[1] == 0x53 && d[2] == 0x54 && d[3] == 3
            &&& d[4] == code_of(m)
            &&& d[5] == match m {
                MessageView::SegmentNotFound { retryable, .. } => if retryable {
                    1u8
                } else {
                    0u8
                },
                MessageView::Ack { ack_type, .. } => if ack_type == AckType::Complete {
                    4u8
                } else {
                    0u8
                },
                _ => 0u8,
            }
            &&& word(d, 6) == payload_of(m).len()
            &&& word(d, 8) == match m {
                MessageView::SegmentRequest { transfer_id, .. } => transfer_id,
                MessageView::SegmentContents { transfer_id, .. } => transfer_id,
                MessageView::SegmentNotFound { transfer_id, .. } => transfer_id,
                MessageView::Ack { transfer_id, .. } => transfer_id,
                _ => 0,
            }
            &&& word(d, 10) == match m {
                MessageView::SegmentContents { packet_number, .. } => packet_number,
                _ => 0,
            }
            &&& word(d, 12) == match m {
                MessageView::SegmentContents { total_packets, .. } => total_packets,
                _ => 0,
            }
            &&& d.skip(14) == payload_of(m)
        }),
{
    let d = datagram_of(m);
    two_bytes(payload_of(m).len() as int);
    two_bytes(crate::protocol::transfer_of(m) as int);
    two_bytes(crate::protocol::packet_of(m).0 as int);
    two_bytes(crate::protocol::packet_of(m).1 as int);
    assert(d.skip(14) =~= payload_of(m));
}

/// What the payload of a message is: the bytes of a file or a manifest as they
/// are, names in UTF-8, an ACK that goes on with its range in two bytes each,
/// and a PING with its nonce in four bytes in front of the name.
pub proof fn payloads_carry_their_message(
    id: u16,
    k: u16,
    n: u16,
    data: Seq<u8>,
    name: Seq<char>,
    nonce: u32,
)
    ensures
        payload_of(MessageView::ManifestResponse { data }) == data,
        payload_of(
            MessageView::SegmentContents {
                transfer_id: id,
                packet_number: k,
                total_packets: n,
                data,
            },
        ) == data,
        payload_of(MessageView::SegmentRequest { transfer_id: id, filename: name }) == encode_utf8(
            name,
        ),
        payload_of(MessageView::ManifestRequest).len() == 0,
        payload_of(MessageView::PeerlistRequest).len() == 0,
        ({
            let p = payload_of(
                MessageView::Ack {
                    transfer_id: id,
                    ack_type: AckType::Progress,
                    next_start: k,
                    next_count: n,
                },
            );
            p.len() == 4 && word(p, 0) == k && word(p, 2) == n
        }),
        payload_of(
            MessageView::Ack {
                transfer_id: id,
                ack_type: AckType::Complete,
                next_start: k,
                next_count: n,
            },
        ).len() == 0,
        ({
            let p = payload_of(MessageView::Ping { nonce, name });
            &&& p.len() == 4 + encode_utf8(name).len()
            &&& word(p, 0) * 0x1_0000 + word(p, 2) == nonce
            &&& p.skip(4) == encode_utf8(name)
        }),
{
    two_bytes(k as int);
    two_bytes(n as int);
    reveal_with_fuel(big_endian, 5);
    assert(payload_of(MessageView::Ping { nonce, name }).skip(4) =~= encode_utf8(name));
}

/// A handshake carries an IPv4 address in four bytes and the port in two, zeros
/// where there is no such address or port, and then the name.
pub proof fn handshakes_carry_an_address(
    ip: u32,
    port: u16,
    name: Seq<char>,
)
    requires
        port != 0,
    ensures
        ({
            let e = Endpoint::V4 { ip, port };
            let p = payload_of(MessageView::HandshakeRequest { claimed: e, name });
            &&& p == payload_of(MessageView::HandshakeResponse { observed: e, name })
            &&& p.len() == 6 + encode_utf8(name).len()
            &&& word(p, 0) * 0x1_0000 + word(p, 2) == ip
            &&& word(p, 4) == port
            &&& p.skip(6) == encode_utf8(name)
        }),
{
    let e = Endpoint::V4 { ip, port };
    two_bytes(port as int);
    reveal_with_fuel(big_endian, 7);
    assert(payload_of(MessageView::HandshakeRequest { claimed: e, name }).skip(6) =~= encode_utf8(
        name,
    ));
}

proof fn field_is_word(d: Seq<u8>, i: int)
    requires
        0 <= i,
        i + 2 <= d.len(),
    ensures
        crate::protocol::field(d, i, i + 2) == word(d, i),
{
    reveal_with_fuel(crate::protocol::number, 3);
    let two = d.subrange(i, i + 2);
    assert(two.drop_last().drop_last().len() == 0);
    assert(two.drop_last().last() == d[i]);
    assert(two.last() == d[i + 1]);
}

/// Whether a datagram has a header that can be read: QST, the version 3, the
/// code of a kind of message, and no more bytes announced than there are.
pub open spec fn has_header(d: Seq<u8>) -> bool {
    &&& d.len() >= 14
    &&& d[0] == 0x51 && d[1] == 0x53 && d[2] == 0x54 && d[3] == 3
    &&& d[4] == 0x01 || d[4] == 0x02 || d[4] == 0x20 || d[4] == 0x21 || d[4] == 0x30 || d[4] == 0x31
        || d[4] == 0x32 || d[4] == 0x40 || d[4] == 0x50 || d[4] == 0x51 || d[4] == 0x60 || d[4]
        == 0x61
    &&& d.len() >= 14 + word(d, 6)
}

/// A datagram is a message only if its header can be read, and it is then of the
/// kind that its code says. Packets and manifests are messages whenever their
/// header can be read: the payload is taken as it is, as long as announced, with
/// the transfer, the packet and the number of packets of the header.
pub proof fn only_whole_datagrams_are_messages(d: Seq<u8>)
    ensures
        match parsed(d) {
            Ok(m) => has_header(d) && d[4] == code_of(m),
            Err(_) => true,
        },
        has_header(d) && d[4] == 0x31 ==> match parsed(d) {
            Ok(MessageView::SegmentContents { transfer_id, packet_number, total_packets, data }) => {
                &&& transfer_id == word(d, 8)
                &&& packet_number == word(d, 10)
                &&& total_packets == word(d, 12)
                &&& data == d.subrange(14, 14 + word(d, 6))
            },
            _ => false,
        },
        has_header(d) && d[4] == 0x21 ==> match parsed(d) {
            Ok(MessageView::ManifestResponse { data }) => data == d.subrange(14, 14 + word(d, 6)),
            _ => false,
        },
        has_header(d) && d[4] == 0x20 ==> match parsed(d) {
            Ok(MessageView::ManifestRequest) => true,
            _ => false,
        },
        has_header(d) && d[4] == 0x50 ==> match parsed(d) {
            Ok(MessageView::PeerlistRequest) => true,
            _ => false,
        },
{
    if d.len() >= 14 {
        field_is_word(d, 6);
        field_is_word(d, 8);
        field_is_word(d, 10);
        field_is_word(d, 12);
        let three = seq![0x51u8, 0x53u8, 0x54u8];
        if d.take(3) == three {
            assert(d.take(3)[0] == 0x51 && d.take(3)[1] == 0x53 && d.take(3)[2] == 0x54);
        }
        if d[0] == 0x51 && d[1] == 0x53 && d[2] == 0x54 {
            assert(d.take(3) =~= three);
        }
        code_is_known(d[4]);
    }
}

proof fn code_is_known(code: u8)
    ensures
        match type_of_code(code) {
            Some(t) => type_code(t) == code,
            None => !(code == 0x01 || code == 0x02 || code == 0x20 || code == 0x21 || code == 0x30
                || code == 0x31 || code == 0x32 || code == 0x40 || code == 0x50 || code == 0x51
                || code == 0x60 || code == 0x61),
        },
{
    assert(type_code(MessageType::HandshakeRequest) == 0x01);
    assert(type_code(MessageType::HandshakeResponse) == 0x02);
    assert(type_code(MessageType::ManifestRequest) == 0x20);
    assert(type_code(MessageType::ManifestResponse) == 0x21);
    assert(type_code(MessageType::SegmentRequest) == 0x30);
    assert(type_code(MessageType::SegmentContents) == 0x31);
    assert(type_code(MessageType::SegmentNotFound) == 0x32);
    assert(type_code(MessageType::Ack) == 0x40);
    assert(type_code(MessageType::PeerlistRequest) == 0x50);
    assert(type_code(MessageType::PeerlistResponse) == 0x51);
    assert(type_code(MessageType::Ping) == 0x60);
    assert(type_code(MessageType::Pong) == 0x61);
}

} // verus!
