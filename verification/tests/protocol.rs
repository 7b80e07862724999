use qstream::endpoint::Endpoint;
use qstream::protocol::{
    decode, decode_availability, encode, encode_availability, AckType, Message, MessageType,
    ProtocolError, SegmentAvailability, HEADER_SIZE, PEER_PARENT, PEER_UPNP_MAPPED,
    SEGMENT_NOT_READY,
};

#[test]
fn roundtrip_handshake_request() {
    let msg = Message::HandshakeRequest {
        claimed: Endpoint::v4(203, 0, 113, 7, 54444),
        name: "peer-1".to_string(),
    };
    assert_eq!(decode(&encode(&msg)).unwrap(), msg);
}

#[test]
fn roundtrip_handshake_request_no_mapping() {
    let msg = Message::HandshakeRequest {
        claimed: Endpoint::v4(0, 0, 0, 0, 0),
        name: "peer-1".to_string(),
    };
    assert_eq!(decode(&encode(&msg)).unwrap(), msg);
}

#[test]
fn roundtrip_handshake_response() {
    let msg = Message::HandshakeResponse {
        observed: Endpoint::v4(203, 0, 113, 7, 54321),
        name: "master".to_string(),
    };
    assert_eq!(decode(&encode(&msg)).unwrap(), msg);
}

#[test]
fn roundtrip_ping_pong() {
    let ping = Message::Ping {
        nonce: 0xDEADBEEF,
        name: "peer-1".to_string(),
    };
    assert_eq!(decode(&encode(&ping)).unwrap(), ping);
    let legacy_pong = Message::Pong { availability: None };
    assert_eq!(decode(&encode(&legacy_pong)).unwrap(), legacy_pong);
    let pong = Message::Pong {
        availability: Some(SegmentAvailability {
            newest: 133_579,
            mask: 0b1011,
        }),
    };
    assert_eq!(decode(&encode(&pong)).unwrap(), pong);
}

#[test]
fn roundtrip_manifest_response() {
    let msg = Message::ManifestResponse {
        data: b"#EXTM3U\n#EXT-X-TARGETDURATION:2\n#EXTINF:2.0,\nseg_0000.ts\n".to_vec(),
    };
    assert_eq!(decode(&encode(&msg)).unwrap(), msg);
}

#[test]
fn roundtrip_segment_request() {
    let msg = Message::SegmentRequest {
        transfer_id: 0xBEEF,
        filename: "seg_0042.ts".to_string(),
    };
    assert_eq!(decode(&encode(&msg)).unwrap(), msg);
}

#[test]
fn roundtrip_segment_contents() {
    let msg = Message::SegmentContents {
        transfer_id: 0xBEEF,
        packet_number: 7,
        total_packets: 60,
        data: vec![0x42; 1400],
    };
    assert_eq!(decode(&encode(&msg)).unwrap(), msg);
}

#[test]
fn roundtrip_segment_not_found() {
    let legacy = Message::SegmentNotFound {
        transfer_id: 0xBEEF,
        availability: None,
        retryable: false,
    };
    assert_eq!(decode(&encode(&legacy)).unwrap(), legacy);
    let msg = Message::SegmentNotFound {
        transfer_id: 0xBEEF,
        availability: Some(SegmentAvailability {
            newest: 133_579,
            mask: 0b1111,
        }),
        retryable: true,
    };
    assert_eq!(decode(&encode(&msg)).unwrap(), msg);
    let datagram = encode(&msg);
    assert_eq!(datagram[5], SEGMENT_NOT_READY);
}

#[test]
fn availability_mask_represents_newest_first() {
    let availability = SegmentAvailability {
        newest: 100,
        mask: 0b0101,
    };
    assert_eq!(availability.contains(100), Some(true));
    assert_eq!(availability.contains(99), Some(false));
    assert_eq!(availability.contains(98), Some(true));
    assert_eq!(availability.contains(84), None);
    assert_eq!(availability.contains(101), None);
}

#[test]
fn rejects_invalid_availability_payload() {
    let mut datagram = encode(&Message::Pong { availability: None });
    datagram[6] = 0;
    datagram[7] = 1;
    datagram.push(0);
    assert!(matches!(
        decode(&datagram),
        Err(ProtocolError::BadAvailabilityPayload { len: 1 })
    ));
}

#[test]
fn roundtrip_ack_progress() {
    let msg = Message::Ack {
        transfer_id: 0xBEEF,
        ack_type: AckType::Progress,
        next_start: 6,
        next_count: 10,
    };
    assert_eq!(decode(&encode(&msg)).unwrap(), msg);
}

#[test]
fn roundtrip_ack_complete() {
    let msg = Message::Ack {
        transfer_id: 0xBEEF,
        ack_type: AckType::Complete,
        next_start: 0,
        next_count: 0,
    };
    assert_eq!(decode(&encode(&msg)).unwrap(), msg);
}

#[test]
fn roundtrip_peerlist_request() {
    let msg = Message::PeerlistRequest;
    let datagram = encode(&msg);
    assert_eq!(datagram.len(), HEADER_SIZE);
    assert_eq!(decode(&datagram).unwrap(), msg);
}

#[test]
fn roundtrip_peerlist_response() {
    let msg = Message::PeerlistResponse {
        peers: vec![
            (
                Endpoint::v4(127, 0, 0, 1, 4444),
                PEER_UPNP_MAPPED | PEER_PARENT,
            ),
            (Endpoint::v4(10, 0, 0, 2, 5555), 0),
        ],
    };
    assert_eq!(decode(&encode(&msg)).unwrap(), msg);
}

#[test]
fn peerlist_response_wire_format() {
    let msg = Message::PeerlistResponse {
        peers: vec![
            (
                Endpoint::v4(127, 0, 0, 1, 4444),
                PEER_UPNP_MAPPED | PEER_PARENT,
            ),
            (Endpoint::v4(10, 0, 0, 2, 5555), 0),
        ],
    };
    let expected: Vec<u8> = vec![
        0x51, 0x53, 0x54, 0x03, 0x51, 0x00, 0x00, 0x0E, 0x00, 0x00, 0x00, 0x00, 0x00, 0x00,
        0x7F, 0x00, 0x00, 0x01, 0x11, 0x5C, 0x05, // 127.0.0.1:4444, upnp + parent
        0x0A, 0x00, 0x00, 0x02, 0x15, 0xB3, 0x00, // 10.0.0.2:5555
    ];
    assert_eq!(encode(&msg), expected);
    assert_eq!(decode(&expected).unwrap(), msg);
}

#[test]
fn rejects_bad_peerlist_payload() {
    let msg = Message::PeerlistResponse {
        peers: vec![(Endpoint::v4(127, 0, 0, 1, 4444), 0)],
    };
    let mut datagram = encode(&msg);
    // Declare a 5-byte payload instead of 7.
    datagram[6] = 0x00;
    datagram[7] = 0x05;
    datagram.truncate(HEADER_SIZE + 5);
    assert!(matches!(
        decode(&datagram),
        Err(ProtocolError::BadPeerlistPayload { len: 5 })
    ));
}

#[test]
fn manifest_request_wire_format() {
    let expected: Vec<u8> = vec![
        0x51, 0x53, 0x54, // magic QST
        0x03, // version
        0x20, // MANIFEST_REQUEST
        0x00, // flags
        0x00, 0x00, // data length
        0x00, 0x00, // transfer id
        0x00, 0x00, // packet #
        0x00, 0x00, // total
    ];
    assert_eq!(encode(&Message::ManifestRequest), expected);
    assert_eq!(decode(&expected).unwrap(), Message::ManifestRequest);
}

#[test]
fn handshake_request_wire_format() {
    let msg = Message::HandshakeRequest {
        claimed: Endpoint::v4(203, 0, 113, 7, 54444),
        name: "peer-1".to_string(),
    };
    let mut expected: Vec<u8> = vec![
        0x51, 0x53, 0x54, 0x03, 0x01, 0x00, 0x00, 0x0C, 0x00, 0x00, 0x00, 0x00, 0x00, 0x00,
        0xCB, 0x00, 0x71, 0x07, 0xD4, 0xAC, // claimed 203.0.113.7:54444
    ];
    expected.extend_from_slice(b"peer-1");
    assert_eq!(encode(&msg), expected);
    assert_eq!(decode(&expected).unwrap(), msg);
}

#[test]
fn ping_wire_format() {
    let msg = Message::Ping {
        nonce: 0xDEADBEEF,
        name: "peer-1".to_string(),
    };
    let mut expected: Vec<u8> = vec![
        0x51, 0x53, 0x54, 0x03, 0x60, 0x00, 0x00, 0x0A, 0x00, 0x00, 0x00, 0x00, 0x00, 0x00,
        0xDE, 0xAD, 0xBE, 0xEF, // nonce
    ];
    expected.extend_from_slice(b"peer-1");
    assert_eq!(encode(&msg), expected);
    assert_eq!(decode(&expected).unwrap(), msg);
}

#[test]
fn segment_request_wire_format() {
    let msg = Message::SegmentRequest {
        transfer_id: 0x01A7,
        filename: "seg_0042.ts".to_string(),
    };
    let mut expected: Vec<u8> = vec![
        0x51, 0x53, 0x54, 0x03, 0x30, 0x00, 0x00, 0x0B, 0x01, 0xA7, 0x00, 0x00, 0x00, 0x00,
    ];
    expected.extend_from_slice(b"seg_0042.ts");
    assert_eq!(encode(&msg), expected);
    assert_eq!(decode(&expected).unwrap(), msg);
}

#[test]
fn segment_contents_wire_format() {
    let msg = Message::SegmentContents {
        transfer_id: 0x01A7,
        packet_number: 1,
        total_packets: 60,
        data: vec![0xAB; 1400],
    };
    let mut expected: Vec<u8> = vec![
        0x51, 0x53, 0x54, 0x03, 0x31, 0x00, 0x05, 0x78, 0x01, 0xA7, 0x00, 0x01, 0x00, 0x3C,
    ];
    expected.extend(vec![0xAB; 1400]);
    assert_eq!(encode(&msg), expected);
    assert_eq!(decode(&expected).unwrap(), msg);
}

#[test]
fn ack_progress_wire_format() {
    let msg = Message::Ack {
        transfer_id: 0x01A7,
        ack_type: AckType::Progress,
        next_start: 6,
        next_count: 5,
    };
    let expected: Vec<u8> = vec![
        0x51, 0x53, 0x54, 0x03, 0x40, 0x00, 0x00, 0x04, 0x01, 0xA7, 0x00, 0x00, 0x00, 0x00,
        0x00, 0x06, 0x00, 0x05,
    ];
    assert_eq!(encode(&msg), expected);
    assert_eq!(decode(&expected).unwrap(), msg);
}

#[test]
fn rejects_short_datagram() {
    assert!(matches!(
        decode(&[0x51, 0x53, 0x54]),
        Err(ProtocolError::TruncatedHeader { .. })
    ));
}

#[test]
fn rejects_bad_magic() {
    let mut datagram = encode(&Message::ManifestRequest);
    datagram[0] = 0x00;
    assert!(matches!(
        decode(&datagram),
        Err(ProtocolError::BadMagic { .. })
    ));
}

#[test]
fn rejects_bad_version() {
    let mut datagram = encode(&Message::ManifestRequest);
    datagram[3] = 0x63;
    assert!(matches!(
        decode(&datagram),
        Err(ProtocolError::BadVersion { .. })
    ));
}

#[test]
fn rejects_unknown_message_type() {
    let mut datagram = encode(&Message::ManifestRequest);
    datagram[4] = 0x99;
    assert!(matches!(
        decode(&datagram),
        Err(ProtocolError::UnknownMessageType { code: 0x99 })
    ));
}

#[test]
fn rejects_truncated_payload() {
    let datagram = encode(&Message::SegmentRequest {
        transfer_id: 1,
        filename: "seg_0042.ts".to_string(),
    });
    let truncated = &datagram[..datagram.len() - 2];
    assert!(matches!(
        decode(truncated),
        Err(ProtocolError::TruncatedPayload { .. })
    ));
}

#[test]
fn rejects_bad_ack_flags() {
    let mut datagram = encode(&Message::Ack {
        transfer_id: 1,
        ack_type: AckType::Complete,
        next_start: 0,
        next_count: 0,
    });
    datagram[5] = 0x02;
    assert!(matches!(
        decode(&datagram),
        Err(ProtocolError::BadAckFlags { got: 0x02 })
    ));
}

#[test]
fn rejects_bad_ack_payload() {
    let msg = Message::Ack {
        transfer_id: 1,
        ack_type: AckType::Progress,
        next_start: 6,
        next_count: 10,
    };
    let mut datagram = encode(&msg);
    // Declare a 5-byte payload instead of 4.
    datagram[6] = 0x00;
    datagram[7] = 0x05;
    datagram.push(0x00);
    assert!(matches!(
        decode(&datagram),
        Err(ProtocolError::BadAckPayload { len: 5 })
    ));
}

#[test]
fn message_types_keep_their_codes() {
    assert_eq!(MessageType::from_u8(0x31), Some(MessageType::SegmentContents));
    assert_eq!(MessageType::from_u8(0x03), None);
    for code in 0..=255u8 {
        if let Some(t) = MessageType::from_u8(code) {
            assert_eq!(t.code(), code);
        }
    }
    assert_eq!(AckType::from_u8(0x04), Some(AckType::Complete));
    assert_eq!(AckType::from_u8(0x01), None);
    assert_eq!(AckType::Complete.code(), 4);
}

#[test]
fn trailing_bytes_do_not_matter() {
    let msg = Message::Ping {
        nonce: 7,
        name: "peer-1".to_string(),
    };
    let mut datagram = encode(&msg);
    datagram.extend_from_slice(b"garbage");
    assert_eq!(decode(&datagram).unwrap(), msg);
}

#[test]
fn names_must_be_utf8() {
    let mut datagram = encode(&Message::SegmentRequest {
        transfer_id: 1,
        filename: "ab".to_string(),
    });
    datagram[14] = 0xff;
    assert_eq!(decode(&datagram), Err(ProtocolError::InvalidUtf8));
    let accented = Message::SegmentRequest {
        transfer_id: 1,
        filename: "caf\u{e9}".to_string(),
    };
    let bytes = encode(&accented);
    assert_eq!(bytes.len(), HEADER_SIZE + 5);
    assert_eq!(decode(&bytes).unwrap(), accented);
}

#[test]
fn handshakes_carry_only_ipv4_with_a_port() {
    let v6 = Message::HandshakeResponse {
        observed: Endpoint::V6 {
            ip: 1,
            port: 9,
            flowinfo: 0,
            scope: 0,
        },
        name: "n".to_string(),
    };
    assert_eq!(
        decode(&encode(&v6)).unwrap(),
        Message::HandshakeResponse {
            observed: Endpoint::v4(0, 0, 0, 0, 0),
            name: "n".to_string(),
        }
    );
    let portless = Message::PeerlistResponse {
        peers: vec![
            (Endpoint::v4(10, 0, 0, 1, 0), 0),
            (Endpoint::v4(10, 0, 0, 2, 7), 3),
        ],
    };
    assert_eq!(
        decode(&encode(&portless)).unwrap(),
        Message::PeerlistResponse {
            peers: vec![(Endpoint::v4(10, 0, 0, 2, 7), 3)],
        }
    );
}

#[test]
fn short_payloads_are_truncated() {
    let mut ping = encode(&Message::Ping {
        nonce: 1,
        name: String::new(),
    });
    ping[7] = 3;
    assert_eq!(
        decode(&ping),
        Err(ProtocolError::TruncatedPayload {
            declared: 3,
            actual: 0
        })
    );
    let mut hello = encode(&Message::HandshakeRequest {
        claimed: Endpoint::v4(1, 2, 3, 4, 5),
        name: String::new(),
    });
    hello[7] = 5;
    assert_eq!(
        decode(&hello),
        Err(ProtocolError::TruncatedPayload {
            declared: 5,
            actual: 0
        })
    );
    hello[7] = 9;
    assert_eq!(
        decode(&hello),
        Err(ProtocolError::TruncatedPayload {
            declared: 9,
            actual: 6
        })
    );
}

#[test]
fn errors_in_words() {
    let cases: Vec<(ProtocolError, &str)> = vec![
        (
            ProtocolError::TruncatedHeader { len: 3 },
            "datagram too short for header: 3 bytes",
        ),
        (
            ProtocolError::BadMagic {
                got: [0x0a, 0xff, 0x54],
            },
            "bad magic: [0a, ff, 54] (expected QST)",
        ),
        (
            ProtocolError::BadVersion { got: 2 },
            "unsupported protocol version: 0x02",
        ),
        (
            ProtocolError::UnknownMessageType { code: 0x99 },
            "unknown message type: 0x99",
        ),
        (
            ProtocolError::TruncatedPayload {
                declared: 11,
                actual: 9,
            },
            "payload truncated: header says 11 bytes, datagram has 9",
        ),
        (ProtocolError::InvalidUtf8, "payload is not valid UTF-8"),
        (
            ProtocolError::BadAckFlags { got: 2 },
            "unknown ACK flags: 0x02",
        ),
        (
            ProtocolError::BadAckPayload { len: 5 },
            "progress ACK payload must be 4 bytes, got 5",
        ),
        (
            ProtocolError::BadPeerlistPayload { len: 5 },
            "peerlist payload must be a multiple of 7 bytes, got 5",
        ),
        (
            ProtocolError::BadAvailabilityPayload { len: 1 },
            "availability payload must be empty or 10 bytes, got 1",
        ),
    ];
    for (error, text) in cases {
        assert_eq!(error.text(), text);
    }
}

#[test]
fn a_window_of_sixteen_segments() {
    let a = SegmentAvailability {
        newest: 20,
        mask: 0x8001,
    };
    assert_eq!(a.contains(20), Some(true));
    assert_eq!(a.contains(5), Some(true));
    assert_eq!(a.contains(6), Some(false));
    assert_eq!(a.contains(4), None);
}

#[test]
fn inventories_as_payloads() {
    let a = Some(SegmentAvailability {
        newest: 0x0102,
        mask: 0x8001,
    });
    assert_eq!(encode_availability(a), vec![0, 0, 0, 0, 0, 0, 1, 2, 0x80, 1]);
    assert_eq!(decode_availability(&encode_availability(a)), Ok(a));
    assert_eq!(decode_availability(&encode_availability(None)), Ok(None));
    for len in [1, 9, 11] {
        assert_eq!(
            decode_availability(&vec![0; len]),
            Err(ProtocolError::BadAvailabilityPayload { len })
        );
    }
}
