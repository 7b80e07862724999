use qstream::endpoint::Endpoint;
use qstream::protocol::{AckType, Message, SegmentAvailability};
use qstream::receiver::{ReceiverTransfer, Step};
use qstream::registry::{random_id, RegEvent, TransferRegistry};
use qstream::sender::SenderTransfer;
use qstream::transfer::{
    adaptive_quiet, elapsed, later, packet_count, parse_manifest, retry_interval,
    segment_availability, segment_number, settings, smooth, valid_filename, Settings,
    MAX_CONCURRENT_TRANSFERS, SEGMENT_PACKET_SIZE, SENDER_RETRY_LIMIT,
};

const MS: u128 = 1_000_000;

fn tunables() -> Settings {
    settings(None, None, None)
}

fn peer() -> Endpoint {
    Endpoint::v4(127, 0, 0, 1, 4444)
}

fn contents(m: &Message) -> (u16, u16, Vec<u8>) {
    match m {
        Message::SegmentContents {
            packet_number,
            total_packets,
            data,
            ..
        } => (*packet_number, *total_packets, data.clone()),
        other => panic!("unexpected {:?}", other),
    }
}

fn range(m: &Message) -> (u16, u16) {
    match m {
        Message::Ack {
            ack_type: AckType::Progress,
            next_start,
            next_count,
            ..
        } => (*next_start, *next_count),
        other => panic!("unexpected {:?}", other),
    }
}

#[test]
fn packet_count_bounds() {
    assert_eq!(packet_count(0), 1);
    assert_eq!(packet_count(1), 1);
    assert_eq!(packet_count(SEGMENT_PACKET_SIZE), 1);
    assert_eq!(packet_count(SEGMENT_PACKET_SIZE + 1), 2);
    assert_eq!(packet_count(SEGMENT_PACKET_SIZE * 60), 60);
}

#[test]
fn packet_count_is_capped() {
    assert_eq!(packet_count(SEGMENT_PACKET_SIZE * 65535), 65535);
    assert_eq!(packet_count(SEGMENT_PACKET_SIZE * 70000), 65535);
}

#[test]
fn filename_validation() {
    assert!(valid_filename("seg_0042.ts"));
    assert!(valid_filename("a.b-c_d"));
    assert!(!valid_filename(""));
    assert!(!valid_filename("../secret"));
    assert!(!valid_filename("dir/seg.ts"));
    assert!(!valid_filename("dir\\seg.ts"));
    assert!(!valid_filename(".hidden"));
    assert!(!valid_filename("has space.ts"));
}

#[test]
fn filename_length_and_alphabet() {
    assert!(valid_filename(&"a".repeat(255)));
    assert!(!valid_filename(&"a".repeat(256)));
    assert!(!valid_filename("caf\u{e9}"));
    assert!(!valid_filename("tab\t"));
}

#[test]
fn manifests() {
    let data = b"#EXTM3U\n#EXTINF:2.0,\r\n seg_1.ts \r\n\n#x\nseg_2.ts";
    assert_eq!(parse_manifest(data), vec!["seg_1.ts", "seg_2.ts"]);
    assert!(parse_manifest(b"\xff\nseg_1.ts").is_empty());
    assert!(parse_manifest(b"").is_empty());
}

#[test]
fn settings_from_text() {
    assert_eq!(
        tunables(),
        Settings {
            pace_ms: 1,
            quiet_ms: 150,
            first_timeout_ms: 4000
        }
    );
    assert_eq!(
        settings(Some("7"), Some("x"), Some("+9")),
        Settings {
            pace_ms: 7,
            quiet_ms: 150,
            first_timeout_ms: 9
        }
    );
}

#[test]
fn timers_adapt_and_are_capped() {
    let s = tunables();
    assert_eq!(adaptive_quiet(&s, 0, 0), 150 * MS);
    assert_eq!(adaptive_quiet(&s, 100 * MS, 0), 350 * MS);
    assert_eq!(adaptive_quiet(&s, 100 * MS, 2), 1400 * MS);
    assert_eq!(adaptive_quiet(&s, 100 * MS, 9), 5600 * MS);
    assert_eq!(adaptive_quiet(&s, u128::MAX, 0), 8000 * MS);
    assert_eq!(retry_interval(&s, 5, 0, 0), 300 * MS);
    assert_eq!(retry_interval(&s, 64, 250 * MS, 0), 650 * MS);
    assert_eq!(retry_interval(&s, 64, 250 * MS, 1), 1300 * MS);
    assert_eq!(retry_interval(&s, 64, 250 * MS, 4), 8000 * MS);
    assert_eq!(retry_interval(&s, 64, u128::MAX, 0), 8000 * MS);
    assert_eq!(later(u128::MAX, 5), u128::MAX);
    assert_eq!(elapsed(3, 5), 0);
    assert_eq!(smooth(100, 200), 125);
    assert_eq!(smooth(u128::MAX, u128::MAX), u128::MAX);
}

#[test]
fn segment_numbers() {
    assert_eq!(segment_number("seg_0042.ts"), Some(42));
    assert_eq!(segment_number("seg_.ts"), None);
    assert_eq!(segment_number("seg_x.ts"), None);
    assert_eq!(segment_number("seg_1.mp4"), None);
    assert_eq!(segment_number("seg_18446744073709551615.ts"), Some(u64::MAX));
    assert_eq!(segment_number("seg_18446744073709551616.ts"), None);
}

#[test]
fn inventories() {
    let names: Vec<String> = vec!["seg_0100.ts", "live.m3u8", "seg_0098.ts", "seg_0080.ts"]
        .into_iter()
        .map(String::from)
        .collect();
    assert_eq!(
        segment_availability(&names),
        Some(SegmentAvailability {
            newest: 100,
            mask: 0b101
        })
    );
    assert_eq!(segment_availability(&[]), None);
}

#[test]
fn sender_paces_its_window() {
    let s = tunables();
    let file: Vec<u8> = (0..SEGMENT_PACKET_SIZE * 20 + 3).map(|i| i as u8).collect();
    let mut t = SenderTransfer::new(7, peer(), file.clone(), 0);
    assert_eq!(t.payload_bytes(), file.len() as u64);
    let (out, r) = t.tick(&s, 0);
    assert!(r.is_ok());
    let sent: Vec<u16> = out.iter().map(|m| contents(m).0).collect();
    assert_eq!(sent, vec![1, 2, 3, 4, 5]);
    assert_eq!(contents(&out[0]).1, 21);
    assert_eq!(contents(&out[4]).2, file[SEGMENT_PACKET_SIZE * 4..SEGMENT_PACKET_SIZE * 5].to_vec());
    // the ack timer: twice the first estimate of the round-trip and some slack
    assert_eq!(t.deadline(), 650 * MS);
    // a longer window goes out in chunks
    assert!(!t.on_ack(&s, AckType::Progress, 6, 100, 10 * MS));
    assert_eq!(t.deadline(), 10 * MS);
    let (out, _) = t.tick(&s, 10 * MS);
    assert_eq!(out.len(), 8);
    assert_eq!(t.deadline(), 18 * MS);
    let (out, _) = t.tick(&s, 17 * MS);
    assert!(out.is_empty());
    let (out, _) = t.tick(&s, 18 * MS);
    assert_eq!(out.len(), 8);
    assert_eq!(contents(&out[7]).0, 21);
    assert_eq!(contents(&out[7]).2.len(), 3);
    assert!(t.on_ack(&s, AckType::Complete, 0, 0, 20 * MS));
}

#[test]
fn sender_resends_and_gives_up() {
    let s = tunables();
    let mut t = SenderTransfer::new(0x1a7, peer(), vec![1, 2, 3], 0);
    let mut now = 0;
    for _ in 0..SENDER_RETRY_LIMIT {
        let (out, r) = t.tick(&s, now);
        assert!(r.is_ok());
        assert_eq!(out.len(), 1);
        now = t.deadline();
        let (out, r) = t.tick(&s, now);
        assert!(r.is_ok() && out.is_empty());
    }
    let (out, r) = t.tick(&s, now);
    assert!(r.is_ok());
    assert_eq!(out.len(), 1);
    let (_, r) = t.tick(&s, t.deadline());
    assert_eq!(
        r,
        Err("sender 0x01a7: no ACK for range (1, 1) after 30 retries".to_string())
    );
}

#[test]
fn sender_waits_out_a_bogus_range() {
    let s = tunables();
    let mut t = SenderTransfer::new(1, peer(), vec![0; 10], 0);
    assert!(!t.on_ack(&s, AckType::Progress, 0, 5, 0));
    let (out, r) = t.tick(&s, 0);
    assert!(out.is_empty() && r.is_ok());
    assert!(!t.on_ack(&s, AckType::Progress, 2, 5, 0));
    let (out, _) = t.tick(&s, 0);
    assert!(out.is_empty());
    assert_eq!(t.deadline(), 1300 * MS);
}

#[test]
fn receiver_assembles_out_of_order() {
    let s = tunables();
    let file: Vec<u8> = (0..SEGMENT_PACKET_SIZE * 6 + 10).map(|i| (i * 7) as u8).collect();
    let n = packet_count(file.len());
    let piece = |k: u16| -> Vec<u8> {
        let at = (k as usize - 1) * SEGMENT_PACKET_SIZE;
        file[at..(at + SEGMENT_PACKET_SIZE).min(file.len())].to_vec()
    };
    let mut r = ReceiverTransfer::new(3, peer(), "seg_1.ts".to_string(), &s, 0);
    for k in [5u16, 1, 2, 4, 2] {
        assert!(matches!(r.on_content(&s, k, n, piece(k), 9 * MS), Step::Idle));
    }
    assert_eq!(r.first_packet_latency_ms(), Some(9));
    // a packet outside the window restates the request
    match r.on_content(&s, 7, n, piece(7), 9 * MS) {
        Step::Reply(m) => assert_eq!(range(&m), (1, 5)),
        _ => panic!("no nudge"),
    }
    // the window doubles up to the end of the file
    match r.on_content(&s, 3, n, piece(3), 9 * MS) {
        Step::Reply(m) => assert_eq!(range(&m), (6, 2)),
        _ => panic!("no advance"),
    }
    assert!(matches!(r.on_content(&s, 7, n, piece(7), 9 * MS), Step::Idle));
    assert!(matches!(r.on_content(&s, 0, n, vec![], 9 * MS), Step::Idle));
    match r.on_content(&s, 6, n, piece(6), 9 * MS) {
        Step::Save(data) => assert_eq!(data, file),
        _ => panic!("not complete"),
    }
    assert_eq!(r.outcome(), None);
    let done = r.on_saved(20 * MS);
    assert!(matches!(done, Message::Ack { ack_type: AckType::Complete, .. }));
    assert_eq!(r.outcome(), Some(Ok(())));
    assert_eq!(r.saved_bytes(), Some(file.len() as u64));
    assert_eq!(r.deadline(), 4020 * MS);
    // a stray packet repeats the final word
    assert!(matches!(
        r.on_content(&s, 6, n, piece(6), 30 * MS),
        Step::Reply(Message::Ack { ack_type: AckType::Complete, .. })
    ));
}

#[test]
fn receiver_takes_an_empty_file() {
    let s = tunables();
    let mut t = SenderTransfer::new(1, peer(), vec![], 0);
    let (out, _) = t.tick(&s, 0);
    let (k, n, data) = contents(&out[0]);
    assert_eq!((k, n, data.len()), (1, 1, 0));
    let mut r = ReceiverTransfer::new(1, peer(), "a".to_string(), &s, 0);
    match r.on_content(&s, k, n, data, 0) {
        Step::Save(data) => assert!(data.is_empty()),
        _ => panic!("not complete"),
    }
}

#[test]
fn receiver_save_failure() {
    let s = tunables();
    let mut r = ReceiverTransfer::new(1, peer(), "a".to_string(), &s, 0);
    r.on_save_failed("/d/a", "disk full", 5);
    assert_eq!(
        r.outcome(),
        Some(Err("failed to write /d/a: disk full".to_string()))
    );
    assert!(matches!(r.on_content(&s, 1, 1, vec![], 6), Step::Idle));
}

#[test]
fn receiver_repeats_its_request_once() {
    let s = tunables();
    let mut r = ReceiverTransfer::new(9, peer(), "seg_1.ts".to_string(), &s, 0);
    assert!(r.on_tick(&s, 1999 * MS).is_empty());
    let out = r.on_tick(&s, 2000 * MS);
    assert_eq!(
        out,
        vec![Message::SegmentRequest {
            transfer_id: 9,
            filename: "seg_1.ts".to_string()
        }]
    );
    assert!(r.on_tick(&s, 3000 * MS).is_empty());
    assert!(!r.unresponsive());
    r.on_tick(&s, 6000 * MS);
    assert!(r.unresponsive());
    assert_eq!(
        r.outcome(),
        Some(Err("no response from 127.0.0.1:4444 for seg_1.ts".to_string()))
    );
}

#[test]
fn receiver_asks_again_and_gives_up() {
    let s = tunables();
    let mut r = ReceiverTransfer::new(9, peer(), "f".to_string(), &s, 0);
    r.on_content(&s, 1, 10, vec![1; SEGMENT_PACKET_SIZE], 0);
    let mut now = 0;
    for _ in 0..8 {
        now += 9000 * MS;
        let out = r.on_tick(&s, now);
        assert_eq!(range(&out[0]), (1, 5));
    }
    assert!(r.on_tick(&s, now + 9000 * MS).is_empty());
    assert_eq!(
        r.outcome(),
        Some(Err("range (1,5) of f incomplete after 8 retries".to_string()))
    );
    assert!(!r.unresponsive());
}

#[test]
fn registry_serves_and_counts() {
    let mut g = TransferRegistry::new(tunables());
    assert_eq!(g.next_deadline(), None);
    assert!(g.admits("seg_1.ts") && !g.admits("../x"));
    assert_eq!(g.serve(5, "seg_1.ts", peer(), Some(vec![1, 2, 3]), None, 0), None);
    assert_eq!(g.active_count(), 1);
    assert_eq!(g.sender_load(peer()), 1);
    assert_eq!(g.next_deadline(), Some(0));
    let out = g.tick(0);
    assert_eq!(out.len(), 1);
    assert_eq!(out[0].0, peer());
    assert_eq!(contents(&out[0].1), (1, 1, vec![1, 2, 3]));
    g.on_ack(5, AckType::Complete, 0, 0, 1);
    assert_eq!(g.active_count(), 0);
    assert_eq!(
        g.drain_events(),
        vec![RegEvent::Served {
            src: peer(),
            bytes: 3
        }]
    );
    assert!(g.drain_events().is_empty());
}

#[test]
fn registry_refuses() {
    let mut g = TransferRegistry::new(tunables());
    let inventory = Some(SegmentAvailability { newest: 4, mask: 1 });
    assert_eq!(
        g.serve(5, "seg_1.ts", peer(), None, inventory, 0),
        Some(Message::SegmentNotFound {
            transfer_id: 5,
            availability: inventory,
            retryable: false
        })
    );
    assert_eq!(g.drain_events(), vec![RegEvent::NotFound { src: peer() }]);
    let reply = g.reject_not_found(6, peer(), None, true);
    assert!(matches!(reply, Message::SegmentNotFound { retryable: true, .. }));
    assert!(g.drain_events().is_empty());
}

#[test]
fn registry_is_bounded() {
    let mut g = TransferRegistry::new(tunables());
    for i in 0..MAX_CONCURRENT_TRANSFERS {
        // the same seed gives a new number each time
        let (id, _) = g.start_receiver(peer(), "f", 65535, 0).unwrap();
        let expected = if i == 0 { 65535 } else { i as u16 };
        assert_eq!(id, expected);
    }
    assert!(g.start_receiver(peer(), "f", 1, 0).is_none());
    assert!(!g.admits("seg_1.ts"));
    assert!(g.serve(5, "seg_1.ts", peer(), Some(vec![]), None, 0).is_some());
    g.remove_receiver(65535);
    assert_eq!(g.active_count(), MAX_CONCURRENT_TRANSFERS - 1);
}

#[test]
fn registry_downloads() {
    let mut g = TransferRegistry::new(tunables());
    let (id, request) = g.start_receiver(peer(), "seg_1.ts", 77, 0).unwrap();
    assert_eq!(
        request,
        Message::SegmentRequest {
            transfer_id: 77,
            filename: "seg_1.ts".to_string()
        }
    );
    assert!(matches!(g.on_content(id + 1, 1, 1, vec![9], 0), Step::Idle));
    assert!(matches!(g.on_content(id, 1, 1, vec![9], 3 * MS), Step::Save(_)));
    let (to, _) = g.on_saved(id, 4 * MS).unwrap();
    assert_eq!(to, peer());
    assert_eq!(g.receiver_outcome(id), Some(Ok(())));
    assert_eq!(g.receiver_saved_bytes(id), Some(1));
    assert_eq!(g.receiver_first_packet_ms(id), Some(3));
    assert!(g.tick(4003 * MS).is_empty());
    assert_eq!(g.active_count(), 1);
    g.tick(4004 * MS);
    assert_eq!(g.active_count(), 0);
    assert_eq!(g.receiver_outcome(id), None);
}

#[test]
fn registry_takes_refusals() {
    let mut g = TransferRegistry::new(tunables());
    let (a, _) = g.start_receiver(peer(), "a", 1, 0).unwrap();
    let (b, _) = g.start_receiver(peer(), "b", 2, 0).unwrap();
    assert_eq!(g.on_not_found(a, false, 0), Some("a".to_string()));
    assert_eq!(g.on_not_found(b, true, 0), Some("b".to_string()));
    assert_eq!(g.on_not_found(9, true, 0), None);
    assert!(g.receiver_not_found(a) && !g.receiver_retryable_not_found(a));
    assert!(g.receiver_not_found(b) && g.receiver_retryable_not_found(b));
    assert!(!g.receiver_unresponsive(a));
    assert_eq!(
        g.receiver_outcome(a),
        Some(Err("peer does not have a".to_string()))
    );
}

#[test]
fn registry_drops_dead_senders() {
    let mut g = TransferRegistry::new(tunables());
    g.serve(5, "seg_1.ts", peer(), Some(vec![1]), None, 0);
    let mut now = 0;
    for _ in 0..70 {
        g.tick(now);
        now += 9000 * MS;
    }
    assert_eq!(g.active_count(), 0);
    assert_eq!(g.drain_events(), vec![RegEvent::SenderFailed { src: peer() }]);
}

#[test]
fn numbers_from_the_clock() {
    assert_eq!(random_id(0x1234_5678), 0x1234 ^ 0x5678);
    assert_eq!(random_id(0xffff_0000_0001), 1);
}

#[test]
fn a_file_crosses_a_bad_link() {
    let s = tunables();
    let file: Vec<u8> = (0..SEGMENT_PACKET_SIZE * 150 + 77).map(|i| (i * 31) as u8).collect();
    let mut from = TransferRegistry::new(s);
    let mut to = TransferRegistry::new(s);
    let (id, _) = to.start_receiver(peer(), "seg_1.ts", 7, 0).unwrap();
    from.serve(id, "seg_1.ts", peer(), Some(file.clone()), None, 0);
    let mut now = 0;
    let mut count = 0u32;
    let mut saved: Option<Vec<u8>> = None;
    while saved.is_none() && now < 100_000 * MS {
        now += MS;
        let mut acks: Vec<Message> = Vec::new();
        for (_, m) in from.tick(now) {
            count += 1;
            if count % 7 == 0 {
                continue; // lost
            }
            let (k, n, data) = contents(&m);
            match to.on_content(id, k, n, data, now) {
                Step::Reply(m) => acks.push(m),
                Step::Save(data) => saved = Some(data),
                Step::Idle => {}
            }
        }
        for (_, m) in to.tick(now) {
            if let Message::Ack { .. } = m {
                acks.push(m);
            }
        }
        for m in acks {
            count += 1;
            if count % 5 == 0 {
                continue; // lost
            }
            let (start, n) = range(&m);
            from.on_ack(id, AckType::Progress, start, n, now);
        }
    }
    assert_eq!(saved, Some(file));
}
