use qstream::endpoint::Endpoint;
use qstream::fault::{FaultConfig, FaultInjector, Rng};
use qstream::node::{Event, Node, Role};
use qstream::peer::{draw_from, prefer_advertised_peers, source_weight, Peer};
use qstream::protocol::{decode, encode, Message, SegmentAvailability, PEER_PARENT};
use qstream::table::Group;
use qstream::transfer::settings;

const SECOND: u128 = 1_000_000_000;

fn master() -> Endpoint {
    Endpoint::v4(127, 0, 0, 1, 3333)
}

fn other() -> Endpoint {
    Endpoint::v4(127, 0, 0, 1, 4444)
}

fn third() -> Endpoint {
    Endpoint::v4(127, 0, 0, 1, 5555)
}

fn local() -> Endpoint {
    Endpoint::v4(127, 0, 0, 1, 9999)
}

fn node() -> Node {
    let config = FaultConfig {
        drop_pct: 0,
        dup_pct: 0,
        reorder_pct: 0,
        delay_ms: 0,
        burst_every_ms: 0,
        burst_dur_ms: 0,
    };
    Node::new(
        "p".to_string(),
        Role::Peer,
        settings(None, None, None),
        FaultInjector::new(config, 1, 0),
        local(),
        0,
        2,
        0,
    )
}

fn peer() -> Peer {
    Peer::new(local(), master(), Rng::new(5), 0)
}

fn sent(n: &mut Node) -> Vec<(Endpoint, Message)> {
    n.take_outbox()
        .into_iter()
        .map(|d| (d.to, decode(&d.bytes).unwrap()))
        .collect()
}

fn requests(n: &mut Node) -> Vec<(Endpoint, u16, String)> {
    sent(n)
        .into_iter()
        .filter_map(|(to, m)| match m {
            Message::SegmentRequest { transfer_id, filename } => Some((to, transfer_id, filename)),
            _ => None,
        })
        .collect()
}

fn has(newest: u64) -> SegmentAvailability {
    SegmentAvailability { newest, mask: 0xffff }
}

fn none() -> Group<String> {
    Group::new()
}

#[test]
fn advertised_peer_replaces_master_as_source() {
    let master = master();
    let peer = other();
    let candidates = vec![master, peer];
    let selected = prefer_advertised_peers(candidates, master, &[None, Some(true)], None);
    assert_eq!(selected, vec![peer]);
}

#[test]
fn master_remains_fallback_without_advertised_peer() {
    let master = master();
    let peer = other();
    let candidates = vec![master, peer];
    let selected = prefer_advertised_peers(candidates.clone(), master, &[None, None], None);
    assert_eq!(selected, candidates);
}

#[test]
fn unknown_peer_does_not_compete_with_positive_master() {
    let master = master();
    let peer = other();
    let selected =
        prefer_advertised_peers(vec![master, peer], master, &[Some(true), None], Some(true));
    assert_eq!(selected, vec![master]);
}

#[test]
fn weights_of_sources() {
    assert_eq!(source_weight(100, 0, true, Some(true), false), 202 * 125 * 300 * 10);
    assert_eq!(source_weight(50, 0, false, None, true), 102 * 70 * 35 * 9);
    assert_eq!(source_weight(50, 1, false, None, false), 51 * 70 * 35 * 10);
    assert_eq!(source_weight(50, 2, false, None, false), 34 * 70 * 35 * 10);
    assert_eq!(source_weight(100, 0, true, Some(false), false), 200);
}

#[test]
fn draws_follow_the_weights() {
    assert_eq!(draw_from(&[1, 1], 0), 0);
    assert_eq!(draw_from(&[1, 1], u64::MAX / 2), 0);
    assert_eq!(draw_from(&[1, 1], u64::MAX / 2 + 1), 1);
    assert_eq!(draw_from(&[1, 1], u64::MAX), 1);
    assert_eq!(draw_from(&[7], u64::MAX), 0);
    assert_eq!(draw_from(&[0, 5, 0], 1), 1);
}

#[test]
fn the_first_word_is_a_handshake() {
    let mut n = node();
    let mut p = peer();
    p.open(&mut n, 0);
    assert_eq!(
        sent(&mut n),
        vec![(
            master(),
            Message::HandshakeRequest {
                claimed: Endpoint::v4(0, 0, 0, 0, 0),
                name: "p".to_string()
            }
        )]
    );
    // it is repeated until it is answered
    p.tick(&mut n, 3 * SECOND);
    assert!(sent(&mut n).iter().any(|(_, m)| matches!(m, Message::HandshakeRequest { .. })));
    p.on_handshake(&mut n, master(), "m", 4 * SECOND);
    assert!(n.knows(master()));
    p.tick(&mut n, 60 * SECOND);
    assert!(!sent(&mut n).iter().any(|(_, m)| matches!(m, Message::HandshakeRequest { .. })));
}

#[test]
fn manifests_and_peerlists_are_polled() {
    let mut n = node();
    let mut p = peer();
    p.on_handshake(&mut n, master(), "m", 0);
    p.tick(&mut n, 3 * SECOND);
    let out = sent(&mut n);
    assert_eq!(
        out.iter().filter(|(to, m)| *to == master() && matches!(m, Message::ManifestRequest)).count(),
        1
    );
    assert_eq!(
        out.iter().filter(|(to, m)| *to == master() && matches!(m, Message::PeerlistRequest)).count(),
        1
    );
    assert!(p.wait_time(&n, 3 * SECOND) <= 3 * SECOND);
}

#[test]
fn new_segments_come_newest_first() {
    let mut n = node();
    let mut p = peer();
    p.on_handshake(&mut n, master(), "m", 0);
    let mut there = Group::new();
    there.add_key("seg_2.ts".to_string());
    p.on_manifest(b"#EXTM3U\nseg_1.ts\nseg_2.ts\nseg_3.ts\n../x\n", true, &there, 0);
    sent(&mut n);
    assert!(p.schedule_jobs(&mut n, 100, 0).is_empty());
    let asked: Vec<(Endpoint, u16, String)> = requests(&mut n);
    assert_eq!(
        asked,
        vec![
            (master(), 100, "seg_3.ts".to_string()),
            (master(), 101, "seg_1.ts".to_string()),
        ]
    );
    // what is under way is not asked for again
    p.on_manifest(b"#EXTM3U\nseg_1.ts\nseg_3.ts\n", true, &none(), 0);
    p.schedule_jobs(&mut n, 100, 0);
    assert!(requests(&mut n).is_empty());
}

#[test]
fn an_old_manifest_asks_for_nothing() {
    let mut n = node();
    let mut p = peer();
    p.on_handshake(&mut n, master(), "m", 0);
    p.on_manifest(b"#EXTM3U\nseg_1.ts\n", false, &none(), 0);
    p.schedule_jobs(&mut n, 1, 0);
    assert!(requests(&mut n).is_empty());
}

#[test]
fn downloads_are_limited() {
    let mut n = node();
    let mut p = peer();
    for e in [master(), other(), third()] {
        p.on_handshake(&mut n, e, "x", 0);
    }
    let names: Vec<String> = (1..10).map(|i| format!("seg_{}.ts", i)).collect();
    p.sync_queue(&names, &none(), 0);
    p.schedule_jobs(&mut n, 1, 0);
    let asked = requests(&mut n);
    assert_eq!(asked.len(), 4);
    for e in [master(), other(), third()] {
        assert!(asked.iter().filter(|(to, _, _)| *to == e).count() <= 2);
    }
}

#[test]
fn files_are_asked_for_once() {
    let mut n = node();
    let mut p = peer();
    for e in [master(), other(), third()] {
        p.on_handshake(&mut n, e, "x", 0);
    }
    let twice = ["seg_1.ts", "seg_2.ts", "seg_1.ts"].map(|f| f.to_string());
    p.sync_queue(&twice, &none(), 0);
    p.schedule_jobs(&mut n, 1, 0);
    // what is being downloaded is not queued again
    p.sync_queue(&twice, &none(), 0);
    p.schedule_jobs(&mut n, 1, 0);
    let mut names: Vec<String> = requests(&mut n).into_iter().map(|(_, _, f)| f).collect();
    names.sort();
    assert_eq!(names, vec!["seg_1.ts".to_string(), "seg_2.ts".to_string()]);
}

#[test]
fn a_copy_elsewhere_spares_the_origin() {
    let mut n = node();
    let mut p = peer();
    p.on_handshake(&mut n, master(), "m", 0);
    p.on_handshake(&mut n, other(), "o", 0);
    n.record_availability(master(), has(9), 0);
    n.record_availability(other(), has(9), 0);
    assert_eq!(p.pick_peer(&n, "seg_9.ts", 0), Some(other()));
    // a peer that lacks it is not asked
    n.record_not_found(other(), "seg_9.ts", 0);
    assert_eq!(p.pick_peer(&n, "seg_9.ts", 0), Some(master()));
    n.record_not_found(master(), "seg_9.ts", 0);
    assert_eq!(p.pick_peer(&n, "seg_9.ts", 0), None);
}

#[test]
fn parents_come_first() {
    let mut n = node();
    let mut p = peer();
    p.on_handshake(&mut n, master(), "m", 0);
    p.on_handshake(&mut n, other(), "o", 0);
    p.on_handshake(&mut n, third(), "t", 0);
    n.record_availability(master(), has(9), 0);
    n.record_availability(other(), has(9), 0);
    p.on_peerlist(&mut n, &[(third(), PEER_PARENT)], 0);
    // the parent does not have it yet: wait for a while
    assert_eq!(p.pick_peer(&n, "seg_9.ts", 0), None);
    assert_eq!(p.pick_peer(&n, "seg_9.ts", 5 * SECOND - 1), None);
    assert_eq!(p.pick_peer(&n, "seg_9.ts", 5 * SECOND), Some(other()));
    n.record_availability(third(), has(9), 6 * SECOND);
    assert_eq!(p.pick_peer(&n, "seg_9.ts", 6 * SECOND), Some(third()));
}

#[test]
fn discovered_peers_are_greeted() {
    let mut n = node();
    let mut p = peer();
    p.on_peerlist(&mut n, &[(other(), 0), (local(), 0)], 0);
    let out = sent(&mut n);
    assert!(out.iter().all(|(to, _)| *to == other()));
    assert!(out.iter().any(|(_, m)| matches!(m, Message::HandshakeRequest { .. })));
    // not twice while the answer may come
    p.on_peerlist(&mut n, &[(other(), 0)], SECOND);
    assert!(sent(&mut n).is_empty());
}

fn fetch(n: &mut Node, p: &mut Peer, name: &str, now: u128) -> (Endpoint, u16) {
    p.sync_queue(&[name.to_string()], &none(), now);
    p.schedule_jobs(n, 77, now);
    let asked = requests(n);
    assert_eq!(asked.len(), 1);
    (asked[0].0, asked[0].1)
}

#[test]
fn saved_segments_are_told() {
    let mut n = node();
    let mut p = peer();
    p.on_handshake(&mut n, master(), "m", 0);
    let (to, id) = fetch(&mut n, &mut p, "seg_1.ts", 0);
    let m = Message::SegmentContents {
        transfer_id: id,
        packet_number: 1,
        total_packets: 1,
        data: vec![1, 2, 3],
    };
    assert!(matches!(n.handle(&encode(&m), to, 5), Event::Downloaded { .. }));
    assert!(p.schedule_jobs(&mut n, 77, 5).is_empty());
    n.saved(id, 6);
    assert_eq!(p.schedule_jobs(&mut n, 77, 6), vec!["seg_1.ts"]);
    assert!(p.schedule_jobs(&mut n, 77, 7).is_empty());
    assert_eq!(n.score_of(master()), 52);
}

#[test]
fn another_source_is_tried() {
    let mut n = node();
    let mut p = peer();
    p.on_handshake(&mut n, master(), "m", 0);
    p.on_handshake(&mut n, other(), "o", 0);
    let (first, id) = fetch(&mut n, &mut p, "seg_1.ts", 0);
    let m = Message::SegmentNotFound {
        transfer_id: id,
        availability: None,
        retryable: false,
    };
    n.handle(&encode(&m), first, 1);
    p.schedule_jobs(&mut n, 77, 1);
    let asked = requests(&mut n);
    assert_eq!(asked.len(), 1);
    assert_ne!(asked[0].0, first);
}

#[test]
fn a_source_that_puts_off_is_asked_later() {
    let mut n = node();
    let mut p = peer();
    p.on_handshake(&mut n, master(), "m", 0);
    let (to, id) = fetch(&mut n, &mut p, "seg_1.ts", 0);
    let m = Message::SegmentNotFound {
        transfer_id: id,
        availability: None,
        retryable: true,
    };
    n.handle(&encode(&m), to, 1);
    p.schedule_jobs(&mut n, 77, 1);
    assert!(requests(&mut n).is_empty());
    p.schedule_jobs(&mut n, 77, 5 * SECOND + 1);
    assert_eq!(requests(&mut n).len(), 1);
    assert_eq!(n.score_of(master()), 50);
}

#[test]
fn a_given_up_segment_cools_down() {
    let mut n = node();
    let mut p = peer();
    p.on_handshake(&mut n, master(), "m", 0);
    let (to, id) = fetch(&mut n, &mut p, "seg_1.ts", 0);
    let m = Message::SegmentNotFound {
        transfer_id: id,
        availability: None,
        retryable: false,
    };
    n.handle(&encode(&m), to, 0);
    p.schedule_jobs(&mut n, 77, 0);
    p.sync_queue(&["seg_1.ts".to_string()], &none(), 4 * SECOND);
    p.schedule_jobs(&mut n, 77, 4 * SECOND);
    assert!(requests(&mut n).is_empty());
    // the refusal counts for longer than the pause
    p.sync_queue(&["seg_1.ts".to_string()], &none(), 16 * SECOND);
    p.schedule_jobs(&mut n, 77, 16 * SECOND);
    assert_eq!(requests(&mut n).len(), 1);
}

#[test]
fn silent_sources_are_evicted() {
    let mut n = node();
    let mut p = peer();
    p.on_handshake(&mut n, master(), "m", 0);
    let mut now = 0;
    for i in 0..3 {
        assert!(n.knows(master()));
        let name = format!("seg_{}.ts", i);
        fetch(&mut n, &mut p, &name, now);
        // the request is repeated once, then given up
        now += 3 * SECOND;
        n.tick(now);
        now += 5 * SECOND;
        n.tick(now);
        p.schedule_jobs(&mut n, 77, now);
        sent(&mut n);
    }
    assert!(!n.knows(master()));
}

#[test]
fn an_answer_ends_the_silence() {
    let mut n = node();
    let mut p = peer();
    p.on_handshake(&mut n, master(), "m", 0);
    let mut now = 0;
    for i in 0..5 {
        let name = format!("seg_{}.ts", i);
        let (to, id) = fetch(&mut n, &mut p, &name, now);
        if i == 2 {
            // put off after two silences
            let m = Message::SegmentNotFound {
                transfer_id: id,
                availability: None,
                retryable: true,
            };
            n.handle(&encode(&m), to, now);
            p.schedule_jobs(&mut n, 77, now);
            // the same file again, which is lacking then
            now += 5 * SECOND;
            p.schedule_jobs(&mut n, 77, now);
            let asked = requests(&mut n);
            let m = Message::SegmentNotFound {
                transfer_id: asked[0].1,
                availability: None,
                retryable: false,
            };
            n.handle(&encode(&m), to, now);
        } else {
            now += 3 * SECOND;
            n.tick(now);
            now += 5 * SECOND;
            n.tick(now);
        }
        p.schedule_jobs(&mut n, 77, now);
        sent(&mut n);
        assert!(n.knows(master()));
    }
}

#[test]
fn being_put_off_ends_the_silence() {
    let mut n = node();
    let mut p = peer();
    p.on_handshake(&mut n, master(), "m", 0);
    let mut now = 0;
    for i in 0..2 {
        fetch(&mut n, &mut p, &format!("seg_{}.ts", i), now);
        now += 3 * SECOND;
        n.tick(now);
        now += 5 * SECOND;
        n.tick(now);
        p.schedule_jobs(&mut n, 77, now);
        sent(&mut n);
    }
    let (to, id) = fetch(&mut n, &mut p, "seg_2.ts", now);
    let m = Message::SegmentNotFound {
        transfer_id: id,
        availability: None,
        retryable: true,
    };
    n.handle(&encode(&m), to, now);
    p.schedule_jobs(&mut n, 77, now);
    now += 5 * SECOND;
    p.schedule_jobs(&mut n, 77, now);
    assert_eq!(requests(&mut n).len(), 1);
    now += 3 * SECOND;
    n.tick(now);
    now += 5 * SECOND;
    n.tick(now);
    p.schedule_jobs(&mut n, 77, now);
    assert!(n.knows(master()));
}
