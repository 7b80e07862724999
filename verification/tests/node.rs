use qstream::endpoint::Endpoint;
use qstream::fault::{FaultConfig, FaultInjector};
use qstream::node::{Due, Event, Node, Role};
use qstream::peers::{PullResult, ServeResult};
use qstream::protocol::{
    decode, encode, AckType, Message, SegmentAvailability, PEER_PARENT, PEER_SAME_IP,
    PEER_UPNP_MAPPED,
};
use qstream::stats::StoreInfo;
use qstream::transfer::settings;

const SECOND: u128 = 1_000_000_000;

fn config(drop_pct: u32) -> FaultConfig {
    FaultConfig {
        drop_pct,
        dup_pct: 0,
        reorder_pct: 0,
        delay_ms: 0,
        burst_every_ms: 0,
        burst_dur_ms: 0,
    }
}

fn node(name: &str, role: Role) -> Node {
    Node::new(
        name.to_string(),
        role,
        settings(None, None, None),
        FaultInjector::new(config(0), 1, 0),
        Endpoint::v4(0, 0, 0, 0, 3333),
        300,
        2,
        0,
    )
}

fn far(n: u8) -> Endpoint {
    Endpoint::v4(203, 0, 113, n, 4000)
}

fn near(n: u8) -> Endpoint {
    Endpoint::v4(192, 168, 1, n, 4000)
}

fn store() -> StoreInfo {
    StoreInfo {
        store_bytes: 15,
        store_segments: 2,
        edge_segment: 9,
        local_newest: 7,
        rss_bytes: 4096,
    }
}

fn sent(n: &mut Node) -> Vec<(Endpoint, Message)> {
    n.take_outbox()
        .into_iter()
        .map(|d| (d.to, decode(&d.bytes).unwrap()))
        .collect()
}

fn hear(n: &mut Node, m: Message, src: Endpoint, now: u128) -> Event {
    n.handle(&encode(&m), src, now)
}

fn hello(n: &mut Node, name: &str, src: Endpoint, now: u128) {
    let m = Message::HandshakeRequest {
        claimed: Endpoint::v4(0, 0, 0, 0, 0),
        name: name.to_string(),
    };
    assert!(matches!(hear(n, m, src, now), Event::Nothing));
    sent(n);
}

fn pong(n: &mut Node, src: Endpoint, availability: Option<SegmentAvailability>, now: u128) {
    let event = hear(n, Message::Pong { availability }, src, now);
    assert!(matches!(event, Event::Nothing));
}

fn has(newest: u64) -> Option<SegmentAvailability> {
    Some(SegmentAvailability { newest, mask: 1 })
}

#[test]
fn handshake_is_answered() {
    let mut n = node("m", Role::Master);
    let m = Message::HandshakeRequest {
        claimed: far(1),
        name: "p".to_string(),
    };
    assert!(matches!(hear(&mut n, m, far(1), 5), Event::Nothing));
    assert_eq!(
        sent(&mut n),
        vec![(
            far(1),
            Message::HandshakeResponse {
                observed: far(1),
                name: "m".to_string()
            }
        )]
    );
    assert!(n.knows(far(1)));
    assert_eq!((n.peer_count(), n.peer_at(0), n.score_of(far(1))), (1, far(1), 50));
    n.remove_peer(far(1));
    assert!(!n.knows(far(1)));
}

#[test]
fn handshake_tells_where_we_are() {
    let mut n = node("p", Role::Peer);
    assert_eq!(n.my_public(), None);
    let m = Message::HandshakeResponse {
        observed: far(9),
        name: "m".to_string(),
    };
    match hear(&mut n, m, far(1), 5) {
        Event::HandshakeResponse { src, name } => assert_eq!((src, name.as_str()), (far(1), "m")),
        other => panic!("{:?}", other),
    }
    assert_eq!(n.my_public(), Some(far(9)));
    assert_eq!(n.claimed(), None);
    n.set_claimed(far(8));
    assert_eq!(n.claimed(), Some(far(8)));
}

#[test]
fn junk_is_dropped() {
    let mut n = node("p", Role::Peer);
    assert!(matches!(n.handle(b"junk", far(1), 5), Event::Nothing));
    assert!(n.take_outbox().is_empty());
    assert_eq!(n.peer_count(), 0);
}

#[test]
fn beacons_discover_the_lan() {
    let mut n = node("p", Role::Peer);
    let beacon = Message::Ping {
        nonce: 0,
        name: "q".to_string(),
    };
    // a peer that is met on the LAN and across the internet
    hello(&mut n, "q", far(1), 0);
    assert_eq!(n.effective_addr(far(1)), far(1));
    match hear(&mut n, beacon, near(7), 0) {
        Event::InventoryWanted { to } => assert_eq!(to, near(7)),
        other => panic!("{:?}", other),
    }
    n.pong(near(7), has(4), 0);
    assert_eq!(
        sent(&mut n),
        vec![(near(7), Message::Pong { availability: has(4) })]
    );
    assert!(n.is_lan_path(near(7)) && !n.is_lan_path(far(1)));
    assert_eq!(n.effective_addr(far(1)), near(7));
    assert_eq!(n.effective_addr(far(5)), far(5));
    // one without a name is answered but not kept
    let blank = Message::Ping {
        nonce: 0,
        name: String::new(),
    };
    assert!(matches!(hear(&mut n, blank, near(8), 0), Event::InventoryWanted { .. }));
    assert!(!n.knows(near(8)));
}

#[test]
fn own_beacon_is_no_peer() {
    let mut n = node("p", Role::Peer);
    n.tick(5 * SECOND);
    let out = n.take_outbox();
    assert_eq!(out.len(), 1);
    assert_eq!(out[0].to, Endpoint::v4(255, 255, 255, 255, 3333));
    assert!(matches!(n.handle(&out[0].bytes, near(3), 5 * SECOND), Event::Nothing));
    assert_eq!(n.peer_count(), 0);
}

#[test]
fn pings_go_out_in_time() {
    let mut n = node("m", Role::Master);
    hello(&mut n, "p", far(1), 0);
    assert_eq!(n.tick(10 * SECOND - 1), Due { prune: false, snapshot: true, rank_log: false });
    assert!(sent(&mut n).is_empty());
    n.tick(10 * SECOND);
    let out = sent(&mut n);
    assert_eq!(out.len(), 1);
    assert!(matches!(&out[0], (to, Message::Ping { name, .. }) if *to == far(1) && name == "m"));
    assert_eq!(n.tick(60 * SECOND), Due { prune: true, snapshot: true, rank_log: true });
    assert_eq!(n.tick(60 * SECOND), Due { prune: false, snapshot: false, rank_log: false });
}

#[test]
fn paths_age() {
    let mut n = node("p", Role::Peer);
    hello(&mut n, "q", far(1), 0);
    assert!(!n.path_fresh(far(1), 0));
    pong(&mut n, far(1), None, SECOND);
    assert!(n.path_fresh(far(1), 30 * SECOND));
    assert!(!n.path_fresh(far(1), 31 * SECOND));
}

#[test]
fn silent_peers_are_pruned() {
    let mut n = node("p", Role::Peer);
    hello(&mut n, "q", far(1), 0);
    hello(&mut n, "r", far(2), 0);
    pong(&mut n, far(2), None, 5 * SECOND);
    n.prune_peers(6 * SECOND, 6 * SECOND);
    assert!(!n.knows(far(1)) && n.knows(far(2)));
}

#[test]
fn what_peers_have() {
    let mut n = node("p", Role::Peer);
    assert_eq!(n.peer_availability(far(1), "seg_9.ts", 0), None);
    pong(&mut n, far(1), has(9), 0);
    assert_eq!(n.peer_availability(far(1), "seg_9.ts", 0), Some(true));
    assert_eq!(n.peer_availability(far(1), "seg_8.ts", 0), Some(false));
    assert_eq!(n.peer_availability(far(1), "live.m3u8", 0), None);
    assert_eq!(n.peer_availability(far(1), "seg_10.ts", 0), None);
    assert_eq!(n.peer_availability(far(1), "seg_9.ts", 15 * SECOND), Some(true));
    assert_eq!(n.peer_availability(far(1), "seg_8.ts", 15 * SECOND + 1), None);
    assert!(n.peer_may_have(far(1), "seg_8.ts", 15 * SECOND + 1));
    // a refusal counts until a later inventory
    n.record_not_found(far(1), "seg_9.ts", 0);
    assert_eq!(n.peer_availability(far(1), "seg_9.ts", 0), Some(false));
    assert!(!n.peer_may_have(far(1), "seg_9.ts", 0));
    n.record_not_found(far(1), "seg_8.ts", 0);
    n.record_not_found(far(2), "seg_9.ts", 0);
    n.record_availability(far(1), SegmentAvailability { newest: 9, mask: 1 }, 1);
    assert_eq!(n.peer_availability(far(1), "seg_9.ts", 1), Some(true));
    assert_eq!(n.peer_availability(far(1), "seg_8.ts", 1), Some(false));
    assert_eq!(n.peer_availability(far(2), "seg_9.ts", 1), Some(false));
}

#[test]
fn a_lifted_refusal_stays_lifted() {
    let mut n = node("p", Role::Peer);
    n.record_not_found(far(1), "seg_84.ts", 0);
    assert!(!n.peer_may_have(far(1), "seg_84.ts", 0));
    pong(&mut n, far(1), has(84), SECOND);
    assert!(n.peer_may_have(far(1), "seg_84.ts", SECOND));
    // outside the next inventory: unknown, not refused
    pong(&mut n, far(1), has(100), 2 * SECOND);
    assert_eq!(n.peer_availability(far(1), "seg_84.ts", 2 * SECOND), None);
    assert!(n.peer_may_have(far(1), "seg_84.ts", 2 * SECOND));
}

#[test]
fn peerlists_are_flagged() {
    let mut n = node("m", Role::Master);
    let mapped = Message::HandshakeRequest {
        claimed: far(1),
        name: "a".to_string(),
    };
    hear(&mut n, mapped, far(1), 0);
    hello(&mut n, "b", Endpoint::v4(203, 0, 113, 2, 5000), 0);
    hello(&mut n, "c", far(3), 0);
    hello(&mut n, "d", near(4), 0);
    assert_eq!(
        n.peerlist(far(2)),
        vec![
            (far(1), PEER_UPNP_MAPPED | PEER_PARENT),
            (Endpoint::v4(203, 0, 113, 2, 5000), PEER_SAME_IP | PEER_PARENT),
            (far(3), 0),
        ]
    );
    // private peers see each other, and nobody sees itself
    assert_eq!(n.peerlist(near(9)).len(), 4);
    assert_eq!(n.peerlist(far(3)).len(), 2);
    sent(&mut n);
    hear(&mut n, Message::PeerlistRequest, far(3), 0);
    let out = sent(&mut n);
    assert!(matches!(&out[0], (to, Message::PeerlistResponse { peers }) if *to == far(3) && peers.len() == 2));
    // a peer marks no parents
    let mut p = node("p", Role::Peer);
    hello(&mut p, "a", far(1), 0);
    assert_eq!(p.peerlist(far(2)), vec![(far(1), 0)]);
}

#[test]
fn peerlists_are_short() {
    let mut n = node("m", Role::Master);
    for i in 0..20 {
        hello(&mut n, "x", far(i), 0);
    }
    assert_eq!(n.peerlist(far(99)).len(), 16);
}

#[test]
fn peerlists_come_in() {
    let mut n = node("p", Role::Peer);
    let m = Message::PeerlistResponse {
        peers: vec![(far(1), 4)],
    };
    match hear(&mut n, m, far(9), 0) {
        Event::PeerlistResponse { peers } => assert_eq!(peers, vec![(far(1), 4)]),
        other => panic!("{:?}", other),
    }
}

#[test]
fn manifests_are_handed_over() {
    let mut n = node("m", Role::Master);
    match hear(&mut n, Message::ManifestRequest, far(1), 0) {
        Event::ManifestWanted { to } => assert_eq!(to, far(1)),
        other => panic!("{:?}", other),
    }
    n.send_manifest(far(1), vec![7, 8], 0);
    assert_eq!(
        sent(&mut n),
        vec![(far(1), Message::ManifestResponse { data: vec![7, 8] })]
    );
    match hear(&mut n, Message::ManifestResponse { data: vec![9] }, far(1), 0) {
        Event::ManifestResponse { data } => assert_eq!(data, vec![9]),
        other => panic!("{:?}", other),
    }
}

fn ask(n: &mut Node, id: u16, name: &str, src: Endpoint, now: u128) {
    let m = Message::SegmentRequest {
        transfer_id: id,
        filename: name.to_string(),
    };
    match hear(n, m, src, now) {
        Event::SegmentWanted { transfer_id, filename, src: from, readable } => {
            assert_eq!((transfer_id, filename.as_str(), from, readable), (id, name, src, true))
        }
        other => panic!("{:?}", other),
    }
    n.serve(id, name, src, Some(vec![1, 2]), has(9), now);
}

#[test]
fn origin_copies_are_few() {
    let mut n = node("m", Role::Master);
    for i in 1..6 {
        hello(&mut n, "p", far(i), 0);
        pong(&mut n, far(i), None, 0);
    }
    ask(&mut n, 1, "seg_9.ts", far(1), 0);
    ask(&mut n, 2, "seg_9.ts", far(2), 0);
    assert!(sent(&mut n).is_empty());
    assert_eq!(n.registry().active_count(), 2);
    // no copy elsewhere is known: one more is granted to recover
    ask(&mut n, 3, "seg_9.ts", far(3), 0);
    assert_eq!(n.registry().active_count(), 3);
    // once a seeder has it, others are put off
    pong(&mut n, far(1), has(9), 0);
    ask(&mut n, 4, "seg_9.ts", far(4), 0);
    assert_eq!(
        sent(&mut n),
        vec![(
            far(4),
            Message::SegmentNotFound {
                transfer_id: 4,
                availability: has(9),
                retryable: true
            }
        )]
    );
    // a grant stays
    ask(&mut n, 5, "seg_9.ts", far(2), 0);
    assert!(sent(&mut n).is_empty());
    // what is gone is forgotten
    n.forget_seeders("seg_9.ts");
    ask(&mut n, 6, "seg_9.ts", far(4), 0);
    assert!(sent(&mut n).is_empty());
    let text = n.metrics_text(&store(), 0);
    assert!(text.contains("qstream_origin_seeds_assigned_total{node=\"m\"} 4\n"));
    assert!(text.contains("qstream_origin_seeds_denied_total{node=\"m\"} 1\n"));
}

#[test]
fn peers_grant_every_copy() {
    let mut n = node("p", Role::Peer);
    for i in 1..6 {
        hello(&mut n, "p", far(i), 0);
        pong(&mut n, far(i), has(9), 0);
        ask(&mut n, i as u16, "seg_9.ts", far(i), 0);
    }
    assert_eq!(n.registry().active_count(), 5);
}

#[test]
fn missing_files_are_refused() {
    let mut n = node("m", Role::Master);
    n.serve(4, "seg_1.ts", far(1), None, None, 0);
    assert_eq!(
        sent(&mut n),
        vec![(
            far(1),
            Message::SegmentNotFound {
                transfer_id: 4,
                availability: None,
                retryable: false
            }
        )]
    );
    n.tick(1);
    assert!(n.stats_lines(1)[1].contains(" nf_served=1 "));
    // names that lead elsewhere are not read
    let m = Message::SegmentRequest {
        transfer_id: 5,
        filename: "../x".to_string(),
    };
    assert!(matches!(
        hear(&mut n, m, far(1), 0),
        Event::SegmentWanted { readable: false, .. }
    ));
}

#[test]
fn a_segment_goes_from_node_to_node() {
    let mut a = node("a", Role::Master);
    let mut b = node("b", Role::Peer);
    let (at_a, at_b) = (far(1), far(2));
    let file: Vec<u8> = (0..30_000u32).map(|i| (i * 13) as u8).collect();
    let id = b.start_pull(at_a, "seg_9.ts", 40_000, 0).unwrap();
    assert_eq!(id, 40_000);
    let mut now = 0;
    let mut got = None;
    while now < SECOND {
        for d in b.take_outbox() {
            assert_eq!(d.to, at_a);
            if let Event::SegmentWanted { transfer_id, filename, src, readable } = a.handle(&d.bytes, at_b, now) {
                assert!(readable);
                a.serve(transfer_id, &filename, src, Some(file.clone()), None, now);
            }
        }
        a.tick(now);
        for d in a.take_outbox() {
            assert_eq!(d.to, at_b);
            if let Event::Downloaded { transfer_id, filename, data } = b.handle(&d.bytes, at_a, now) {
                assert_eq!(filename, "seg_9.ts");
                got = Some(data);
                b.saved(transfer_id, now);
            }
        }
        b.tick(now);
        now += 1_000_000;
    }
    assert_eq!(got, Some(file));
    assert_eq!(b.registry().receiver_outcome(id), Some(Ok(())));
    assert_eq!(a.registry().active_count(), 0);
    assert!(a.stats_json("1", &store(), now).contains("\"uploaded\":{\"segments\":1,\"bytes\":30000}"));
    b.forget_pull(id);
    assert_eq!(b.registry().active_count(), 0);
}

#[test]
fn a_failed_save_ends_the_pull() {
    let mut n = node("p", Role::Peer);
    let id = n.start_pull(far(1), "seg_9.ts", 7, 0).unwrap();
    sent(&mut n);
    let m = Message::SegmentContents {
        transfer_id: id,
        packet_number: 1,
        total_packets: 1,
        data: vec![5],
    };
    assert!(matches!(hear(&mut n, m, far(1), 0), Event::Downloaded { .. }));
    n.save_failed(id, "/x/seg_9.ts", "disk full", 0);
    assert_eq!(
        n.registry().receiver_outcome(id),
        Some(Err("failed to write /x/seg_9.ts: disk full".to_string()))
    );
    assert!(sent(&mut n).is_empty());
}

#[test]
fn refusals_are_remembered() {
    let mut n = node("p", Role::Peer);
    let a = n.start_pull(far(1), "seg_9.ts", 1, 0).unwrap();
    let b = n.start_pull(far(2), "seg_9.ts", 2, 0).unwrap();
    for (id, src, retryable) in [(a, far(1), false), (b, far(2), true)] {
        let m = Message::SegmentNotFound {
            transfer_id: id,
            availability: None,
            retryable,
        };
        assert!(matches!(hear(&mut n, m, src, 0), Event::Nothing));
    }
    assert_eq!(n.peer_availability(far(1), "seg_9.ts", 0), Some(false));
    assert_eq!(n.peer_availability(far(2), "seg_9.ts", 0), None);
    assert!(n.registry().receiver_retryable_not_found(b));
}

#[test]
fn acks_end_a_serve() {
    let mut n = node("m", Role::Master);
    hello(&mut n, "p", far(1), 0);
    ask(&mut n, 3, "seg_9.ts", far(1), 0);
    let m = Message::Ack {
        transfer_id: 3,
        ack_type: AckType::Complete,
        next_start: 0,
        next_count: 0,
    };
    hear(&mut n, m, far(1), 1);
    assert_eq!(n.registry().active_count(), 0);
    n.tick(2);
    assert_eq!(n.score_of(far(1)), 52);
}

#[test]
fn inventories_are_announced() {
    let mut n = node("p", Role::Peer);
    hello(&mut n, "a", far(1), 0);
    hello(&mut n, "b", far(2), 0);
    n.announce_availability(has(3), 0);
    assert_eq!(
        sent(&mut n),
        vec![
            (far(1), Message::Pong { availability: has(3) }),
            (far(2), Message::Pong { availability: has(3) }),
        ]
    );
}

#[test]
fn scores_follow_service() {
    let mut n = node("p", Role::Peer);
    hello(&mut n, "q", far(1), 0);
    n.record_pull(far(1), PullResult::Done, Some(40), 100, 0);
    assert_eq!(n.score_of(far(1)), 52);
    n.record_pull(far(1), PullResult::NotFound, None, 0, 0);
    n.record_pull(far(1), PullResult::RetryableNotFound, None, 0, 0);
    assert_eq!(n.score_of(far(1)), 52);
    n.record_pull(far(1), PullResult::Timeout, None, 0, 0);
    assert_eq!(n.score_of(far(1)), 42);
    n.record_pull(far(1), PullResult::Other, None, 0, 0);
    assert_eq!(n.score_of(far(1)), 39);
    n.record_serve(far(1), ServeResult::Served, 7, 0);
    assert_eq!(n.score_of(far(1)), 41);
    n.record_serve(far(1), ServeResult::NotFound, 0, 0);
    n.record_serve(far(1), ServeResult::SenderFailed, 0, 0);
    assert_eq!(n.score_of(far(1)), 36);
    for _ in 0..9 {
        n.record_pull(far(1), PullResult::Timeout, None, 0, 0);
    }
    assert_eq!(n.score_of(far(1)), 0);
    for _ in 0..60 {
        n.record_pull(far(1), PullResult::Done, Some(80), 0, 0);
    }
    assert_eq!(n.score_of(far(1)), 100);
}

#[test]
fn latency_is_smoothed() {
    let mut n = node("p", Role::Peer);
    hello(&mut n, "q", far(1), 0);
    n.record_pull(far(1), PullResult::Done, Some(40), 0, 0);
    n.record_pull(far(1), PullResult::Done, Some(80), 0, 0);
    assert!(n.stats_lines(0)[1].contains(" latency=50ms "));
}

#[test]
fn statistics_in_lines() {
    let mut n = node("p", Role::Peer);
    hello(&mut n, "a", far(1), 0);
    hello(&mut n, "b", far(2), 0);
    pong(&mut n, far(2), Some(SegmentAvailability { newest: 9, mask: 0x1f }), 0);
    n.record_pull(far(2), PullResult::Done, Some(12), 1000, 0);
    assert_eq!(
        n.stats_lines(9 * SECOND + 1),
        vec![
            "node p uptime=9 downloaded=1",
            "peer b 203.0.113.2:4000 score=52 pulls=1 nf_pulls=0 timeouts=0 other_fails=0 served=0 nf_served=0 sender_fails=0 latency=12ms path=fresh downloaded_bytes=1000 uploaded_bytes=0 newest=9 mask=001f",
            "peer a 203.0.113.1:4000 score=50 pulls=0 nf_pulls=0 timeouts=0 other_fails=0 served=0 nf_served=0 sender_fails=0 latency=0ms path=stale downloaded_bytes=0 uploaded_bytes=0",
        ]
    );
    assert_eq!(
        n.ranking_text(),
        Some("peer ranking: b 52 (pull 1/0/0/0 served 0/0/0), a 50 (pull 0/0/0/0 served 0/0/0)".to_string())
    );
    assert_eq!(node("x", Role::Peer).ranking_text(), None);
}

#[test]
fn statistics_in_json() {
    let mut n = node("p\"1", Role::Peer);
    n.set_queue(5, 2);
    assert_eq!(
        n.stats_json("0.3", &store(), 2 * SECOND),
        "{\"version\":\"0.3\",\"node\":\"p\\\"1\",\"role\":\"peer\",\"uptime_secs\":2,\"peers_in_swarm\":0,\"public_endpoint\":null,\"peers\":[],\"downloaded\":{\"segments\":0,\"bytes\":0},\"uploaded\":{\"segments\":0,\"bytes\":0},\"store_bytes\":15,\"store_segments\":2,\"edge_segment\":9,\"local_newest\":7,\"catch_up\":2,\"active_transfers\":0,\"queue_depth\":5,\"inflight\":2,\"origin_seeds\":{\"assigned\":0,\"denied\":0},\"fault\":null,\"rss_bytes\":4096}"
    );
    let mut m = node("m", Role::Master);
    hello(&mut m, "a", far(1), 0);
    hello(&mut m, "b", far(2), 0);
    let json = m.stats_json("0.3", &store(), 0);
    assert!(json.contains("\"role\":\"master\""));
    assert!(json.contains("\"peers\":[{\"name\":\"a\",\"addr\":\"203.0.113.1:4000\",\"score\":50,\"pulls\":0,\"nf_pulls\":0,\"timeouts\":0,\"served\":0,\"nf_served\":0,\"latency_ms\":0,\"downloaded_bytes\":0,\"uploaded_bytes\":0},{\"name\":\"b\","));
}

#[test]
fn statistics_as_metrics() {
    let mut n = node("p", Role::Peer);
    hello(&mut n, "a", far(1), 0);
    let text = n.metrics_text(&store(), 0);
    assert!(text.starts_with("# HELP qstream_uptime_seconds Seconds since node start.\n# TYPE qstream_uptime_seconds gauge\n"));
    assert!(text.contains("\nqstream_catch_up{node=\"p\"} 2\n"));
    assert!(text.ends_with("qstream_peer_uploaded_bytes_total{node=\"p\",peer=\"a\"} 0\n"));
    assert!(!text.contains("qstream_fault_dropped_total{"));
    assert_eq!(text.matches("# TYPE ").count(), 27);
}

#[test]
fn faults_are_reported() {
    let mut n = Node::new(
        "p".to_string(),
        Role::Peer,
        settings(None, None, None),
        FaultInjector::new(config(100), 1, 0),
        Endpoint::v4(0, 0, 0, 0, 3333),
        0,
        2,
        0,
    );
    n.pong(far(1), None, 0);
    assert!(n.take_outbox().is_empty());
    n.emitted(true);
    assert_eq!(n.stats_lines(0)[1], "fault dropped=1 emitted=1");
    assert!(n.stats_json("1", &store(), 0).contains("\"fault\":{\"dropped\":1,\"emitted\":1}"));
    assert!(n.metrics_text(&store(), 0).contains("qstream_fault_dropped_total{node=\"p\"} 1\n"));
    // without a retention time nothing is pruned
    assert!(!n.tick(99 * SECOND).prune);
    assert_eq!(n.retention_secs(), 0);
    assert_eq!(n.name(), "p");
}

#[test]
fn deadlines_of_transfers() {
    let mut n = node("m", Role::Master);
    assert_eq!(n.next_deadline(0), None);
    n.start_pull(far(1), "seg_9.ts", 7, 0);
    assert_eq!(n.next_deadline(0), Some(150_000_000));
}
