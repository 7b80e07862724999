use qstream::http::{
    file_reply, parse_request, reply, reply_to, request_complete, request_parts, respond, Reply,
    StatsSnapshot, MAX_REQUEST_BYTES,
};
use qstream::playlist::{
    files_named, filter_playlist, filter_text, playback_playlist, playback_text, playlist_files,
};
use qstream::table::Group;

fn group(names: &[&str]) -> Group<String> {
    let mut g = Group::new();
    for n in names {
        g.add_key(n.to_string());
    }
    g
}

fn text(data: Vec<u8>) -> String {
    String::from_utf8(data).unwrap()
}

fn answered(r: Reply) -> String {
    match r {
        Reply::Answer(data) => text(data),
        Reply::File { name, .. } => panic!("file {}", name),
    }
}

fn wanted_file(r: Reply) -> (String, bool) {
    match r {
        Reply::File { name, head_only } => (name, head_only),
        Reply::Answer(data) => panic!("answer {}", text(data)),
    }
}

#[test]
fn playlist_filter_keeps_only_present_segments() {
    let dir = group(&["seg_0100.ts", "seg_0102.ts"]);
    let playlist = "\
#EXTM3U\n\
#EXT-X-VERSION:3\n\
#EXT-X-TARGETDURATION:2\n\
#EXT-X-MEDIA-SEQUENCE:100\n\
#EXTINF:2.0,\n\
seg_0100.ts\n\
#EXTINF:2.0,\n\
seg_0101.ts\n\
#EXTINF:2.0,\n\
seg_0102.ts\n";
    let out = filter_playlist(&dir, playlist.as_bytes());
    let text = String::from_utf8(out).unwrap();
    assert!(text.contains("seg_0100.ts"));
    assert!(!text.contains("seg_0101.ts"));
    assert!(text.contains("seg_0102.ts"));
    // MEDIA-SEQUENCE must stay 100 (first kept is the first segment).
    assert!(text.contains("#EXT-X-MEDIA-SEQUENCE:100"));
    // EXTINF for the dropped segment must not linger.
    assert_eq!(text.matches("#EXTINF").count(), 2);
}

#[test]
fn playlist_filter_advances_sequence_after_dropped_leader() {
    let dir = group(&["seg_0102.ts"]);
    let playlist = "\
#EXTM3U\n\
#EXT-X-MEDIA-SEQUENCE:100\n\
#EXTINF:2.0,\n\
seg_0100.ts\n\
#EXTINF:2.0,\n\
seg_0101.ts\n\
#EXTINF:2.0,\n\
seg_0102.ts\n";
    let out = filter_playlist(&dir, playlist.as_bytes());
    let text = String::from_utf8(out).unwrap();
    assert!(text.contains("#EXT-X-MEDIA-SEQUENCE:102"));
    assert!(text.contains("seg_0102.ts"));
    assert!(!text.contains("seg_0100.ts"));
}

#[test]
fn playlist_filter_empty_falls_back_to_original() {
    let dir = group(&[]);
    let playlist = "#EXTM3U\n#EXT-X-MEDIA-SEQUENCE:5\n#EXTINF:2.0,\nseg_0005.ts\n";
    assert_eq!(filter_playlist(&dir, playlist.as_bytes()), playlist.as_bytes());
}

#[test]
fn playlist_filter_renumbers_after_the_heading() {
    let dir = group(&["a.ts", "c.ts"]);
    let playlist = "#EXTM3U\r\n#EXT-X-MEDIA-SEQUENCE: 7 \r\n#EXTINF:1,\r\n a.ts \r\n\r\nb.ts\nc.ts\n";
    assert_eq!(
        text(filter_playlist(&dir, playlist.as_bytes())),
        "#EXTM3U\n#EXT-X-MEDIA-SEQUENCE:7\n#EXTINF:1,\na.ts\nc.ts\n"
    );
}

#[test]
fn playlist_filter_wants_a_playlist() {
    let dir = group(&["a.ts"]);
    assert_eq!(filter_playlist(&dir, b"a.ts\n"), b"a.ts\n".to_vec());
}

#[test]
fn playlist_filter_reads_broken_text() {
    let dir = group(&["a.ts"]);
    let out = filter_playlist(&dir, b"#EXTM3U\xff\na.ts\nb.ts\n");
    assert_eq!(text(out), "#EXTM3U\u{fffd}\n#EXT-X-MEDIA-SEQUENCE:0\na.ts\n");
}

#[test]
fn complete_playlist_is_unchanged() {
    let dir = group(&["a.ts", "b.ts"]);
    for playlist in [
        "#EXTM3U\na.ts\n",
        "#EXTM3U\r\n#EXT-X-VERSION:3\r\n\r\n#EXTINF:1,\r\na.ts\r\nb.ts\r\n#EXT-X-ENDLIST\r\n",
        "#EXTM3U\n#EXT-X-TARGETDURATION:2\n#EXT-X-MEDIA-SEQUENCE:9\nb.ts",
    ] {
        assert_eq!(text(filter_playlist(&dir, playlist.as_bytes())), playlist);
        assert_eq!(filter_text(&dir, playlist), None);
    }
}

#[test]
fn heading_stays_without_the_first_segment() {
    let dir = group(&["b.ts", "d.ts"]);
    let playlist = "#EXTM3U\n#EXT-X-VERSION:3\n#EXT-X-TARGETDURATION:2\n#EXT-X-MEDIA-SEQUENCE:5\n#EXT-X-PROGRAM-DATE-TIME:x\n#EXT-X-DISCONTINUITY\n#EXTINF:2.0,\na.ts\n#EXTINF:2.1,\nb.ts\n#EXTINF:2.2,\nc.ts\n#EXTINF:2.3,\nd.ts\n";
    let out = text(filter_playlist(&dir, playlist.as_bytes()));
    assert_eq!(
        out,
        "#EXTM3U\n#EXT-X-MEDIA-SEQUENCE:6\n#EXT-X-VERSION:3\n#EXT-X-TARGETDURATION:2\n#EXTINF:2.1,\nb.ts\n#EXTINF:2.3,\nd.ts\n"
    );
    // a second time nothing changes
    assert_eq!(text(filter_playlist(&dir, out.as_bytes())), out);
    assert_eq!(
        playback_text(&dir, playlist, 1).unwrap(),
        "#EXTM3U\n#EXT-X-MEDIA-SEQUENCE:6\n#EXT-X-VERSION:3\n#EXT-X-TARGETDURATION:2\n#EXTINF:2.1,\nb.ts\n"
    );
}

#[test]
fn number_follows_the_first_heading() {
    let dir = group(&["a.ts", "b.ts"]);
    assert_eq!(
        filter_text(&dir, "a.ts\n#EXTM3U\nb.ts\nc.ts\n"),
        Some("a.ts\n#EXTM3U\n#EXT-X-MEDIA-SEQUENCE:0\nb.ts\n".to_string())
    );
    assert_eq!(
        filter_text(&dir, "#EXT-X-VERSION:3\n#EXTM3U\nc.ts\nb.ts\n"),
        Some("#EXT-X-VERSION:3\n#EXT-X-MEDIA-SEQUENCE:1\n#EXTM3U\nb.ts\n".to_string())
    );
    // the heading goes with a segment that is absent: the number comes last
    let dir = group(&["a.ts"]);
    assert_eq!(
        filter_text(&dir, "a.ts\n#EXTM3U\nb.ts\n"),
        Some("a.ts\n#EXT-X-MEDIA-SEQUENCE:0\n".to_string())
    );
}

#[test]
fn tags_keep_their_order() {
    let playlist = "#EXTM3U\n#EXTINF:2,\n#EXT-X-GAP\na.ts\nb.ts\n";
    assert_eq!(
        filter_text(&group(&["a.ts"]), playlist),
        Some("#EXTM3U\n#EXT-X-MEDIA-SEQUENCE:0\n#EXTINF:2,\n#EXT-X-GAP\na.ts\n".to_string())
    );
    // tags behind one of an absent segment go with it
    assert_eq!(
        filter_text(&group(&["b.ts"]), playlist),
        Some("#EXTM3U\n#EXT-X-MEDIA-SEQUENCE:1\nb.ts\n".to_string())
    );
}

#[test]
fn playback_stays_behind_the_edge() {
    let manifest = b"#EXTM3U\n#EXT-X-MEDIA-SEQUENCE:4\n#EXTINF:2,\na.ts\n#EXTINF:2,\nb.ts\n#EXTINF:2,\nc.ts\n#EXTINF:2,\nd.ts\n";
    let all = group(&["a.ts", "b.ts", "c.ts", "d.ts"]);
    assert_eq!(
        text(playback_playlist(&all, manifest, 3).unwrap()),
        "#EXTM3U\n#EXT-X-MEDIA-SEQUENCE:4\n#EXTINF:2,\na.ts\n"
    );
    assert_eq!(playback_playlist(&all, manifest, 4), None);
    // what is missing does not count
    let some = group(&["a.ts", "b.ts", "d.ts"]);
    assert_eq!(
        text(playback_playlist(&some, manifest, 1).unwrap()),
        "#EXTM3U\n#EXT-X-MEDIA-SEQUENCE:4\n#EXTINF:2,\na.ts\n#EXTINF:2,\nb.ts\n"
    );
    assert_eq!(playback_playlist(&some, b"a.ts\nb.ts\n", 0), None);
}

#[test]
fn files_of_a_playlist() {
    assert_eq!(
        playlist_files(b"#EXTM3U\n a.ts\n\n#x\nb.ts"),
        vec!["a.ts", "b.ts"]
    );
}

#[test]
fn end_of_a_request() {
    assert!(!request_complete(b"GET / HTTP/1.1\r\nHost: x\r\n"));
    assert!(request_complete(b"GET / HTTP/1.1\r\nHost: x\r\n\r\n"));
    assert!(!request_complete(b""));
    assert!(!request_complete(&vec![b'a'; MAX_REQUEST_BYTES - 1]));
    assert!(request_complete(&vec![b'a'; MAX_REQUEST_BYTES]));
}

#[test]
fn parts_of_a_request() {
    assert_eq!(
        parse_request(b"GET //live.m3u8?x=1?y HTTP/1.1\r\n\r\n"),
        ("GET".to_string(), "live.m3u8".to_string())
    );
    assert_eq!(parse_request(b""), (String::new(), String::new()));
    assert_eq!(
        parse_request(b"\xff\t/a"),
        ("\u{fffd}".to_string(), "a".to_string())
    );
}

#[test]
fn answers_in_full() {
    assert_eq!(
        text(respond(200, "OK", "text/plain", b"ok\n", false)),
        "HTTP/1.1 200 OK\r\nContent-Type: text/plain\r\nContent-Length: 3\r\nConnection: close\r\n\r\nok\n"
    );
    assert_eq!(
        text(respond(200, "OK", "text/plain", b"ok\n", true)),
        "HTTP/1.1 200 OK\r\nContent-Type: text/plain\r\nContent-Length: 3\r\nConnection: close\r\n\r\n"
    );
}

#[test]
fn only_reading_is_allowed() {
    let a = answered(reply(b"POST /a HTTP/1.1\r\n\r\n", None));
    assert!(a.starts_with("HTTP/1.1 405 Method Not Allowed\r\n"));
    assert!(a.ends_with("\r\n\r\nmethod not allowed\n"));
}

#[test]
fn statistics_over_http() {
    let empty = StatsSnapshot::default();
    assert!(answered(reply(b"GET /peers H\r\n\r\n", Some(&empty))).ends_with("\r\n\r\nnode stats not ready\n"));
    assert!(answered(reply(b"GET /stats H\r\n\r\n", Some(&empty))).ends_with("\r\n\r\n{}"));
    assert!(answered(reply(b"GET /metrics H\r\n\r\n", Some(&empty))).ends_with("\r\n\r\n"));
    let full = StatsSnapshot {
        lines: vec!["a".to_string(), "b".to_string()],
        json: "{\"x\":1}".to_string(),
        metrics: "m 1".to_string(),
    };
    assert!(answered(reply(b"GET /peers H\r\n\r\n", Some(&full))).ends_with("\r\n\r\na\nb\n"));
    let json = answered(reply(b"GET /stats H\r\n\r\n", Some(&full)));
    assert!(json.contains("Content-Type: application/json\r\n"));
    assert!(json.ends_with("\r\n\r\n{\"x\":1}\n"));
    let metrics = answered(reply(b"GET /metrics H\r\n\r\n", Some(&full)));
    assert!(metrics.contains("Content-Type: text/plain; version=0.0.4\r\n"));
    assert!(metrics.ends_with("\r\n\r\nm 1\n"));
    let head = answered(reply(b"HEAD /stats H\r\n\r\n", Some(&full)));
    assert!(head.contains("Content-Length: 8\r\n"));
    assert!(head.ends_with("\r\n\r\n"));
    // without statistics these are ordinary names
    assert_eq!(
        wanted_file(reply(b"GET /peers H\r\n\r\n", None)),
        ("peers".to_string(), false)
    );
}

#[test]
fn health_is_always_answered() {
    assert!(answered(reply(b"GET /health?x HTTP/1.1\r\n\r\n", None)).ends_with("\r\n\r\nok\n"));
}

#[test]
fn only_plain_names_are_files() {
    assert_eq!(
        wanted_file(reply(b"HEAD /seg_1.ts H\r\n\r\n", None)),
        ("seg_1.ts".to_string(), true)
    );
    for request in [&b"GET /../x H\r\n\r\n"[..], b"GET / H\r\n\r\n", b"GET /.x H\r\n\r\n"] {
        let a = answered(reply(request, None));
        assert!(a.starts_with("HTTP/1.1 404 Not Found\r\n"));
        assert!(a.ends_with("\r\n\r\nnot found\n"));
    }
}

#[test]
fn files_over_http() {
    let none = group(&[]);
    let missing = text(file_reply("a.ts", None, &none, false));
    assert!(missing.starts_with("HTTP/1.1 404 Not Found\r\nContent-Type: text/plain\r\n"));
    let segment = text(file_reply("a.ts", Some(b"xyz".to_vec()), &none, false));
    assert!(segment.starts_with("HTTP/1.1 200 OK\r\nContent-Type: video/mp2t\r\nContent-Length: 3\r\n"));
    assert!(segment.ends_with("\r\n\r\nxyz"));
    assert!(text(file_reply("a.mp4", Some(vec![]), &none, false)).contains("video/mp4"));
    assert!(text(file_reply("a.bin", Some(vec![]), &none, false)).contains("application/octet-stream"));
    let playlist = text(file_reply(
        "live.m3u8",
        Some(b"#EXTM3U\na.ts\nb.ts\n".to_vec()),
        &group(&["b.ts", "a.ts"]),
        false,
    ));
    assert!(playlist.contains("Content-Type: application/vnd.apple.mpegurl\r\n"));
    assert!(playlist.ends_with("\r\n\r\n#EXTM3U\na.ts\nb.ts\n"));
    let part = text(file_reply(
        "live.m3u8",
        Some(b"#EXTM3U\na.ts\nb.ts\n".to_vec()),
        &group(&["b.ts"]),
        false,
    ));
    assert!(part.ends_with("\r\n\r\n#EXTM3U\n#EXT-X-MEDIA-SEQUENCE:1\nb.ts\n"));
}

#[test]
fn playlists_as_text() {
    let dir = group(&["b.ts", "c.ts"]);
    assert_eq!(
        filter_text(&dir, "#EXTM3U\na.ts\nb.ts\nc.ts\n"),
        Some("#EXTM3U\n#EXT-X-MEDIA-SEQUENCE:1\nb.ts\nc.ts\n".to_string())
    );
    assert_eq!(filter_text(&dir, "#EXTM3U\na.ts\n"), None);
    assert_eq!(
        playback_text(&dir, "#EXTM3U\nb.ts\nc.ts\n", 1),
        Some("#EXTM3U\n#EXT-X-MEDIA-SEQUENCE:0\nb.ts\n".to_string())
    );
    assert_eq!(playback_text(&dir, "#EXTM3U\nb.ts\nc.ts\n", 2), None);
    // what was rewritten lists what was kept
    let text = filter_text(&dir, "#EXTM3U\nb.ts\nx.ts\n#T\r\r\nc.ts\n").unwrap();
    assert_eq!(files_named(&text), vec!["b.ts", "c.ts"]);
}

#[test]
fn requests_as_text() {
    assert_eq!(
        request_parts("HEAD /a?b HTTP/1.1\r\nX: y\r\n"),
        ("HEAD".to_string(), "a".to_string())
    );
    assert!(matches!(
        reply_to("GET", "a.ts".to_string(), None),
        Reply::File { head_only: false, .. }
    ));
    assert!(answered(reply_to("PUT", "a.ts".to_string(), None)).contains(" 405 "));
}
