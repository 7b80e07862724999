//! A node's statistics in words: the ranking, a JSON document, and metrics.
use vstd::prelude::*;
use crate::endpoint::{endpoint_text, push_endpoint, Endpoint};
use crate::fault::FaultStats;
use crate::node::{NodeView, Role, Totals};
use crate::peers::{ranking, still_counts, Inventory, PeerStat, PeerStatView, Ranked};
use crate::table::lookup;
use crate::text::{
    chars_of, decimal, hex_padded, push_chars, push_decimal, push_hex, push_text, string_of,
};
use crate::transfer::since;

verus! {

/// A character inside a JSON string.
pub open spec fn escaped_char(c: char) -> Seq<char> {
    if c == '"' {
        "\\\""@
    } else if c == '\\' {
        "\\\\"@
    } else if c == '\n' {
        "\\n"@
    } else if c == '\r' {
        "\\r"@
    } else if c == '\t' {
        "\\t"@
    } else if (c as u32) < 0x20 {
        "\\u"@ + hex_padded((c as u32) as int, 4)
    } else {
        seq![c]
    }
}

/// A text inside a JSON string.
pub open spec fn escaped(s: Seq<char>) -> Seq<char>
    decreases s.len(),
{
    if s.len() == 0 {
        Seq::empty()
    } else {
        escaped(s.drop_last()) + escaped_char(s.last())
    }
}

fn push_escaped(out: &mut Vec<char>, s: &[char])
    ensures
        final(out)@ == old(out)@ + escaped(s@),
{
    let ghost start = out@;
    let mut i: usize = 0;
    proof {
        assert(start + escaped(s@.take(0)) =~= start);
    }
    while i < s.len()
        invariant
            i <= s@.len(),
            out@ == start + escaped(s@.take(i as int)),
        decreases s@.len() - i,
    {
        proof {
            assert(s@.take(i + 1).drop_last() =~= s@.take(i as int));
            assert(s@.take(i + 1).last() == s@[i as int]);
        }
        let c: char = s[i];
        let ghost before = out@;
        if c == '"' {
            push_text(out, "\\\"");
        } else if c == '\\' {
            push_text(out, "\\\\");
        } else if c == '\n' {
            push_text(out, "\\n");
        } else if c == '\r' {
            push_text(out, "\\r");
        } else if c == '\t' {
            push_text(out, "\\t");
        } else if (c as u32) < 0x20 {
            push_text(out, "\\u");
            push_hex(out, (c as u32) as u64, 4);
        } else {
            out.push(c);
        }
        proof {
            assert(out@ =~= before + escaped_char(c));
            assert(out@ =~= start + escaped(s@.take(i + 1)));
        }
        i = i + 1;
    }
    proof {
        assert(s@.take(i as int) =~= s@);
    }
}

/// Minimal JSON string escaping.
pub fn json_escape(s: &str) -> (r: String)
    ensures
        r@ == escaped(s@),
{
    let mut out: Vec<char> = Vec::new();
    push_escaped(&mut out, &chars_of(s));
    proof {
        assert(out@ =~= escaped(s@));
    }
    string_of(&out)
}

proof fn hex_is_printable(n: int, width: nat, i: int)
    requires
        0 <= n,
        0 <= i < hex_padded(n, width).len(),
    ensures
        hex_padded(n, width)[i] >= '0',
        hex_padded(n, width)[i] != '"',
    decreases width,
{
    if width > 0 {
        let rest = hex_padded(n / 16, (width - 1) as nat);
        if i < rest.len() {
            hex_is_printable(n / 16, (width - 1) as nat, i);
            assert(hex_padded(n, width)[i] == rest[i]);
        }
    }
}

proof fn escaped_char_is_safe(c: char, i: int)
    requires
        0 <= i < escaped_char(c).len(),
    ensures
        escaped_char(c)[i] >= ' ',
        escaped_char(c)[i] == '"' ==> i > 0 && escaped_char(c)[i - 1] == '\\',
{
    reveal_strlit("\\\"");
    reveal_strlit("\\\\");
    reveal_strlit("\\n");
    reveal_strlit("\\r");
    reveal_strlit("\\t");
    reveal_strlit("\\u");
    if (c as u32) < 0x20 && c != '\n' && c != '\r' && c != '\t' && i >= 2 {
        hex_is_printable((c as u32) as int, 4, i - 2);
    }
}

/// An escaped text can stand between quotes: it has no control characters, and
/// every quote in it stands behind a backslash.
pub proof fn escaped_is_safe(s: Seq<char>, i: int)
    requires
        0 <= i < escaped(s).len(),
    ensures
        escaped(s)[i] >= ' ',
        escaped(s)[i] == '"' ==> i > 0 && escaped(s)[i - 1] == '\\',
    decreases s.len(),
{
    let rest = escaped(s.drop_last());
    if i < rest.len() {
        escaped_is_safe(s.drop_last(), i);
        assert(escaped(s)[i] == rest[i]);
        if i > 0 {
            assert(escaped(s)[i - 1] == rest[i - 1]);
        }
    } else {
        let j = i - rest.len();
        escaped_char_is_safe(s.last(), j);
        assert(escaped(s)[i] == escaped_char(s.last())[j]);
        if j > 0 {
            assert(escaped(s)[i - 1] == escaped_char(s.last())[j - 1]);
        }
    }
}

/// The value of a hexadecimal digit.
pub open spec fn hex_value(c: char) -> Option<int> {
    if '0' <= c <= '9' {
        Some(c as int - '0' as int)
    } else if 'a' <= c <= 'f' {
        Some(c as int - 'a' as int + 10)
    } else if 'A' <= c <= 'F' {
        Some(c as int - 'A' as int + 10)
    } else {
        None
    }
}

/// The number that four hexadecimal digits spell.
pub open spec fn hex_read(t: Seq<char>) -> Option<int> {
    match (hex_value(t[0]), hex_value(t[1]), hex_value(t[2]), hex_value(t[3])) {
        (Some(a), Some(b), Some(c), Some(d)) => Some(((a * 16 + b) * 16 + c) * 16 + d),
        _ => None,
    }
}

/// The character that stands first in a JSON string, and how many characters
/// spell it; surrogates are not read.
pub open spec fn json_char(t: Seq<char>) -> Option<(char, int)> {
    if t.len() == 0 || t[0] < ' ' || t[0] == '"' {
        None
    } else if t[0] != '\\' {
        Some((t[0], 1))
    } else if t.len() < 2 {
        None
    } else if t[1] == '"' || t[1] == '\\' || t[1] == '/' {
        Some((t[1], 2))
    } else if t[1] == 'b' {
        Some((8u8 as char, 2))
    } else if t[1] == 'f' {
        Some((12u8 as char, 2))
    } else if t[1] == 'n' {
        Some(('\n', 2))
    } else if t[1] == 'r' {
        Some(('\r', 2))
    } else if t[1] == 't' {
        Some(('\t', 2))
    } else if t[1] == 'u' && t.len() >= 6 {
        match hex_read(t.subrange(2, 6)) {
            Some(n) => if 0xd800 <= n < 0xe000 {
                None
            } else {
                Some((n as char, 6))
            },
            None => None,
        }
    } else {
        None
    }
}

/// What the inside of a JSON string says, if it says anything.
pub open spec fn json_read(t: Seq<char>) -> Option<Seq<char>>
    decreases t.len(),
{
    if t.len() == 0 {
        Some(Seq::empty())
    } else {
        match json_char(t) {
            Some((c, n)) => match json_read(t.skip(n)) {
                Some(rest) => Some(seq![c] + rest),
                None => None,
            },
            None => None,
        }
    }
}

proof fn escaped_char_reads(c: char, rest: Seq<char>)
    ensures
        json_char(escaped_char(c) + rest) == Some((c, escaped_char(c).len() as int)),
        escaped_char(c).len() > 0,
{
    reveal_strlit("\\\"");
    reveal_strlit("\\\\");
    reveal_strlit("\\n");
    reveal_strlit("\\r");
    reveal_strlit("\\t");
    reveal_strlit("\\u");
    if (c as u32) < 0x20 && c != '\n' && c != '\r' && c != '\t' {
        let n = (c as u32) as int;
        reveal_with_fuel(hex_padded, 5);
        let four = (escaped_char(c) + rest).subrange(2, 6);
        assert(four =~= hex_padded(n, 4));
        assert(n / 16 / 16 == 0);
        assert(n / 16 / 16 / 16 == 0);
        assert(hex_read(four) == Some(n));
    }
}

proof fn escaped_from_front(s: Seq<char>)
    requires
        s.len() > 0,
    ensures
        escaped(s) == escaped_char(s[0]) + escaped(s.skip(1)),
    decreases s.len(),
{
    let tail = s.skip(1);
    if s.len() == 1 {
        assert(escaped(s.drop_last()).len() == 0);
        assert(escaped(tail).len() == 0);
        assert(escaped(s) =~= escaped_char(s[0]) + escaped(tail));
    } else {
        escaped_from_front(s.drop_last());
        assert(s.drop_last().skip(1) =~= tail.drop_last());
        assert(tail.last() == s.last());
        assert(escaped(s) =~= escaped_char(s[0]) + escaped(tail));
    }
}

/// An escaped text, read as the inside of a JSON string, gives the text back.
pub proof fn escaping_reads_back(s: Seq<char>)
    ensures
        json_read(escaped(s)) == Some(s),
    decreases s.len(),
{
    if s.len() > 0 {
        let tail = s.skip(1);
        escaped_from_front(s);
        escaped_char_reads(s[0], escaped(tail));
        escaping_reads_back(tail);
        assert(escaped(s).skip(escaped_char(s[0]).len() as int) =~= escaped(tail));
        assert(seq![s[0]] + tail =~= s);
    } else {
        assert(s =~= Seq::<char>::empty());
    }
}

/// The name of a role.
pub open spec fn role_text(role: Role) -> Seq<char> {
    match role {
        Role::Master => "master"@,
        Role::Peer => "peer"@,
    }
}

/// The seconds since a node was started.
pub open spec fn uptime(v: NodeView, now: u128) -> u64 {
    (since(now, v.started) / 1_000_000_000) as u64
}

/// How a peer is reached.
pub open spec fn path_word(v: NodeView, addr: Endpoint, now: u128) -> Seq<char> {
    if v.is_lan_path(addr) {
        "lan"@
    } else if v.path_fresh(addr, now) {
        "fresh"@
    } else {
        "stale"@
    }
}

/// What a peer told of its segments, while it counts.
pub open spec fn inventory_words(i: Option<Inventory>, now: u128) -> Seq<char> {
    match i {
        Some(i) => if still_counts(i.observed_at, now) {
            " newest="@ + decimal(i.availability.newest as int) + " mask="@ + hex_padded(
                i.availability.mask as int,
                4,
            )
        } else {
            Seq::empty()
        },
        None => Seq::empty(),
    }
}

/// The line of a peer.
pub open spec fn peer_line(s: PeerStatView, addr: Endpoint, path: Seq<char>, inventory: Seq<char>) -> Seq<
    char,
> {
    "peer "@ + s.name + " "@ + endpoint_text(addr) + " score="@ + decimal(s.score as int)
        + " pulls="@ + decimal(s.pulls as int) + " nf_pulls="@ + decimal(s.nf_pulls as int)
        + " timeouts="@ + decimal(s.timeouts as int) + " other_fails="@ + decimal(
        s.other_fails as int,
    ) + " served="@ + decimal(s.served as int) + " nf_served="@ + decimal(s.nf_served as int)
        + " sender_fails="@ + decimal(s.sender_fails as int) + " latency="@ + decimal(
        s.latency_ms as int,
    ) + "ms path="@ + path + " downloaded_bytes="@ + decimal(s.downloaded_bytes as int)
        + " uploaded_bytes="@ + decimal(s.uploaded_bytes as int) + inventory
}

pub(crate) fn peer_line_of(
    s: &PeerStat,
    addr: Endpoint,
    path: &str,
    inventory: Option<&Inventory>,
    now: u128,
) -> (line: Vec<char>)
    ensures
        line@ == peer_line(
            s@,
            addr,
            path@,
            inventory_words(
                match inventory {
                    Some(i) => Some(*i),
                    None => None,
                },
                now,
            ),
        ),
{
    let mut out = chars_of("peer ");
    push_text(&mut out, s.name.as_str());
    push_text(&mut out, " ");
    push_endpoint(&mut out, addr);
    push_text(&mut out, " score=");
    push_decimal(&mut out, s.score as u64);
    push_text(&mut out, " pulls=");
    push_decimal(&mut out, s.pulls as u64);
    push_text(&mut out, " nf_pulls=");
    push_decimal(&mut out, s.nf_pulls as u64);
    push_text(&mut out, " timeouts=");
    push_decimal(&mut out, s.timeouts as u64);
    push_text(&mut out, " other_fails=");
    push_decimal(&mut out, s.other_fails as u64);
    push_text(&mut out, " served=");
    push_decimal(&mut out, s.served as u64);
    push_text(&mut out, " nf_served=");
    push_decimal(&mut out, s.nf_served as u64);
    push_text(&mut out, " sender_fails=");
    push_decimal(&mut out, s.sender_fails as u64);
    push_text(&mut out, " latency=");
    push_decimal(&mut out, s.latency_ms as u64);
    push_text(&mut out, "ms path=");
    push_text(&mut out, path);
    push_text(&mut out, " downloaded_bytes=");
    push_decimal(&mut out, s.downloaded_bytes);
    push_text(&mut out, " uploaded_bytes=");
    push_decimal(&mut out, s.uploaded_bytes);
    push_inventory(&mut out, inventory, now);
    out
}

fn push_inventory(out: &mut Vec<char>, inventory: Option<&Inventory>, now: u128)
    ensures
        final(out)@ == old(out)@ + inventory_words(
            match inventory {
                Some(i) => Some(*i),
                None => None,
            },
            now,
        ),
{
    let ghost start = out@;
    if let Some(i) = inventory {
        if crate::peers::counts(i.observed_at, now) {
            push_text(out, " newest=");
            push_decimal(out, i.availability.newest);
            push_text(out, " mask=");
            push_hex(out, i.availability.mask as u64, 4);
        }
    }
    proof {
        assert(out@ =~= start + inventory_words(
            match inventory {
                Some(i) => Some(*i),
                None => None,
            },
            now,
        ));
    }
}

/// The line of the node itself.
pub open spec fn node_line(v: NodeView, now: u128) -> Seq<char> {
    "node "@ + v.name + " uptime="@ + decimal(uptime(v, now) as int) + " downloaded="@ + decimal(
        v.totals.downloaded_total as int,
    )
}

/// The line of the fault injector.
pub open spec fn fault_line(s: FaultStats) -> Seq<char> {
    "fault dropped="@ + decimal(s.dropped as int) + " emitted="@ + decimal(s.emitted as int)
}

/// The lines of the peers from best to worst.
pub open spec fn peer_lines(v: NodeView, now: u128) -> Seq<Seq<char>> {
    ranking(v.peer_stats).map_values(
        |e: Ranked|
            peer_line(
                e.1,
                e.0,
                path_word(v, e.0, now),
                inventory_words(lookup(v.inventories, e.0), now),
            ),
    )
}

/// The statistics as lines: the node, its peers from best to worst, and what
/// the fault injector did.
pub open spec fn lines_of(v: NodeView, now: u128) -> Seq<Seq<char>> {
    let all = seq![node_line(v, now)] + peer_lines(v, now);
    if v.fault.enabled() {
        all.push(fault_line(v.fault.stats))
    } else {
        all
    }
}

/// What a node's directory and process tell.
#[derive(Clone, Copy, Debug, PartialEq, Eq, Structural)]
pub struct StoreInfo {
    pub store_bytes: u64,
    pub store_segments: u64,
    pub edge_segment: u64,
    pub local_newest: u64,
    pub rss_bytes: u64,
}

/// How many segments a node is behind the live edge.
pub open spec fn catch_up(s: StoreInfo) -> u64 {
    if s.edge_segment >= s.local_newest {
        (s.edge_segment - s.local_newest) as u64
    } else {
        0
    }
}

/// A peer as a JSON object.
pub open spec fn peer_json(e: Ranked) -> Seq<char> {
    let s = e.1;
    "{\"name\":\""@ + escaped(s.name) + "\",\"addr\":\""@ + endpoint_text(e.0) + "\",\"score\":"@
        + decimal(s.score as int) + ",\"pulls\":"@ + decimal(s.pulls as int) + ",\"nf_pulls\":"@
        + decimal(s.nf_pulls as int) + ",\"timeouts\":"@ + decimal(s.timeouts as int)
        + ",\"served\":"@ + decimal(s.served as int) + ",\"nf_served\":"@ + decimal(
        s.nf_served as int,
    ) + ",\"latency_ms\":"@ + decimal(s.latency_ms as int) + ",\"downloaded_bytes\":"@ + decimal(
        s.downloaded_bytes as int,
    ) + ",\"uploaded_bytes\":"@ + decimal(s.uploaded_bytes as int) + "}"@
}

pub(crate) fn peer_json_of(addr: Endpoint, s: &PeerStat) -> (r: Vec<char>)
    ensures
        r@ == peer_json((addr, s@)),
{
    let mut out = chars_of("{\"name\":\"");
    push_name(&mut out, s.name.as_str());
    push_text(&mut out, "\",\"addr\":\"");
    push_endpoint(&mut out, addr);
    push_text(&mut out, "\",\"score\":");
    push_decimal(&mut out, s.score as u64);
    push_text(&mut out, ",\"pulls\":");
    push_decimal(&mut out, s.pulls as u64);
    push_text(&mut out, ",\"nf_pulls\":");
    push_decimal(&mut out, s.nf_pulls as u64);
    push_text(&mut out, ",\"timeouts\":");
    push_decimal(&mut out, s.timeouts as u64);
    push_text(&mut out, ",\"served\":");
    push_decimal(&mut out, s.served as u64);
    push_text(&mut out, ",\"nf_served\":");
    push_decimal(&mut out, s.nf_served as u64);
    push_text(&mut out, ",\"latency_ms\":");
    push_decimal(&mut out, s.latency_ms as u64);
    push_text(&mut out, ",\"downloaded_bytes\":");
    push_decimal(&mut out, s.downloaded_bytes);
    push_text(&mut out, ",\"uploaded_bytes\":");
    push_decimal(&mut out, s.uploaded_bytes);
    push_text(&mut out, "}");
    out
}

/// Peers as JSON objects with commas between them.
pub open spec fn peers_json(r: Seq<Ranked>) -> Seq<char>
    decreases r.len(),
{
    if r.len() == 0 {
        Seq::empty()
    } else if r.len() == 1 {
        peer_json(r[0])
    } else {
        peers_json(r.drop_last()) + ","@ + peer_json(r.last())
    }
}

/// An endpoint as a JSON value.
pub open spec fn endpoint_json(e: Option<Endpoint>) -> Seq<char> {
    match e {
        Some(e) => "\""@ + endpoint_text(e) + "\""@,
        None => "null"@,
    }
}

/// The fault injector as a JSON member.
pub open spec fn fault_json(v: NodeView) -> Seq<char> {
    if v.fault.enabled() {
        "\"fault\":{\"dropped\":"@ + decimal(v.fault.stats.dropped as int) + ",\"emitted\":"@
            + decimal(v.fault.stats.emitted as int) + "}"@
    } else {
        "\"fault\":null"@
    }
}

/// The first half of the JSON document: who the node is and whom it knows.
pub open spec fn json_head(v: NodeView, version: Seq<char>, now: u128) -> Seq<char> {
    "{\"version\":\""@ + version + "\",\"node\":\""@ + escaped(v.name) + "\",\"role\":\""@
        + role_text(v.role) + "\",\"uptime_secs\":"@ + decimal(uptime(v, now) as int)
        + ",\"peers_in_swarm\":"@ + decimal(v.peers.len() as int) + ",\"public_endpoint\":"@
        + endpoint_json(v.my_public) + ",\"peers\":["@ + peers_json(ranking(v.peer_stats)) + "]"@
}

/// The second half of the JSON document: counters.
pub open spec fn json_tail(v: NodeView, store: StoreInfo) -> Seq<char> {
    let t = v.totals;
    ",\"downloaded\":{\"segments\":"@ + decimal(t.downloaded_total as int) + ",\"bytes\":"@
        + decimal(t.downloaded_bytes as int) + "},\"uploaded\":{\"segments\":"@ + decimal(
        t.served_total as int,
    ) + ",\"bytes\":"@ + decimal(t.served_bytes as int) + "},\"store_bytes\":"@ + decimal(
        store.store_bytes as int,
    ) + ",\"store_segments\":"@ + decimal(store.store_segments as int) + ",\"edge_segment\":"@
        + decimal(store.edge_segment as int) + ",\"local_newest\":"@ + decimal(
        store.local_newest as int,
    ) + ",\"catch_up\":"@ + decimal(catch_up(store) as int) + ",\"active_transfers\":"@ + decimal(
        v.registry.active() as int,
    ) + ",\"queue_depth\":"@ + decimal(t.queue_depth as int) + ",\"inflight\":"@ + decimal(
        t.inflight as int,
    ) + ",\"origin_seeds\":{\"assigned\":"@ + decimal(t.seeds_assigned as int) + ",\"denied\":"@
        + decimal(t.seeds_denied as int) + "},"@ + fault_json(v) + ",\"rss_bytes\":"@ + decimal(
        store.rss_bytes as int,
    ) + "}"@
}

/// The JSON document.
pub open spec fn json_of(v: NodeView, version: Seq<char>, store: StoreInfo, now: u128) -> Seq<char> {
    json_head(v, version, now) + json_tail(v, store)
}

/// The metrics and what they mean: name, help and type.
pub open spec fn definitions() -> Seq<(Seq<char>, Seq<char>, Seq<char>)> {
    seq![
        ("qstream_uptime_seconds"@, "Seconds since node start."@, "gauge"@),
        (
            "qstream_peers_in_swarm"@,
            "Number of peers currently known to this node."@,
            "gauge"@,
        ),
        (
            "qstream_downloaded_segments_total"@,
            "Segments fully downloaded by this node."@,
            "counter"@,
        ),
        ("qstream_downloaded_bytes_total"@, "Bytes fully downloaded by this node."@, "counter"@),
        ("qstream_uploaded_segments_total"@, "Segments served to other nodes."@, "counter"@),
        ("qstream_uploaded_bytes_total"@, "Bytes served to other nodes."@, "counter"@),
        ("qstream_store_segments"@, "Segments currently in the local store."@, "gauge"@),
        ("qstream_store_bytes"@, "Bytes currently in the local store."@, "gauge"@),
        ("qstream_edge_segment"@, "Newest segment number in the synced manifest."@, "gauge"@),
        ("qstream_local_newest"@, "Newest segment number in the local store."@, "gauge"@),
        ("qstream_catch_up"@, "Segments behind the live edge (0 = caught up)."@, "gauge"@),
        ("qstream_active_transfers"@, "In-flight senders + receivers."@, "gauge"@),
        ("qstream_queue_depth"@, "Pending segment pulls in the queue."@, "gauge"@),
        ("qstream_inflight"@, "Active pull jobs."@, "gauge"@),
        ("qstream_origin_seeds_assigned_total"@, "Origin seed leases granted."@, "counter"@),
        ("qstream_origin_seeds_denied_total"@, "Origin seed requests put off."@, "counter"@),
        ("qstream_rss_bytes"@, "Resident memory of this process."@, "gauge"@),
        ("qstream_fault_dropped_total"@, "Datagrams dropped by fault injection."@, "counter"@),
        ("qstream_fault_emitted_total"@, "Datagrams emitted by fault injection."@, "counter"@),
        ("qstream_peer_score"@, "Quality score 0-100 for a known peer."@, "gauge"@),
        ("qstream_peer_pulls_total"@, "Successful pulls from a peer."@, "counter"@),
        ("qstream_peer_nf_pulls_total"@, "NOT_FOUND responses from a peer."@, "counter"@),
        ("qstream_peer_timeouts_total"@, "No-response failures from a peer."@, "counter"@),
        ("qstream_peer_served_total"@, "Segments served to a peer."@, "counter"@),
        ("qstream_peer_latency_ms"@, "EWMA first-packet latency to a peer."@, "gauge"@),
        ("qstream_peer_downloaded_bytes_total"@, "Bytes downloaded from a peer."@, "counter"@),
        ("qstream_peer_uploaded_bytes_total"@, "Bytes uploaded to a peer."@, "counter"@),
    ]
}

/// The lines that explain a metric.
pub open spec fn definition_lines(d: (Seq<char>, Seq<char>, Seq<char>)) -> Seq<char> {
    "# HELP "@ + d.0 + " "@ + d.1 + "\n# TYPE "@ + d.0 + " "@ + d.2 + "\n"@
}

/// The lines that explain the first `n` metrics.
pub open spec fn metrics_head(n: int) -> Seq<char>
    decreases n,
{
    if n <= 0 {
        Seq::empty()
    } else {
        metrics_head(n - 1) + definition_lines(definitions()[n - 1])
    }
}

/// The line of a sample.
pub open spec fn sample(name: Seq<char>, labels: Seq<char>, value: u64) -> Seq<char> {
    name + labels + " "@ + decimal(value as int) + "\n"@
}

/// The lines of several samples with the same labels.
pub open spec fn samples(list: Seq<(Seq<char>, u64)>, labels: Seq<char>) -> Seq<char>
    decreases list.len(),
{
    if list.len() == 0 {
        Seq::empty()
    } else {
        samples(list.drop_last(), labels) + sample(list.last().0, labels, list.last().1)
    }
}

/// The samples of the node.
pub open spec fn node_samples(v: NodeView, store: StoreInfo, now: u128) -> Seq<(Seq<char>, u64)> {
    let t = v.totals;
    let all = seq![
        ("qstream_uptime_seconds"@, uptime(v, now)),
        ("qstream_peers_in_swarm"@, v.peers.len() as u64),
        ("qstream_downloaded_segments_total"@, t.downloaded_total),
        ("qstream_downloaded_bytes_total"@, t.downloaded_bytes),
        ("qstream_uploaded_segments_total"@, t.served_total),
        ("qstream_uploaded_bytes_total"@, t.served_bytes),
        ("qstream_store_segments"@, store.store_segments),
        ("qstream_store_bytes"@, store.store_bytes),
        ("qstream_edge_segment"@, store.edge_segment),
        ("qstream_local_newest"@, store.local_newest),
        ("qstream_catch_up"@, catch_up(store)),
        ("qstream_active_transfers"@, v.registry.active() as u64),
        ("qstream_queue_depth"@, t.queue_depth),
        ("qstream_inflight"@, t.inflight),
        ("qstream_origin_seeds_assigned_total"@, t.seeds_assigned),
        ("qstream_origin_seeds_denied_total"@, t.seeds_denied),
        ("qstream_rss_bytes"@, store.rss_bytes),
    ];
    if v.fault.enabled() {
        all.push(("qstream_fault_dropped_total"@, v.fault.stats.dropped)).push(
            ("qstream_fault_emitted_total"@, v.fault.stats.emitted),
        )
    } else {
        all
    }
}

/// The samples of a peer.
pub open spec fn peer_samples(s: PeerStatView) -> Seq<(Seq<char>, u64)> {
    seq![
        ("qstream_peer_score"@, s.score as u64),
        ("qstream_peer_pulls_total"@, s.pulls as u64),
        ("qstream_peer_nf_pulls_total"@, s.nf_pulls as u64),
        ("qstream_peer_timeouts_total"@, s.timeouts as u64),
        ("qstream_peer_served_total"@, s.served as u64),
        ("qstream_peer_latency_ms"@, s.latency_ms as u64),
        ("qstream_peer_downloaded_bytes_total"@, s.downloaded_bytes),
        ("qstream_peer_uploaded_bytes_total"@, s.uploaded_bytes),
    ]
}

/// The label of the node.
pub open spec fn node_label(name: Seq<char>) -> Seq<char> {
    "{node=\""@ + escaped(name) + "\"}"@
}

/// The labels of a peer.
pub open spec fn peer_label(name: Seq<char>, peer: Seq<char>) -> Seq<char> {
    "{node=\""@ + escaped(name) + "\",peer=\""@ + escaped(peer) + "\"}"@
}

/// The lines of the peers' samples, from best to worst.
pub open spec fn peers_metrics(name: Seq<char>, r: Seq<Ranked>) -> Seq<char>
    decreases r.len(),
{
    if r.len() == 0 {
        Seq::empty()
    } else {
        peers_metrics(name, r.drop_last()) + samples(
            peer_samples(r.last().1),
            peer_label(name, r.last().1.name),
        )
    }
}

/// The metrics document.
pub open spec fn metrics_of(v: NodeView, store: StoreInfo, now: u128) -> Seq<char> {
    metrics_head(definitions().len() as int) + samples(
        node_samples(v, store, now),
        node_label(v.name),
    ) + peers_metrics(v.name, ranking(v.peer_stats))
}

/// The models of a list of samples.
pub open spec fn named(v: Seq<(&str, u64)>) -> Seq<(Seq<char>, u64)> {
    v.map_values(|e: (&str, u64)| (e.0@, e.1))
}

pub(crate) fn push_samples(out: &mut Vec<char>, list: &[(&str, u64)], labels: &[char])
    ensures
        final(out)@ == old(out)@ + samples(named(list@), labels@),
{
    let ghost start = out@;
    let ghost all = named(list@);
    let mut i: usize = 0;
    proof {
        assert(start + samples(all.take(0), labels@) =~= start);
    }
    while i < list.len()
        invariant
            i <= list@.len(),
            all == named(list@),
            out@ == start + samples(all.take(i as int), labels@),
        decreases list@.len() - i,
    {
        let ghost before = out@;
        proof {
            assert(all.take(i + 1).drop_last() =~= all.take(i as int));
            assert(all.take(i + 1).last() == (list@[i as int].0@, list@[i as int].1));
        }
        push_text(out, list[i].0);
        push_chars(out, labels);
        push_text(out, " ");
        push_decimal(out, list[i].1);
        push_text(out, "\n");
        proof {
            assert(out@ =~= before + sample(list@[i as int].0@, labels@, list@[i as int].1));
            assert(out@ =~= start + samples(all.take(i + 1), labels@));
        }
        i = i + 1;
    }
    proof {
        assert(all.take(i as int) =~= all);
    }
}

fn push_definition(out: &mut Vec<char>, name: &str, help: &str, ty: &str)
    ensures
        final(out)@ == old(out)@ + definition_lines((name@, help@, ty@)),
{
    let ghost start = out@;
    push_text(out, "# HELP ");
    push_text(out, name);
    push_text(out, " ");
    push_text(out, help);
    push_text(out, "\n# TYPE ");
    push_text(out, name);
    push_text(out, " ");
    push_text(out, ty);
    push_text(out, "\n");
    proof {
        assert(out@ =~= start + definition_lines((name@, help@, ty@)));
    }
}

pub(crate) fn push_metrics_head(out: &mut Vec<char>)
    ensures
        final(out)@ == old(out)@ + metrics_head(definitions().len() as int),
{
    let ghost start = out@;
    let defs: Vec<(&str, &str, &str)> = vec![
        ("qstream_uptime_seconds", "Seconds since node start.", "gauge"),
        (
            "qstream_peers_in_swarm",
            "Number of peers currently known to this node.",
            "gauge",
        ),
        (
            "qstream_downloaded_segments_total",
            "Segments fully downloaded by this node.",
            "counter",
        ),
        ("qstream_downloaded_bytes_total", "Bytes fully downloaded by this node.", "counter"),
        ("qstream_uploaded_segments_total", "Segments served to other nodes.", "counter"),
        ("qstream_uploaded_bytes_total", "Bytes served to other nodes.", "counter"),
        ("qstream_store_segments", "Segments currently in the local store.", "gauge"),
        ("qstream_store_bytes", "Bytes currently in the local store.", "gauge"),
        ("qstream_edge_segment", "Newest segment number in the synced manifest.", "gauge"),
        ("qstream_local_newest", "Newest segment number in the local store.", "gauge"),
        ("qstream_catch_up", "Segments behind the live edge (0 = caught up).", "gauge"),
        ("qstream_active_transfers", "In-flight senders + receivers.", "gauge"),
        ("qstream_queue_depth", "Pending segment pulls in the queue.", "gauge"),
        ("qstream_inflight", "Active pull jobs.", "gauge"),
        ("qstream_origin_seeds_assigned_total", "Origin seed leases granted.", "counter"),
        ("qstream_origin_seeds_denied_total", "Origin seed requests put off.", "counter"),
        ("qstream_rss_bytes", "Resident memory of this process.", "gauge"),
        ("qstream_fault_dropped_total", "Datagrams dropped by fault injection.", "counter"),
        ("qstream_fault_emitted_total", "Datagrams emitted by fault injection.", "counter"),
        ("qstream_peer_score", "Quality score 0-100 for a known peer.", "gauge"),
        ("qstream_peer_pulls_total", "Successful pulls from a peer.", "counter"),
        ("qstream_peer_nf_pulls_total", "NOT_FOUND responses from a peer.", "counter"),
        ("qstream_peer_timeouts_total", "No-response failures from a peer.", "counter"),
        ("qstream_peer_served_total", "Segments served to a peer.", "counter"),
        ("qstream_peer_latency_ms", "EWMA first-packet latency to a peer.", "gauge"),
        ("qstream_peer_downloaded_bytes_total", "Bytes downloaded from a peer.", "counter"),
        ("qstream_peer_uploaded_bytes_total", "Bytes uploaded to a peer.", "counter"),
    ];
    let ghost all = definitions();
    proof {
        assert(defs@.len() == all.len());
        assert forall|j: int| 0 <= j < all.len() implies #[trigger] all[j] == (
            defs@[j].0@,
            defs@[j].1@,
            defs@[j].2@,
        ) by {}
        assert(start + metrics_head(0) =~= start);
    }
    let mut i: usize = 0;
    while i < defs.len()
        invariant
            i <= defs@.len(),
            all == definitions(),
            defs@.len() == all.len(),
            forall|j: int|
                0 <= j < all.len() ==> #[trigger] all[j] == (
                    defs@[j].0@,
                    defs@[j].1@,
                    defs@[j].2@,
                ),
            out@ == start + metrics_head(i as int),
        decreases defs@.len() - i,
    {
        let ghost before = out@;
        push_definition(out, defs[i].0, defs[i].1, defs[i].2);
        proof {
            assert(definitions()[i as int] == (
                defs@[i as int].0@,
                defs@[i as int].1@,
                defs@[i as int].2@,
            ));
            assert(out@ =~= start + metrics_head(i + 1));
        }
        i = i + 1;
    }
}

pub(crate) fn label_of(name: &str) -> (r: Vec<char>)
    ensures
        r@ == node_label(name@),
{
    let mut r: Vec<char> = Vec::new();
    push_text(&mut r, "{node=\"");
    push_escaped(&mut r, &chars_of(name));
    push_text(&mut r, "\"}");
    proof {
        assert(r@ =~= node_label(name@));
    }
    r
}

fn peer_label_of(name: &str, peer: &str) -> (r: Vec<char>)
    ensures
        r@ == peer_label(name@, peer@),
{
    let mut r: Vec<char> = Vec::new();
    push_text(&mut r, "{node=\"");
    push_escaped(&mut r, &chars_of(name));
    push_text(&mut r, "\",peer=\"");
    push_escaped(&mut r, &chars_of(peer));
    push_text(&mut r, "\"}");
    proof {
        assert(r@ =~= peer_label(name@, peer@));
    }
    r
}

pub(crate) fn push_peer_samples(out: &mut Vec<char>, name: &str, s: &PeerStat)
    ensures
        final(out)@ == old(out)@ + samples(peer_samples(s@), peer_label(name@, s@.name)),
{
    let list: Vec<(&str, u64)> = vec![
        ("qstream_peer_score", s.score as u64),
        ("qstream_peer_pulls_total", s.pulls as u64),
        ("qstream_peer_nf_pulls_total", s.nf_pulls as u64),
        ("qstream_peer_timeouts_total", s.timeouts as u64),
        ("qstream_peer_served_total", s.served as u64),
        ("qstream_peer_latency_ms", s.latency_ms as u64),
        ("qstream_peer_downloaded_bytes_total", s.downloaded_bytes),
        ("qstream_peer_uploaded_bytes_total", s.uploaded_bytes),
    ];
    proof {
        assert(named(list@) =~= peer_samples(s@));
    }
    let labels = peer_label_of(name, s.name.as_str());
    push_samples(out, list.as_slice(), &labels);
}

pub(crate) fn json_tail_of(
    t: &Totals,
    active: u64,
    fault: Option<FaultStats>,
    store: &StoreInfo,
    Ghost(v): Ghost<NodeView>,
) -> (r: Vec<char>)
    requires
        *t == v.totals,
        active == v.registry.active(),
        fault == if v.fault.enabled() {
            Some(v.fault.stats)
        } else {
            None
        },
    ensures
        r@ == json_tail(v, *store),
{
    let mut out = chars_of(",\"downloaded\":{\"segments\":");
    push_decimal(&mut out, t.downloaded_total);
    push_text(&mut out, ",\"bytes\":");
    push_decimal(&mut out, t.downloaded_bytes);
    push_text(&mut out, "},\"uploaded\":{\"segments\":");
    push_decimal(&mut out, t.served_total);
    push_text(&mut out, ",\"bytes\":");
    push_decimal(&mut out, t.served_bytes);
    push_text(&mut out, "},\"store_bytes\":");
    push_decimal(&mut out, store.store_bytes);
    push_text(&mut out, ",\"store_segments\":");
    push_decimal(&mut out, store.store_segments);
    push_text(&mut out, ",\"edge_segment\":");
    push_decimal(&mut out, store.edge_segment);
    push_text(&mut out, ",\"local_newest\":");
    push_decimal(&mut out, store.local_newest);
    push_text(&mut out, ",\"catch_up\":");
    push_decimal(&mut out, behind(store));
    push_text(&mut out, ",\"active_transfers\":");
    push_decimal(&mut out, active);
    push_text(&mut out, ",\"queue_depth\":");
    push_decimal(&mut out, t.queue_depth);
    push_text(&mut out, ",\"inflight\":");
    push_decimal(&mut out, t.inflight);
    push_text(&mut out, ",\"origin_seeds\":{\"assigned\":");
    push_decimal(&mut out, t.seeds_assigned);
    push_text(&mut out, ",\"denied\":");
    push_decimal(&mut out, t.seeds_denied);
    push_text(&mut out, "},");
    push_fault_json(&mut out, fault);
    push_text(&mut out, ",\"rss_bytes\":");
    push_decimal(&mut out, store.rss_bytes);
    push_text(&mut out, "}");
    out
}

fn push_fault_json(out: &mut Vec<char>, fault: Option<FaultStats>)
    ensures
        final(out)@ == old(out)@ + match fault {
            Some(s) => "\"fault\":{\"dropped\":"@ + decimal(s.dropped as int) + ",\"emitted\":"@
                + decimal(s.emitted as int) + "}"@,
            None => "\"fault\":null"@,
        },
{
    let ghost start = out@;
    match fault {
        Some(s) => {
            push_text(out, "\"fault\":{\"dropped\":");
            push_decimal(out, s.dropped);
            push_text(out, ",\"emitted\":");
            push_decimal(out, s.emitted);
            push_text(out, "}");
        },
        None => {
            push_text(out, "\"fault\":null");
        },
    }
    proof {
        assert(out@ =~= start + match fault {
            Some(s) => "\"fault\":{\"dropped\":"@ + decimal(s.dropped as int) + ",\"emitted\":"@
                + decimal(s.emitted as int) + "}"@,
            None => "\"fault\":null"@,
        });
    }
}

pub(crate) fn push_endpoint_json(out: &mut Vec<char>, e: Option<Endpoint>)
    ensures
        final(out)@ == old(out)@ + endpoint_json(e),
{
    let ghost start = out@;
    match e {
        Some(e) => {
            push_text(out, "\"");
            push_endpoint(out, e);
            push_text(out, "\"");
        },
        None => {
            push_text(out, "null");
        },
    }
    proof {
        assert(out@ =~= start + endpoint_json(e));
    }
}

pub(crate) fn push_role(out: &mut Vec<char>, role: Role)
    ensures
        final(out)@ == old(out)@ + role_text(role),
{
    match role {
        Role::Master => push_text(out, "master"),
        Role::Peer => push_text(out, "peer"),
    }
}

pub(crate) fn push_name(out: &mut Vec<char>, name: &str)
    ensures
        final(out)@ == old(out)@ + escaped(name@),
{
    push_escaped(out, &chars_of(name));
}

/// How many segments a node is behind the live edge.
pub fn behind(store: &StoreInfo) -> (n: u64)
    ensures
        n == catch_up(*store),
{
    store.edge_segment.saturating_sub(store.local_newest)
}

/// A peer in the log of the ranking.
pub open spec fn rank_words(s: PeerStatView) -> Seq<char> {
    s.name + " "@ + decimal(s.score as int) + " (pull "@ + decimal(s.pulls as int) + "/"@ + decimal(
        s.nf_pulls as int,
    ) + "/"@ + decimal(s.timeouts as int) + "/"@ + decimal(s.other_fails as int) + " served "@
        + decimal(s.served as int) + "/"@ + decimal(s.nf_served as int) + "/"@ + decimal(
        s.sender_fails as int,
    ) + ")"@
}

/// Peers in the log of the ranking.
pub open spec fn ranks_text(r: Seq<Ranked>) -> Seq<char>
    decreases r.len(),
{
    if r.len() == 0 {
        Seq::empty()
    } else if r.len() == 1 {
        rank_words(r[0].1)
    } else {
        ranks_text(r.drop_last()) + ", "@ + rank_words(r.last().1)
    }
}

pub(crate) fn rank_words_of(s: &PeerStat) -> (r: Vec<char>)
    ensures
        r@ == rank_words(s@),
{
    let mut out = chars_of(s.name.as_str());
    push_text(&mut out, " ");
    push_decimal(&mut out, s.score as u64);
    push_text(&mut out, " (pull ");
    push_decimal(&mut out, s.pulls as u64);
    push_text(&mut out, "/");
    push_decimal(&mut out, s.nf_pulls as u64);
    push_text(&mut out, "/");
    push_decimal(&mut out, s.timeouts as u64);
    push_text(&mut out, "/");
    push_decimal(&mut out, s.other_fails as u64);
    push_text(&mut out, " served ");
    push_decimal(&mut out, s.served as u64);
    push_text(&mut out, "/");
    push_decimal(&mut out, s.nf_served as u64);
    push_text(&mut out, "/");
    push_decimal(&mut out, s.sender_fails as u64);
    push_text(&mut out, ")");
    out
}

} // verus!
