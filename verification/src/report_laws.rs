//! What holds of the statistics that a node reports.
use vstd::prelude::*;
use crate::endpoint::{endpoint_text, Endpoint};
use crate::node::{NodeView, Role};
use crate::peers::{ranking, ranking_is_ranked, PeerStatView, Ranked};
use crate::stats::{
    catch_up, escaped, fault_json, json_head, json_of, json_tail, lines_of, metrics_of, node_label,
    node_samples, path_word, peer_json, peer_label, peer_line, peer_samples, peers_json,
    peers_metrics, rank_words, ranks_text, sample, samples, uptime, StoreInfo,
};
use crate::text::decimal;


verus! {

/// Whether a text holds a part without a break.
pub open spec fn says(text: Seq<char>, part: Seq<char>) -> bool {
    exists|i: int| #[trigger] is_at(text, part, i)
}

/// Whether a part stands in a text from position `i` on.
pub open spec fn is_at(text: Seq<char>, part: Seq<char>, i: int) -> bool {
    0 <= i && i + part.len() <= text.len() && text.subrange(i, i + part.len()) == part
}

pub(crate) proof fn says_on(a: Seq<char>, b: Seq<char>)
    ensures
        forall|part: Seq<char>| says(a, part) ==> #[trigger] says(a + b, part),
{
    assert forall|part: Seq<char>| says(a, part) implies #[trigger] says(a + b, part) by {
        let i = choose|i: int| #[trigger] is_at(a, part, i);
        assert((a + b).subrange(i, i + part.len()) =~= a.subrange(i, i + part.len()));
        assert(is_at(a + b, part, i));
    }
}

proof fn says_behind(a: Seq<char>, b: Seq<char>)
    ensures
        forall|part: Seq<char>| says(b, part) ==> #[trigger] says(a + b, part),
{
    assert forall|part: Seq<char>| says(b, part) implies #[trigger] says(a + b, part) by {
        let i = choose|i: int| #[trigger] is_at(b, part, i);
        assert((a + b).subrange(a.len() + i, a.len() + i + part.len()) =~= b.subrange(
            i,
            i + part.len(),
        ));
        assert(is_at(a + b, part, a.len() + i));
    }
}

pub(crate) proof fn says_itself(text: Seq<char>)
    ensures
        says(text, text),
{
    assert(text.subrange(0, text.len() as int) =~= text);
    assert(is_at(text, text, 0));
}

/// A key and a value at the end of a text.
pub(crate) proof fn says_last(text: Seq<char>, key: Seq<char>, value: Seq<char>)
    ensures
        says(text + key + value, key + value),
{
    let all = text + key + value;
    let n = text.len() as int;
    assert(all.subrange(n, n + (key + value).len()) =~= key + value);
    assert(is_at(all, key + value, n));
}

/// Two keys and their values at the end of a text.
proof fn says_last_two(
    text: Seq<char>,
    key: Seq<char>,
    value: Seq<char>,
    other: Seq<char>,
    more: Seq<char>,
)
    ensures
        says(text + key + value + other + more, key + value + other + more),
{
    let all = text + key + value + other + more;
    let part = key + value + other + more;
    let n = text.len() as int;
    assert(all.subrange(n, n + part.len()) =~= part);
    assert(is_at(all, part, n));
}

/// The line of a peer says under its name and address everything that is counted
/// of it, each under its own word.
pub proof fn peer_lines_say_what_is_counted(s: PeerStatView, addr: Endpoint, path: Seq<char>, inventory: Seq<char>)
    ensures
        ({
            let text = peer_line(s, addr, path, inventory);
            &&& says(text, "peer "@ + s.name)
            &&& says(text, " "@ + endpoint_text(addr))
            &&& says(text, " score="@ + decimal(s.score as int))
            &&& says(text, " pulls="@ + decimal(s.pulls as int))
            &&& says(text, " nf_pulls="@ + decimal(s.nf_pulls as int))
            &&& says(text, " timeouts="@ + decimal(s.timeouts as int))
            &&& says(text, " other_fails="@ + decimal(s.other_fails as int))
            &&& says(text, " served="@ + decimal(s.served as int))
            &&& says(text, " nf_served="@ + decimal(s.nf_served as int))
            &&& says(text, " sender_fails="@ + decimal(s.sender_fails as int))
            &&& says(text, " latency="@ + decimal(s.latency_ms as int))
            &&& says(text, "ms path="@ + path)
            &&& says(text, " downloaded_bytes="@ + decimal(s.downloaded_bytes as int))
            &&& says(text, " uploaded_bytes="@ + decimal(s.uploaded_bytes as int))
        }),
{
    let t0 = "peer "@;
    let t1 = t0 + s.name;
    says_itself(t1);
    says_on(t0, s.name);
    let t2 = t1 + " "@;
    says_on(t1, " "@);
    let t3 = t2 + endpoint_text(addr);
    says_last(t1, " "@, endpoint_text(addr));
    says_on(t2, endpoint_text(addr));
    let t4 = t3 + " score="@;
    says_on(t3, " score="@);
    let t5 = t4 + decimal(s.score as int);
    says_last(t3, " score="@, decimal(s.score as int));
    says_on(t4, decimal(s.score as int));
    let t6 = t5 + " pulls="@;
    says_on(t5, " pulls="@);
    let t7 = t6 + decimal(s.pulls as int);
    says_last(t5, " pulls="@, decimal(s.pulls as int));
    says_on(t6, decimal(s.pulls as int));
    let t8 = t7 + " nf_pulls="@;
    says_on(t7, " nf_pulls="@);
    let t9 = t8 + decimal(s.nf_pulls as int);
    says_last(t7, " nf_pulls="@, decimal(s.nf_pulls as int));
    says_on(t8, decimal(s.nf_pulls as int));
    let t10 = t9 + " timeouts="@;
    says_on(t9, " timeouts="@);
    let t11 = t10 + decimal(s.timeouts as int);
    says_last(t9, " timeouts="@, decimal(s.timeouts as int));
    says_on(t10, decimal(s.timeouts as int));
    let t12 = t11 + " other_fails="@;
    says_on(t11, " other_fails="@);
    let t13 = t12 + decimal(s.other_fails as int);
    says_last(t11, " other_fails="@, decimal(s.other_fails as int));
    says_on(t12, decimal(s.other_fails as int));
    let t14 = t13 + " served="@;
    says_on(t13, " served="@);
    let t15 = t14 + decimal(s.served as int);
    says_last(t13, " served="@, decimal(s.served as int));
    says_on(t14, decimal(s.served as int));
    let t16 = t15 + " nf_served="@;
    says_on(t15, " nf_served="@);
    let t17 = t16 + decimal(s.nf_served as int);
    says_last(t15, " nf_served="@, decimal(s.nf_served as int));
    says_on(t16, decimal(s.nf_served as int));
    let t18 = t17 + " sender_fails="@;
    says_on(t17, " sender_fails="@);
    let t19 = t18 + decimal(s.sender_fails as int);
    says_last(t17, " sender_fails="@, decimal(s.sender_fails as int));
    says_on(t18, decimal(s.sender_fails as int));
    let t20 = t19 + " latency="@;
    says_on(t19, " latency="@);
    let t21 = t20 + decimal(s.latency_ms as int);
    says_last(t19, " latency="@, decimal(s.latency_ms as int));
    says_on(t20, decimal(s.latency_ms as int));
    let t22 = t21 + "ms path="@;
    says_on(t21, "ms path="@);
    let t23 = t22 + path;
    says_last(t21, "ms path="@, path);
    says_on(t22, path);
    let t24 = t23 + " downloaded_bytes="@;
    says_on(t23, " downloaded_bytes="@);
    let t25 = t24 + decimal(s.downloaded_bytes as int);
    says_last(t23, " downloaded_bytes="@, decimal(s.downloaded_bytes as int));
    says_on(t24, decimal(s.downloaded_bytes as int));
    let t26 = t25 + " uploaded_bytes="@;
    says_on(t25, " uploaded_bytes="@);
    let t27 = t26 + decimal(s.uploaded_bytes as int);
    says_last(t25, " uploaded_bytes="@, decimal(s.uploaded_bytes as int));
    says_on(t26, decimal(s.uploaded_bytes as int));
    let t28 = t27 + inventory;
    says_on(t27, inventory);
    assert(peer_line(s, addr, path, inventory) == t28);
}

/// The JSON object of a peer says what is counted of it, each under its own key.
pub proof fn peer_objects_say_what_is_counted(e: Ranked)
    ensures
        ({
            let text = peer_json(e);
            &&& says(text, "{\"name\":\""@ + escaped(e.1.name))
            &&& says(text, "\",\"addr\":\""@ + endpoint_text(e.0))
            &&& says(text, "\",\"score\":"@ + decimal(e.1.score as int))
            &&& says(text, ",\"pulls\":"@ + decimal(e.1.pulls as int))
            &&& says(text, ",\"nf_pulls\":"@ + decimal(e.1.nf_pulls as int))
            &&& says(text, ",\"timeouts\":"@ + decimal(e.1.timeouts as int))
            &&& says(text, ",\"served\":"@ + decimal(e.1.served as int))
            &&& says(text, ",\"nf_served\":"@ + decimal(e.1.nf_served as int))
            &&& says(text, ",\"latency_ms\":"@ + decimal(e.1.latency_ms as int))
            &&& says(text, ",\"downloaded_bytes\":"@ + decimal(e.1.downloaded_bytes as int))
            &&& says(text, ",\"uploaded_bytes\":"@ + decimal(e.1.uploaded_bytes as int))
        }),
{
    let t0 = "{\"name\":\""@;
    let t1 = t0 + escaped(e.1.name);
    says_itself(t1);
    says_on(t0, escaped(e.1.name));
    let t2 = t1 + "\",\"addr\":\""@;
    says_on(t1, "\",\"addr\":\""@);
    let t3 = t2 + endpoint_text(e.0);
    says_last(t1, "\",\"addr\":\""@, endpoint_text(e.0));
    says_on(t2, endpoint_text(e.0));
    let t4 = t3 + "\",\"score\":"@;
    says_on(t3, "\",\"score\":"@);
    let t5 = t4 + decimal(e.1.score as int);
    says_last(t3, "\",\"score\":"@, decimal(e.1.score as int));
    says_on(t4, decimal(e.1.score as int));
    let t6 = t5 + ",\"pulls\":"@;
    says_on(t5, ",\"pulls\":"@);
    let t7 = t6 + decimal(e.1.pulls as int);
    says_last(t5, ",\"pulls\":"@, decimal(e.1.pulls as int));
    says_on(t6, decimal(e.1.pulls as int));
    let t8 = t7 + ",\"nf_pulls\":"@;
    says_on(t7, ",\"nf_pulls\":"@);
    let t9 = t8 + decimal(e.1.nf_pulls as int);
    says_last(t7, ",\"nf_pulls\":"@, decimal(e.1.nf_pulls as int));
    says_on(t8, decimal(e.1.nf_pulls as int));
    let t10 = t9 + ",\"timeouts\":"@;
    says_on(t9, ",\"timeouts\":"@);
    let t11 = t10 + decimal(e.1.timeouts as int);
    says_last(t9, ",\"timeouts\":"@, decimal(e.1.timeouts as int));
    says_on(t10, decimal(e.1.timeouts as int));
    let t12 = t11 + ",\"served\":"@;
    says_on(t11, ",\"served\":"@);
    let t13 = t12 + decimal(e.1.served as int);
    says_last(t11, ",\"served\":"@, decimal(e.1.served as int));
    says_on(t12, decimal(e.1.served as int));
    let t14 = t13 + ",\"nf_served\":"@;
    says_on(t13, ",\"nf_served\":"@);
    let t15 = t14 + decimal(e.1.nf_served as int);
    says_last(t13, ",\"nf_served\":"@, decimal(e.1.nf_served as int));
    says_on(t14, decimal(e.1.nf_served as int));
    let t16 = t15 + ",\"latency_ms\":"@;
    says_on(t15, ",\"latency_ms\":"@);
    let t17 = t16 + decimal(e.1.latency_ms as int);
    says_last(t15, ",\"latency_ms\":"@, decimal(e.1.latency_ms as int));
    says_on(t16, decimal(e.1.latency_ms as int));
    let t18 = t17 + ",\"downloaded_bytes\":"@;
    says_on(t17, ",\"downloaded_bytes\":"@);
    let t19 = t18 + decimal(e.1.downloaded_bytes as int);
    says_last(t17, ",\"downloaded_bytes\":"@, decimal(e.1.downloaded_bytes as int));
    says_on(t18, decimal(e.1.downloaded_bytes as int));
    let t20 = t19 + ",\"uploaded_bytes\":"@;
    says_on(t19, ",\"uploaded_bytes\":"@);
    let t21 = t20 + decimal(e.1.uploaded_bytes as int);
    says_last(t19, ",\"uploaded_bytes\":"@, decimal(e.1.uploaded_bytes as int));
    says_on(t20, decimal(e.1.uploaded_bytes as int));
    let t22 = t21 + "}"@;
    says_on(t21, "}"@);
    assert(peer_json(e) == t22);
}

/// The counters of the JSON document stand each under its own key.
pub proof fn json_counters_say_what_is_counted(v: NodeView, store: StoreInfo)
    ensures
        ({
            let text = json_tail(v, store);
            &&& says(text, ",\"downloaded\":{\"segments\":"@ + decimal(v.totals.downloaded_total as int))
            &&& says(
                text,
                ",\"downloaded\":{\"segments\":"@ + decimal(v.totals.downloaded_total as int)
                    + ",\"bytes\":"@ + decimal(v.totals.downloaded_bytes as int),
            )
            &&& says(text, "},\"uploaded\":{\"segments\":"@ + decimal(v.totals.served_total as int))
            &&& says(
                text,
                "},\"uploaded\":{\"segments\":"@ + decimal(v.totals.served_total as int)
                    + ",\"bytes\":"@ + decimal(v.totals.served_bytes as int),
            )
            &&& says(text, "},\"store_bytes\":"@ + decimal(store.store_bytes as int))
            &&& says(text, ",\"store_segments\":"@ + decimal(store.store_segments as int))
            &&& says(text, ",\"edge_segment\":"@ + decimal(store.edge_segment as int))
            &&& says(text, ",\"local_newest\":"@ + decimal(store.local_newest as int))
            &&& says(text, ",\"catch_up\":"@ + decimal(catch_up(store) as int))
            &&& says(text, ",\"active_transfers\":"@ + decimal(v.registry.active() as int))
            &&& says(text, ",\"queue_depth\":"@ + decimal(v.totals.queue_depth as int))
            &&& says(text, ",\"inflight\":"@ + decimal(v.totals.inflight as int))
            &&& says(text, ",\"origin_seeds\":{\"assigned\":"@ + decimal(v.totals.seeds_assigned as int))
            &&& says(text, ",\"denied\":"@ + decimal(v.totals.seeds_denied as int))
            &&& says(text, "},"@ + fault_json(v))
            &&& says(text, ",\"rss_bytes\":"@ + decimal(store.rss_bytes as int))
        }),
{
    let t0 = ",\"downloaded\":{\"segments\":"@;
    let t1 = t0 + decimal(v.totals.downloaded_total as int);
    says_itself(t1);
    says_on(t0, decimal(v.totals.downloaded_total as int));
    let t2 = t1 + ",\"bytes\":"@;
    says_on(t1, ",\"bytes\":"@);
    let t3 = t2 + decimal(v.totals.downloaded_bytes as int);
    says_last(t1, ",\"bytes\":"@, decimal(v.totals.downloaded_bytes as int));
    says_on(t2, decimal(v.totals.downloaded_bytes as int));
    says_itself(t3);
    let t4 = t3 + "},\"uploaded\":{\"segments\":"@;
    says_on(t3, "},\"uploaded\":{\"segments\":"@);
    let t5 = t4 + decimal(v.totals.served_total as int);
    says_last(t3, "},\"uploaded\":{\"segments\":"@, decimal(v.totals.served_total as int));
    says_on(t4, decimal(v.totals.served_total as int));
    let t6 = t5 + ",\"bytes\":"@;
    says_on(t5, ",\"bytes\":"@);
    let t7 = t6 + decimal(v.totals.served_bytes as int);
    says_last(t5, ",\"bytes\":"@, decimal(v.totals.served_bytes as int));
    says_on(t6, decimal(v.totals.served_bytes as int));
    says_last_two(
        t3,
        "},\"uploaded\":{\"segments\":"@,
        decimal(v.totals.served_total as int),
        ",\"bytes\":"@,
        decimal(v.totals.served_bytes as int),
    );
    let t8 = t7 + "},\"store_bytes\":"@;
    says_on(t7, "},\"store_bytes\":"@);
    let t9 = t8 + decimal(store.store_bytes as int);
    says_last(t7, "},\"store_bytes\":"@, decimal(store.store_bytes as int));
    says_on(t8, decimal(store.store_bytes as int));
    let t10 = t9 + ",\"store_segments\":"@;
    says_on(t9, ",\"store_segments\":"@);
    let t11 = t10 + decimal(store.store_segments as int);
    says_last(t9, ",\"store_segments\":"@, decimal(store.store_segments as int));
    says_on(t10, decimal(store.store_segments as int));
    let t12 = t11 + ",\"edge_segment\":"@;
    says_on(t11, ",\"edge_segment\":"@);
    let t13 = t12 + decimal(store.edge_segment as int);
    says_last(t11, ",\"edge_segment\":"@, decimal(store.edge_segment as int));
    says_on(t12, decimal(store.edge_segment as int));
    let t14 = t13 + ",\"local_newest\":"@;
    says_on(t13, ",\"local_newest\":"@);
    let t15 = t14 + decimal(store.local_newest as int);
    says_last(t13, ",\"local_newest\":"@, decimal(store.local_newest as int));
    says_on(t14, decimal(store.local_newest as int));
    let t16 = t15 + ",\"catch_up\":"@;
    says_on(t15, ",\"catch_up\":"@);
    let t17 = t16 + decimal(catch_up(store) as int);
    says_last(t15, ",\"catch_up\":"@, decimal(catch_up(store) as int));
    says_on(t16, decimal(catch_up(store) as int));
    let t18 = t17 + ",\"active_transfers\":"@;
    says_on(t17, ",\"active_transfers\":"@);
    let t19 = t18 + decimal(v.registry.active() as int);
    says_last(t17, ",\"active_transfers\":"@, decimal(v.registry.active() as int));
    says_on(t18, decimal(v.registry.active() as int));
    let t20 = t19 + ",\"queue_depth\":"@;
    says_on(t19, ",\"queue_depth\":"@);
    let t21 = t20 + decimal(v.totals.queue_depth as int);
    says_last(t19, ",\"queue_depth\":"@, decimal(v.totals.queue_depth as int));
    says_on(t20, decimal(v.totals.queue_depth as int));
    let t22 = t21 + ",\"inflight\":"@;
    says_on(t21, ",\"inflight\":"@);
    let t23 = t22 + decimal(v.totals.inflight as int);
    says_last(t21, ",\"inflight\":"@, decimal(v.totals.inflight as int));
    says_on(t22, decimal(v.totals.inflight as int));
    let t24 = t23 + ",\"origin_seeds\":{\"assigned\":"@;
    says_on(t23, ",\"origin_seeds\":{\"assigned\":"@);
    let t25 = t24 + decimal(v.totals.seeds_assigned as int);
    says_last(t23, ",\"origin_seeds\":{\"assigned\":"@, decimal(v.totals.seeds_assigned as int));
    says_on(t24, decimal(v.totals.seeds_assigned as int));
    let t26 = t25 + ",\"denied\":"@;
    says_on(t25, ",\"denied\":"@);
    let t27 = t26 + decimal(v.totals.seeds_denied as int);
    says_last(t25, ",\"denied\":"@, decimal(v.totals.seeds_denied as int));
    says_on(t26, decimal(v.totals.seeds_denied as int));
    let t28 = t27 + "},"@;
    says_on(t27, "},"@);
    let t29 = t28 + fault_json(v);
    says_last(t27, "},"@, fault_json(v));
    says_on(t28, fault_json(v));
    let t30 = t29 + ",\"rss_bytes\":"@;
    says_on(t29, ",\"rss_bytes\":"@);
    let t31 = t30 + decimal(store.rss_bytes as int);
    says_last(t29, ",\"rss_bytes\":"@, decimal(store.rss_bytes as int));
    says_on(t30, decimal(store.rss_bytes as int));
    let t32 = t31 + "}"@;
    says_on(t31, "}"@);
    assert(json_tail(v, store) == t32);
}

/// The head of the JSON document says who the node is, for how many seconds it
/// has been running, how many peers it knows, and how it is seen.
pub proof fn json_head_says_who_the_node_is(v: NodeView, version: Seq<char>, now: u128)
    requires
        v.started <= now,
        (now - v.started) / 1_000_000_000 <= u64::MAX,
    ensures
        ({
            let text = json_head(v, version, now);
            let role = if v.role == Role::Master {
                "master"@
            } else {
                "peer"@
            };
            let seen = match v.my_public {
                Some(e) => "\""@ + endpoint_text(e) + "\""@,
                None => "null"@,
            };
            &&& says(text, "{\"version\":\""@ + version)
            &&& says(text, "\",\"node\":\""@ + escaped(v.name))
            &&& says(text, "\",\"role\":\""@ + role)
            &&& says(text, "\",\"uptime_secs\":"@ + decimal(((now - v.started) / 1_000_000_000) as int))
            &&& says(text, ",\"peers_in_swarm\":"@ + decimal(v.peers.len() as int))
            &&& says(text, ",\"public_endpoint\":"@ + seen)
            &&& says(text, ",\"peers\":["@ + peers_json(ranking(v.peer_stats)))
        }),
{
    let role = if v.role == Role::Master {
        "master"@
    } else {
        "peer"@
    };
    let seen = match v.my_public {
        Some(e) => "\""@ + endpoint_text(e) + "\""@,
        None => "null"@,
    };
    let t0 = "{\"version\":\""@;
    let t1 = t0 + version;
    says_itself(t1);
    says_on(t0, version);
    let t2 = t1 + "\",\"node\":\""@;
    says_on(t1, "\",\"node\":\""@);
    let t3 = t2 + escaped(v.name);
    says_last(t1, "\",\"node\":\""@, escaped(v.name));
    says_on(t2, escaped(v.name));
    let t4 = t3 + "\",\"role\":\""@;
    says_on(t3, "\",\"role\":\""@);
    let t5 = t4 + role;
    says_last(t3, "\",\"role\":\""@, role);
    says_on(t4, role);
    let t6 = t5 + "\",\"uptime_secs\":"@;
    says_on(t5, "\",\"uptime_secs\":"@);
    let t7 = t6 + decimal(((now - v.started) / 1_000_000_000) as int);
    says_last(t5, "\",\"uptime_secs\":"@, decimal(((now - v.started) / 1_000_000_000) as int));
    says_on(t6, decimal(((now - v.started) / 1_000_000_000) as int));
    let t8 = t7 + ",\"peers_in_swarm\":"@;
    says_on(t7, ",\"peers_in_swarm\":"@);
    let t9 = t8 + decimal(v.peers.len() as int);
    says_last(t7, ",\"peers_in_swarm\":"@, decimal(v.peers.len() as int));
    says_on(t8, decimal(v.peers.len() as int));
    let t10 = t9 + ",\"public_endpoint\":"@;
    says_on(t9, ",\"public_endpoint\":"@);
    let t11 = t10 + seen;
    says_last(t9, ",\"public_endpoint\":"@, seen);
    says_on(t10, seen);
    let t12 = t11 + ",\"peers\":["@;
    says_on(t11, ",\"peers\":["@);
    let t13 = t12 + peers_json(ranking(v.peer_stats));
    says_last(t11, ",\"peers\":["@, peers_json(ranking(v.peer_stats)));
    says_on(t12, peers_json(ranking(v.peer_stats)));
    let t14 = t13 + "]"@;
    says_on(t13, "]"@);
    assert(json_head(v, version, now) == t14);
}

proof fn peers_are_listed(r: Seq<Ranked>, i: int)
    requires
        0 <= i < r.len(),
    ensures
        says(peers_json(r), peer_json(r[i])),
    decreases r.len(),
{
    if r.len() == 1 {
        says_itself(peer_json(r[0]));
    } else if i == r.len() - 1 {
        says_itself(peer_json(r[i]));
        says_behind(peers_json(r.drop_last()) + ","@, peer_json(r.last()));
    } else {
        peers_are_listed(r.drop_last(), i);
        assert(r.drop_last()[i] == r[i]);
        says_on(peers_json(r.drop_last()), ","@);
        says_on(peers_json(r.drop_last()) + ","@, peer_json(r.last()));
    }
}

proof fn ranking_holds(stats: Seq<Ranked>, i: int) -> (k: int)
    requires
        0 <= i < stats.len(),
    ensures
        0 <= k < ranking(stats).len(),
        ranking(stats)[k] == stats[i],
{
    ranking_is_ranked(stats);
    let r = ranking(stats);
    broadcast use vstd::seq_lib::group_to_multiset_ensures;

    assert(stats.contains(stats[i]));
    assert(stats.to_multiset().count(stats[i]) > 0);
    assert(r.contains(stats[i]));
    choose|k: int| 0 <= k < r.len() && r[k] == stats[i]
}

/// Every peer stands in the JSON document with what is counted of it.
pub proof fn json_holds_every_peer(
    v: NodeView,
    version: Seq<char>,
    store: StoreInfo,
    now: u128,
    i: int,
)
    requires
        0 <= i < v.peer_stats.len(),
    ensures
        says(json_of(v, version, store, now), peer_json(v.peer_stats[i])),
        forall|part: Seq<char>|
            says(json_tail(v, store), part) ==> #[trigger] says(
                json_of(v, version, store, now),
                part,
            ),
        forall|part: Seq<char>|
            says(json_head(v, version, now), part) ==> #[trigger] says(
                json_of(v, version, store, now),
                part,
            ),
{
    let k = ranking_holds(v.peer_stats, i);
    let r = ranking(v.peer_stats);
    peers_are_listed(r, k);
    let head = json_head(v, version, now);
    says_on(head, json_tail(v, store));
    says_behind(head, json_tail(v, store));
    let front = "{\"version\":\""@ + version + "\",\"node\":\""@ + escaped(v.name)
        + "\",\"role\":\""@ + crate::stats::role_text(v.role) + "\",\"uptime_secs\":"@ + decimal(
        uptime(v, now) as int,
    ) + ",\"peers_in_swarm\":"@ + decimal(v.peers.len() as int) + ",\"public_endpoint\":"@
        + crate::stats::endpoint_json(v.my_public) + ",\"peers\":["@;
    says_behind(front, peers_json(r));
    says_on(front + peers_json(r), "]"@);
}

/// How far a node is behind: the segments between its newest one and the live
/// edge, none where it has the edge.
pub proof fn lag_is_counted_in_segments(s: StoreInfo)
    ensures
        s.local_newest <= s.edge_segment ==> catch_up(s) == s.edge_segment - s.local_newest,
        s.local_newest > s.edge_segment ==> catch_up(s) == 0,
{
}

/// The line of a sample in the metrics of a node.
pub open spec fn node_metric(v: NodeView, name: Seq<char>, value: int) -> Seq<char> {
    name + ("{node=\""@ + escaped(v.name) + "\"}"@) + " "@ + decimal(value) + "\n"@
}

/// The line of a sample in the metrics of a peer.
pub open spec fn peer_metric(
    v: NodeView,
    s: PeerStatView,
    name: Seq<char>,
    value: int,
) -> Seq<char> {
    name + ("{node=\""@ + escaped(v.name) + "\",peer=\""@ + escaped(s.name) + "\"}"@) + " "@
        + decimal(value) + "\n"@
}

proof fn samples_are_listed(list: Seq<(Seq<char>, u64)>, labels: Seq<char>, i: int)
    requires
        0 <= i < list.len(),
    ensures
        says(samples(list, labels), sample(list[i].0, labels, list[i].1)),
    decreases list.len(),
{
    let rest = samples(list.drop_last(), labels);
    let last = sample(list.last().0, labels, list.last().1);
    if i == list.len() - 1 {
        says_itself(last);
        says_behind(rest, last);
    } else {
        samples_are_listed(list.drop_last(), labels, i);
        assert(list.drop_last()[i] == list[i]);
        says_on(rest, last);
    }
}

proof fn peers_are_sampled(name: Seq<char>, r: Seq<Ranked>, i: int)
    requires
        0 <= i < r.len(),
    ensures
        forall|part: Seq<char>|
            says(samples(peer_samples(r[i].1), peer_label(name, r[i].1.name)), part)
                ==> #[trigger] says(peers_metrics(name, r), part),
    decreases r.len(),
{
    let rest = peers_metrics(name, r.drop_last());
    let last = samples(peer_samples(r.last().1), peer_label(name, r.last().1.name));
    if i == r.len() - 1 {
        says_behind(rest, last);
    } else {
        peers_are_sampled(name, r.drop_last(), i);
        assert(r.drop_last()[i] == r[i]);
        says_on(rest, last);
    }
}

/// The metrics of a node say each of its counters under its own name.
pub proof fn metrics_say_what_is_counted(v: NodeView, store: StoreInfo, now: u128)
    requires
        v.started <= now,
        (now - v.started) / 1_000_000_000 <= u64::MAX,
        v.peers.len() <= u64::MAX,
        v.registry.active() <= u64::MAX,
    ensures
        ({
            let text = metrics_of(v, store, now);
            let t = v.totals;
            &&& says(text, node_metric(v, "qstream_uptime_seconds"@, (now - v.started) / 1_000_000_000))
            &&& says(text, node_metric(v, "qstream_peers_in_swarm"@, v.peers.len() as int))
            &&& says(text, node_metric(v, "qstream_downloaded_segments_total"@, t.downloaded_total as int))
            &&& says(text, node_metric(v, "qstream_downloaded_bytes_total"@, t.downloaded_bytes as int))
            &&& says(text, node_metric(v, "qstream_uploaded_segments_total"@, t.served_total as int))
            &&& says(text, node_metric(v, "qstream_uploaded_bytes_total"@, t.served_bytes as int))
            &&& says(text, node_metric(v, "qstream_store_segments"@, store.store_segments as int))
            &&& says(text, node_metric(v, "qstream_store_bytes"@, store.store_bytes as int))
            &&& says(text, node_metric(v, "qstream_edge_segment"@, store.edge_segment as int))
            &&& says(text, node_metric(v, "qstream_local_newest"@, store.local_newest as int))
            &&& says(text, node_metric(v, "qstream_catch_up"@, catch_up(store) as int))
            &&& says(text, node_metric(v, "qstream_active_transfers"@, (v.registry.senders.len() + v.registry.receivers.len()) as int))
            &&& says(text, node_metric(v, "qstream_queue_depth"@, t.queue_depth as int))
            &&& says(text, node_metric(v, "qstream_inflight"@, t.inflight as int))
            &&& says(text, node_metric(v, "qstream_origin_seeds_assigned_total"@, t.seeds_assigned as int))
            &&& says(text, node_metric(v, "qstream_origin_seeds_denied_total"@, t.seeds_denied as int))
            &&& says(text, node_metric(v, "qstream_rss_bytes"@, store.rss_bytes as int))
        }),
{
    let list = node_samples(v, store, now);
    let label = node_label(v.name);
    let head = crate::stats::metrics_head(crate::stats::definitions().len() as int);
    let some = samples(list, label);
    says_behind(head, some);
    says_on(head + some, peers_metrics(v.name, ranking(v.peer_stats)));
    assert(label == "{node=\""@ + escaped(v.name) + "\"}"@);
    samples_are_listed(list, label, 0);
    samples_are_listed(list, label, 1);
    samples_are_listed(list, label, 2);
    samples_are_listed(list, label, 3);
    samples_are_listed(list, label, 4);
    samples_are_listed(list, label, 5);
    samples_are_listed(list, label, 6);
    samples_are_listed(list, label, 7);
    samples_are_listed(list, label, 8);
    samples_are_listed(list, label, 9);
    samples_are_listed(list, label, 10);
    samples_are_listed(list, label, 11);
    samples_are_listed(list, label, 12);
    samples_are_listed(list, label, 13);
    samples_are_listed(list, label, 14);
    samples_are_listed(list, label, 15);
    samples_are_listed(list, label, 16);
    assert(list[0].0 == "qstream_uptime_seconds"@);
    assert(list[1].0 == "qstream_peers_in_swarm"@);
    assert(list[2].0 == "qstream_downloaded_segments_total"@);
    assert(list[3].0 == "qstream_downloaded_bytes_total"@);
    assert(list[4].0 == "qstream_uploaded_segments_total"@);
    assert(list[5].0 == "qstream_uploaded_bytes_total"@);
    assert(list[6].0 == "qstream_store_segments"@);
    assert(list[7].0 == "qstream_store_bytes"@);
    assert(list[8].0 == "qstream_edge_segment"@);
    assert(list[9].0 == "qstream_local_newest"@);
    assert(list[10].0 == "qstream_catch_up"@);
    assert(list[11].0 == "qstream_active_transfers"@);
    assert(list[12].0 == "qstream_queue_depth"@);
    assert(list[13].0 == "qstream_inflight"@);
    assert(list[14].0 == "qstream_origin_seeds_assigned_total"@);
    assert(list[15].0 == "qstream_origin_seeds_denied_total"@);
    assert(list[16].0 == "qstream_rss_bytes"@);
}

/// The metrics of a node say what is counted of each peer under its own name.
pub proof fn metrics_say_what_is_counted_of_peers(
    v: NodeView,
    store: StoreInfo,
    now: u128,
    i: int,
)
    requires
        0 <= i < v.peer_stats.len(),
    ensures
        ({
            let text = metrics_of(v, store, now);
            let s = v.peer_stats[i].1;
            &&& says(text, peer_metric(v, s, "qstream_peer_score"@, s.score as int))
            &&& says(text, peer_metric(v, s, "qstream_peer_pulls_total"@, s.pulls as int))
            &&& says(text, peer_metric(v, s, "qstream_peer_nf_pulls_total"@, s.nf_pulls as int))
            &&& says(text, peer_metric(v, s, "qstream_peer_timeouts_total"@, s.timeouts as int))
            &&& says(text, peer_metric(v, s, "qstream_peer_served_total"@, s.served as int))
            &&& says(text, peer_metric(v, s, "qstream_peer_latency_ms"@, s.latency_ms as int))
            &&& says(text, peer_metric(v, s, "qstream_peer_downloaded_bytes_total"@, s.downloaded_bytes as int))
            &&& says(text, peer_metric(v, s, "qstream_peer_uploaded_bytes_total"@, s.uploaded_bytes as int))
        }),
{
    let k = ranking_holds(v.peer_stats, i);
    let r = ranking(v.peer_stats);
    let s = v.peer_stats[i].1;
    let label = peer_label(v.name, s.name);
    let list = peer_samples(s);
    peers_are_sampled(v.name, r, k);
    let head = crate::stats::metrics_head(crate::stats::definitions().len() as int) + samples(
        node_samples(v, store, now),
        node_label(v.name),
    );
    says_behind(head, peers_metrics(v.name, r));
    samples_are_listed(list, label, 0);
    samples_are_listed(list, label, 1);
    samples_are_listed(list, label, 2);
    samples_are_listed(list, label, 3);
    samples_are_listed(list, label, 4);
    samples_are_listed(list, label, 5);
    samples_are_listed(list, label, 6);
    samples_are_listed(list, label, 7);
    assert(sample(list[0].0, label, list[0].1) == peer_metric(v, s, "qstream_peer_score"@, s.score as int));
    assert(sample(list[1].0, label, list[1].1) == peer_metric(v, s, "qstream_peer_pulls_total"@, s.pulls as int));
    assert(sample(list[2].0, label, list[2].1) == peer_metric(v, s, "qstream_peer_nf_pulls_total"@, s.nf_pulls as int));
    assert(sample(list[3].0, label, list[3].1) == peer_metric(v, s, "qstream_peer_timeouts_total"@, s.timeouts as int));
    assert(sample(list[4].0, label, list[4].1) == peer_metric(v, s, "qstream_peer_served_total"@, s.served as int));
    assert(sample(list[5].0, label, list[5].1) == peer_metric(v, s, "qstream_peer_latency_ms"@, s.latency_ms as int));
    assert(sample(list[6].0, label, list[6].1) == peer_metric(v, s, "qstream_peer_downloaded_bytes_total"@, s.downloaded_bytes as int));
    assert(sample(list[7].0, label, list[7].1) == peer_metric(v, s, "qstream_peer_uploaded_bytes_total"@, s.uploaded_bytes as int));
}

/// The lines of the statistics are that of the node, one for each peer, and one
/// for the faults if any are injected; a peer is said to be on the LAN, or to
/// have answered within thirty seconds, or not.
pub proof fn lines_are_node_peers_and_faults(v: NodeView, now: u128, i: int)
    requires
        0 <= i < v.peer_stats.len(),
    ensures
        ({
            let all = lines_of(v, now);
            let n = v.peer_stats.len();
            let faults = v.fault.config.drop_pct > 0 || v.fault.config.dup_pct > 0
                || v.fault.config.reorder_pct > 0 || v.fault.config.delay_ms > 0
                || v.fault.config.burst_every_ms > 0;
            &&& all.len() == if faults {
                n + 2
            } else {
                n + 1
            }
            &&& all[0] == "node "@ + v.name + " uptime="@ + decimal(
                (crate::transfer::since(now, v.started) / 1_000_000_000) as u64 as int,
            ) + " downloaded="@ + decimal(v.totals.downloaded_total as int)
            &&& faults ==> all[n as int + 1] == "fault dropped="@ + decimal(
                v.fault.stats.dropped as int,
            ) + " emitted="@ + decimal(v.fault.stats.emitted as int)
            &&& exists|k: int|
                1 <= k <= n && #[trigger] all[k] == peer_line(
                    v.peer_stats[i].1,
                    v.peer_stats[i].0,
                    path_word(v, v.peer_stats[i].0, now),
                    crate::stats::inventory_words(
                        crate::table::lookup(v.inventories, v.peer_stats[i].0),
                        now,
                    ),
                )
        }),
        path_word(v, v.peer_stats[i].0, now) == if crate::source_laws::on_lan(
            v,
            v.peer_stats[i].0,
        ) {
            "lan"@
        } else if crate::source_laws::answered_lately(v, v.peer_stats[i].0, now) {
            "fresh"@
        } else {
            "stale"@
        },
{
    let k = ranking_holds(v.peer_stats, i);
    ranking_is_ranked(v.peer_stats);
    let all = lines_of(v, now);
    assert(all[k + 1] == crate::stats::peer_lines(v, now)[k]);
}

/// Ranks are told one behind the other, in their order.
pub proof fn ranks_are_told_in_order(a: Seq<Ranked>, b: Seq<Ranked>)
    requires
        a.len() > 0,
        b.len() > 0,
    ensures
        ranks_text(a + b) == ranks_text(a) + ", "@ + ranks_text(b),
    decreases b.len(),
{
    let all = a + b;
    assert(all.drop_last() =~= a + b.drop_last());
    if b.len() == 1 {
        assert(all.drop_last() =~= a);
    } else {
        ranks_are_told_in_order(a, b.drop_last());
        assert(ranks_text(a) + ", "@ + (ranks_text(b.drop_last()) + ", "@ + rank_words(b.last().1))
            =~= ranks_text(a) + ", "@ + ranks_text(b.drop_last()) + ", "@ + rank_words(
            b.last().1,
        ));
    }
}

/// The rank of a peer is told by its name, its score, its pulls and how they
/// failed, and what it was served.
pub proof fn rank_tells_score_and_counts(r: Ranked)
    ensures
        ({
            let s = r.1;
            ranks_text(seq![r]) == s.name + " "@ + decimal(s.score as int) + " (pull "@ + decimal(
                s.pulls as int,
            ) + "/"@ + decimal(s.nf_pulls as int) + "/"@ + decimal(s.timeouts as int) + "/"@
                + decimal(s.other_fails as int) + " served "@ + decimal(s.served as int) + "/"@
                + decimal(s.nf_served as int) + "/"@ + decimal(s.sender_fails as int) + ")"@
        }),
{
    assert(seq![r][0] == r);
}

} // verus!
