//! What holds of how peers are ranked by what they do.
use vstd::prelude::*;
use crate::endpoint::Endpoint;
use crate::node::{stats_wf, NodeView, Totals};
use crate::peer::PeerView;
use crate::peers::{ranking, ranking_is_ranked, PeerStatView, Ranked, ServeResult};
use crate::protocol::AckType;
use crate::registry::{ticked_senders, RegEvent, RegistryView};
use crate::sender::SenderView;
use crate::table::{
    distinct, has_key, lookup, lookup_after_put, lookup_after_removed, position, position_is_first,
};
use crate::transfer::Settings;
use crate::window_laws::gives_up;

verus! {

/// A score with `d` points more, but at most 100.
pub open spec fn raised(score: u32, d: nat) -> int {
    if score + d <= 100 {
        (score + d) as int
    } else {
        100
    }
}

/// A score with `d` points less, but at least 0.
pub open spec fn lowered(score: u32, d: nat) -> int {
    if score >= d {
        score - d
    } else {
        0
    }
}

/// A counter of 32 bits after `n` more.
pub open spec fn counted_on(c: u32, n: nat) -> int {
    (c + n) as int % 0x1_0000_0000
}

/// What is known of a peer's service: 50 points and nothing counted for one of
/// which nothing is known.
pub open spec fn record(stats: Seq<(Endpoint, PeerStatView)>, p: Endpoint) -> PeerStatView {
    match lookup(stats, p) {
        Some(stat) => stat,
        None => PeerStatView {
            name: Seq::empty(),
            pulls: 0,
            nf_pulls: 0,
            timeouts: 0,
            other_fails: 0,
            served: 0,
            nf_served: 0,
            sender_fails: 0,
            latency_ms: 0,
            score: 50,
            downloaded_bytes: 0,
            uploaded_bytes: 0,
            last_seen: 0,
        },
    }
}

/// Two records agree on what was pulled from the peer.
pub open spec fn same_pulls(a: PeerStatView, b: PeerStatView) -> bool {
    &&& a.pulls == b.pulls
    &&& a.nf_pulls == b.nf_pulls
    &&& a.timeouts == b.timeouts
    &&& a.other_fails == b.other_fails
    &&& a.latency_ms == b.latency_ms
    &&& a.downloaded_bytes == b.downloaded_bytes
}

/// Two records agree on what was served to the peer.
pub open spec fn same_serves(a: PeerStatView, b: PeerStatView) -> bool {
    &&& a.served == b.served
    &&& a.nf_served == b.nf_served
    &&& a.sender_fails == b.sender_fails
    &&& a.uploaded_bytes == b.uploaded_bytes
}

/// How a pull that is collected counts for its source: a file that came raises
/// the score by 2 and adds its bytes; no response lowers it by 10; being put off
/// counts for nothing; lacking the file is counted without a change of score;
/// any other failure lowers it by 3. The records of others, and what was served,
/// stay as they are.
pub proof fn pulls_are_ranked(v: PeerView, node: NodeView, id: u16, now: u128)
    requires
        node.wf(),
        lookup(v.active, id) is Some,
        lookup(node.registry.receivers, id) is Some,
        lookup(node.registry.receivers, id)->0.outcome is Some,
    ensures
        ({
            let p = lookup(v.active, id)->0.peer;
            let r = lookup(node.registry.receivers, id)->0;
            let n = v.reaped(node, id, now).1;
            let a = record(node.peer_stats, p);
            let b = record(n.peer_stats, p);
            let bytes = if r.saved_bytes is Some {
                r.saved_bytes->0 as int
            } else {
                0
            };
            &&& same_serves(a, b)
            &&& b.last_seen == now
            &&& forall|q: Endpoint| q != p ==> #[trigger] lookup(n.peer_stats, q) == lookup(
                node.peer_stats,
                q,
            )
            &&& if r.outcome->0 is Ok {
                &&& b.score == raised(a.score, 2)
                &&& b.pulls == counted_on(a.pulls, 1)
                &&& b.downloaded_bytes == (a.downloaded_bytes + bytes) % 0x1_0000_0000_0000_0000
                &&& b.nf_pulls == a.nf_pulls
                &&& b.timeouts == a.timeouts
                &&& b.other_fails == a.other_fails
                &&& n.totals.downloaded_total == (node.totals.downloaded_total + 1)
                    % 0x1_0000_0000_0000_0000
                &&& n.totals.downloaded_bytes == (node.totals.downloaded_bytes + bytes)
                    % 0x1_0000_0000_0000_0000
                &&& r.first_packet_latency is None ==> b.latency_ms == a.latency_ms
                &&& (r.first_packet_latency matches Some(ms) && ms < 0x1_0000_0000) ==> {
                    let ms = r.first_packet_latency->0;
                    b.latency_ms == if a.latency_ms == 0 {
                        ms as int
                    } else {
                        (3 * a.latency_ms + ms) / 4
                    }
                }
            } else {
                &&& n.totals == node.totals
                &&& b.pulls == a.pulls
                &&& b.downloaded_bytes == a.downloaded_bytes
                &&& b.latency_ms == a.latency_ms
                &&& if r.unresponsive {
                    &&& b.score == lowered(a.score, 10)
                    &&& b.timeouts == counted_on(a.timeouts, 1)
                    &&& b.nf_pulls == a.nf_pulls
                    &&& b.other_fails == a.other_fails
                } else if r.not_found && r.retryable {
                    &&& b.score == a.score
                    &&& same_pulls(a, b)
                } else if r.not_found {
                    &&& b.score == a.score
                    &&& b.nf_pulls == counted_on(a.nf_pulls, 1)
                    &&& b.timeouts == a.timeouts
                    &&& b.other_fails == a.other_fails
                } else {
                    &&& b.score == lowered(a.score, 3)
                    &&& b.other_fails == counted_on(a.other_fails, 1)
                    &&& b.nf_pulls == a.nf_pulls
                    &&& b.timeouts == a.timeouts
                }
            }
        }),
{
    let p = lookup(v.active, id)->0.peer;
    let n = v.reaped(node, id, now).1;
    let b = lookup(n.peer_stats, p);
    let r = lookup(node.registry.receivers, id)->0;
    let result = crate::peer::pull_result(
        r.outcome->0 is Ok,
        r.unresponsive,
        r.not_found && r.retryable,
        r.not_found,
    );
    let bytes = match r.saved_bytes {
        Some(b) => b,
        None => 0,
    };
    let t = node.stat_of(p, now).pulled(result, r.first_packet_latency, bytes, now);
    lookup_after_put(node.peer_stats, p, t, p);
    assert forall|q: Endpoint| q != p implies #[trigger] lookup(n.peer_stats, q) == lookup(
        node.peer_stats,
        q,
    ) by {
        lookup_after_put(node.peer_stats, p, t, q);
    }
    position_is_first(node.peer_stats, p, 0);
}

/// Whether an outcome says that a peer was served a file.
pub open spec fn says_served(e: RegEvent, p: Endpoint) -> bool {
    e matches RegEvent::Served { src, .. } && src == p
}

/// Whether an outcome says that a peer asked for a file in vain.
pub open spec fn says_lacking(e: RegEvent, p: Endpoint) -> bool {
    e matches RegEvent::NotFound { src } && src == p
}

/// Whether an outcome says that a transfer to a peer was given up.
pub open spec fn says_failed(e: RegEvent, p: Endpoint) -> bool {
    e matches RegEvent::SenderFailed { src } && src == p
}

/// How many of the outcomes satisfy a condition.
pub open spec fn how_many(events: Seq<RegEvent>, f: spec_fn(RegEvent) -> bool) -> nat {
    events.filter(f).len()
}

proof fn one_more(events: Seq<RegEvent>, f: spec_fn(RegEvent) -> bool)
    requires
        events.len() > 0,
    ensures
        how_many(events, f) == how_many(events.drop_last(), f) + if f(events.last()) {
            1nat
        } else {
            0nat
        },
{
    reveal(Seq::filter);
}

/// Outcomes of transfers to a peer are counted one by one, each as what it is.
/// Only a file that was served raises the score, by 2 each, and only a transfer
/// that was given up lowers it, by 5 each. What was pulled stays as it is.
pub proof fn serves_are_ranked(v: NodeView, events: Seq<RegEvent>, p: Endpoint, now: u128)
    requires
        stats_wf(v.peer_stats),
    ensures
        ({
            let w = v.events_recorded(events, now);
            &&& is_tallied(record(v.peer_stats, p), record(w.peer_stats, p), events, p)
            &&& is_totalled(v.totals, w.totals, events)
        }),
{
    reveal(record_after);
    reveal(totals_after);
    tally(v, events, p, now);
}

/// How outcomes change the record of a peer.
pub open spec fn is_tallied(
    a: PeerStatView,
    b: PeerStatView,
    events: Seq<RegEvent>,
    p: Endpoint,
) -> bool {
    let served = how_many(events, |e: RegEvent| says_served(e, p));
    let lacking = how_many(events, |e: RegEvent| says_lacking(e, p));
    let failed = how_many(events, |e: RegEvent| says_failed(e, p));
    &&& same_pulls(a, b)
    &&& b.served == counted_on(a.served, served)
    &&& b.nf_served == counted_on(a.nf_served, lacking)
    &&& b.sender_fails == counted_on(a.sender_fails, failed)
    &&& served == 0 ==> b.score == lowered(a.score, 5 * failed)
    &&& failed == 0 ==> b.score == raised(a.score, 2 * served)
    &&& served == 0 ==> b.uploaded_bytes == a.uploaded_bytes
    &&& b.score <= 100
}

/// How outcomes change what is counted in all.
pub open spec fn is_totalled(a: Totals, b: Totals, events: Seq<RegEvent>) -> bool {
    let served = how_many(events, |e: RegEvent| e is Served);
    &&& b.served_total == (a.served_total + served) % 0x1_0000_0000_0000_0000
    &&& served == 0 ==> b == a
    &&& b == (Totals { served_total: b.served_total, served_bytes: b.served_bytes, ..a })
}

#[verifier::opaque]
spec fn record_after(v: NodeView, events: Seq<RegEvent>, p: Endpoint, now: u128) -> PeerStatView {
    record(v.events_recorded(events, now).peer_stats, p)
}

#[verifier::opaque]
spec fn totals_after(v: NodeView, events: Seq<RegEvent>, now: u128) -> Totals {
    v.events_recorded(events, now).totals
}

proof fn tally(v: NodeView, events: Seq<RegEvent>, p: Endpoint, now: u128)
    requires
        stats_wf(v.peer_stats),
    ensures
        is_tallied(record_after(v, Seq::empty(), p, now), record_after(v, events, p, now), events, p),
        is_totalled(totals_after(v, Seq::empty(), now), totals_after(v, events, now), events),
        record_after(v, Seq::empty(), p, now) == record(v.peer_stats, p),
        totals_after(v, Seq::empty(), now) == v.totals,
    decreases events.len(),
{
    nothing_after_nothing(v, p, now);
    if events.len() > 0 {
        let front = events.drop_last();
        tally(v, front, p, now);
        next_after(v, events, p, now);
        let a = record_after(v, Seq::empty(), p, now);
        counting_on(a.served, how_many(front, |e: RegEvent| says_served(e, p)));
        counting_on(a.nf_served, how_many(front, |e: RegEvent| says_lacking(e, p)));
        counting_on(a.sender_fails, how_many(front, |e: RegEvent| says_failed(e, p)));
        adding_on(v.totals.served_total, how_many(front, |e: RegEvent| e is Served));
        one_more(events, |e: RegEvent| says_served(e, p));
        one_more(events, |e: RegEvent| says_lacking(e, p));
        one_more(events, |e: RegEvent| says_failed(e, p));
        one_more(events, |e: RegEvent| e is Served);
    } else {
        assert(events =~= Seq::<RegEvent>::empty());
        none_of_none(events, |e: RegEvent| says_served(e, p));
        none_of_none(events, |e: RegEvent| says_lacking(e, p));
        none_of_none(events, |e: RegEvent| says_failed(e, p));
        none_of_none(events, |e: RegEvent| e is Served);
    }
}

proof fn nothing_after_nothing(v: NodeView, p: Endpoint, now: u128)
    requires
        stats_wf(v.peer_stats),
    ensures
        record_after(v, Seq::empty(), p, now) == record(v.peer_stats, p),
        totals_after(v, Seq::empty(), now) == v.totals,
        record(v.peer_stats, p).score <= 100,
{
    reveal(record_after);
    reveal(totals_after);
    score_is_one(v.peer_stats, p);
}

proof fn next_after(v: NodeView, events: Seq<RegEvent>, p: Endpoint, now: u128)
    requires
        stats_wf(v.peer_stats),
        events.len() > 0,
    ensures
        is_counted(
            record_after(v, events.drop_last(), p, now),
            record_after(v, events, p, now),
            events.last(),
            p,
        ),
        is_added(
            totals_after(v, events.drop_last(), now),
            totals_after(v, events, now),
            events.last(),
        ),
{
    reveal(record_after);
    reveal(totals_after);
    stats_stay_in_order(v, events.drop_last(), now);
    event_is_ranked(v.events_recorded(events.drop_last(), now), events.last(), p, now);
}

proof fn counting_on(c: u32, n: nat)
    ensures
        0 <= counted_on(c, n) <= u32::MAX,
        counted_on(counted_on(c, n) as u32, 1) == counted_on(c, n + 1),
{
    vstd::arithmetic::div_mod::lemma_add_mod_noop((c + n) as int, 1, 0x1_0000_0000);
}

proof fn adding_on(c: u64, n: nat)
    ensures
        0 <= (c + n) % 0x1_0000_0000_0000_0000 <= u64::MAX,
        ((c + n) % 0x1_0000_0000_0000_0000 + 1) % 0x1_0000_0000_0000_0000 == (c + (n + 1))
            % 0x1_0000_0000_0000_0000,
{
    vstd::arithmetic::div_mod::lemma_add_mod_noop((c + n) as int, 1, 0x1_0000_0000_0000_0000);
}

proof fn none_of_none(events: Seq<RegEvent>, f: spec_fn(RegEvent) -> bool)
    requires
        events.len() == 0,
    ensures
        how_many(events, f) == 0,
{
    reveal(Seq::filter);
}

proof fn score_is_one(stats: Seq<(Endpoint, PeerStatView)>, p: Endpoint)
    requires
        stats_wf(stats),
    ensures
        record(stats, p).score <= 100,
{
    position_is_first(stats, p, 0);
    if let Some(i) = position(stats, p) {
        assert(stats[i].1.wf());
    }
}

proof fn stats_stay_in_order(v: NodeView, events: Seq<RegEvent>, now: u128)
    requires
        stats_wf(v.peer_stats),
    ensures
        stats_wf(v.events_recorded(events, now).peer_stats),
    decreases events.len(),
{
    if events.len() > 0 {
        stats_stay_in_order(v, events.drop_last(), now);
        let u = v.events_recorded(events.drop_last(), now);
        let src = match events.last() {
            RegEvent::Served { src, bytes } => src,
            RegEvent::NotFound { src } => src,
            RegEvent::SenderFailed { src } => src,
        };
        position_is_first(u.peer_stats, src, 0);
    }
}

/// How one outcome changes the record of a peer.
pub open spec fn is_counted(a: PeerStatView, b: PeerStatView, e: RegEvent, p: Endpoint) -> bool {
    &&& same_pulls(a, b)
    &&& b.served == if says_served(e, p) {
        counted_on(a.served, 1)
    } else {
        a.served as int
    }
    &&& b.nf_served == if says_lacking(e, p) {
        counted_on(a.nf_served, 1)
    } else {
        a.nf_served as int
    }
    &&& b.sender_fails == if says_failed(e, p) {
        counted_on(a.sender_fails, 1)
    } else {
        a.sender_fails as int
    }
    &&& b.score == if says_served(e, p) {
        raised(a.score, 2)
    } else if says_failed(e, p) {
        lowered(a.score, 5)
    } else {
        a.score as int
    }
    &&& !says_served(e, p) ==> b.uploaded_bytes == a.uploaded_bytes
}

/// How one outcome changes what is counted in all.
pub open spec fn is_added(a: Totals, b: Totals, e: RegEvent) -> bool {
    &&& e is Served ==> b.served_total == (a.served_total + 1) % 0x1_0000_0000_0000_0000
    &&& !(e is Served) ==> b == a
    &&& b == (Totals { served_total: b.served_total, served_bytes: b.served_bytes, ..a })
}

/// One outcome is counted as what it is, for the peer that it is about and for
/// no other.
pub proof fn event_is_ranked(v: NodeView, e: RegEvent, p: Endpoint, now: u128)
    requires
        stats_wf(v.peer_stats),
    ensures
        ({
            let w = v.event_recorded(e, now);
            &&& is_counted(record(v.peer_stats, p), record(w.peer_stats, p), e, p)
            &&& is_added(v.totals, w.totals, e)
        }),
{
    let (src, result, bytes) = match e {
        RegEvent::Served { src, bytes } => (src, ServeResult::Served, bytes),
        RegEvent::NotFound { src } => (src, ServeResult::NotFound, 0u64),
        RegEvent::SenderFailed { src } => (src, ServeResult::SenderFailed, 0u64),
    };
    score_is_one(v.peer_stats, p);
    lookup_after_put(v.peer_stats, src, v.stat_of(src, now).served_to(result, bytes), p);
}

/// A file that was served counts its bytes, for the peer and in all.
pub proof fn served_bytes_are_counted(
    v: NodeView,
    p: Endpoint,
    bytes: u64,
    now: u128,
)
    requires
        v.wf(),
    ensures
        ({
            let w = v.event_recorded(RegEvent::Served { src: p, bytes }, now);
            &&& record(w.peer_stats, p).uploaded_bytes == (record(v.peer_stats, p).uploaded_bytes
                + bytes) % 0x1_0000_0000_0000_0000
            &&& w.totals.served_bytes == (v.totals.served_bytes + bytes)
                % 0x1_0000_0000_0000_0000
        }),
{
    lookup_after_put(
        v.peer_stats,
        p,
        v.stat_of(p, now).served_to(ServeResult::Served, bytes),
        p,
    );
}

/// An ACK reports that a file was served exactly if it says that the file is
/// complete and belongs to a transfer that is under way, which is then freed;
/// what is reported is the peer that was served and the size of the file. Any
/// other ACK reports nothing.
pub proof fn only_a_complete_ack_reports_a_serve(
    v: RegistryView,
    id: u16,
    ack_type: AckType,
    start: u16,
    count: u16,
    now: u128,
)
    requires
        v.wf(),
    ensures
        ({
            let w = v.acked(id, ack_type, start, count, now);
            match lookup(v.senders, id) {
                Some(t) => if ack_type == AckType::Complete {
                    &&& w.events == v.events.push(
                        RegEvent::Served { src: t.remote, bytes: t.file.len() as u64 },
                    )
                    &&& !has_key(w.senders, id)
                } else {
                    &&& w.events == v.events
                    &&& has_key(w.senders, id)
                },
                None => w == v,
            }
        }),
        v.acked(id, ack_type, start, count, now).receivers == v.receivers,
{
    lookup_after_removed(v.senders, id, id);
    if let Some(t) = lookup(v.senders, id) {
        lookup_after_put(v.senders, id, t.acked(v.settings, start, count, now), id);
    }
}

/// The transfers to a peer that are given up at an instant.
pub open spec fn given_up(senders: Seq<(u16, SenderView)>, p: Endpoint, now: u128) -> nat {
    senders.filter(|e: (u16, SenderView)| e.1.remote == p && gives_up(e.1, now)).len()
}

proof fn failures_are_reported(
    senders: Seq<(u16, SenderView)>,
    s: Settings,
    p: Endpoint,
    now: u128,
)
    requires
        forall|i: int| 0 <= i < senders.len() ==> (#[trigger] senders[i]).1.wf(),
        now <= u128::MAX - 8_000_000_000,
    ensures
        ({
            let events = ticked_senders(senders, s, now).1;
            &&& how_many(events, |e: RegEvent| says_failed(e, p)) == given_up(senders, p, now)
            &&& how_many(events, |e: RegEvent| says_served(e, p)) == 0
            &&& how_many(events, |e: RegEvent| says_lacking(e, p)) == 0
            &&& how_many(events, |e: RegEvent| e is Served) == 0
        }),
    decreases senders.len(),
{
    reveal(Seq::filter);
    if senders.len() > 0 {
        let front = senders.drop_last();
        assert forall|i: int| 0 <= i < front.len() implies (#[trigger] front[i]).1.wf() by {
            assert(front[i] == senders[i]);
        }
        failures_are_reported(front, s, p, now);
        let before = ticked_senders(front, s, now).1;
        let events = ticked_senders(senders, s, now).1;
        let t = senders.last().1;
        assert(t == senders[senders.len() - 1].1);
        sender_step(t, s, now);
        if events != before {
            assert(events.drop_last() =~= before);
            one_more(events, |e: RegEvent| says_failed(e, p));
            one_more(events, |e: RegEvent| says_served(e, p));
            one_more(events, |e: RegEvent| says_lacking(e, p));
            one_more(events, |e: RegEvent| e is Served);
        }
    }
}

proof fn sender_step(t: SenderView, s: Settings, now: u128)
    requires
        t.wf(),
        now <= u128::MAX - 8_000_000_000,
    ensures
        ({
            let w = t.tick_sends(s, now).0;
            (w.ack_overdue(now) && w.retry_count >= 30) == gives_up(t, now)
        }),
{
    crate::transfer::waits_are_bounded(s, t.range.1, t.rtt_est, t.retry_count);
}

/// What becomes of a transfer at a tick, found by its number: it is gone if it
/// gives up; one whose window was out and has not been acknowledged in time
/// starts its window again with one more retry; any other goes on with its
/// window.
pub proof fn transfers_are_retried_or_given_up(
    v: RegistryView,
    i: int,
    now: u128,
)
    requires
        v.wf(),
        0 <= i < v.senders.len(),
        now <= u128::MAX - 8_000_000_000,
    ensures
        ({
            let (id, t) = v.senders[i];
            let w = lookup(v.ticked(now).senders, id);
            let late = t.range_sent >= t.range.1 && t.ack_deadline is Some && now
                >= t.ack_deadline->0;
            if gives_up(t, now) {
                w is None
            } else if late {
                &&& w is Some
                &&& w->0.range == t.range
                &&& w->0.range_sent == 0
                &&& w->0.retry_count == t.retry_count + 1
                &&& w->0.send_deadline == now
                &&& w->0.file == t.file
                &&& w->0.remote == t.remote
            } else {
                w == Some(t.tick_sends(v.settings, now).0)
            }
        }),
{
    kept_senders(v.senders, v.settings, i, now);
}

proof fn kept_senders(senders: Seq<(u16, SenderView)>, s: Settings, i: int, now: u128)
    requires
        forall|i: int| 0 <= i < senders.len() ==> (#[trigger] senders[i]).1.wf(),
        distinct(senders),
        0 <= i < senders.len(),
        now <= u128::MAX - 8_000_000_000,
    ensures
        ({
            let (id, t) = senders[i];
            let w = lookup(ticked_senders(senders, s, now).0, id);
            let next = t.tick_sends(s, now).0;
            if gives_up(t, now) {
                w is None
            } else if next.ack_overdue(now) {
                w == Some(next.resending(now))
            } else {
                w == Some(next)
            }
        }),
        ({
            let t = senders[i].1;
            t.tick_sends(s, now).0.ack_overdue(now) == (t.range_sent >= t.range.1 && t.ack_deadline
                is Some && now >= t.ack_deadline->0)
        }),
        ({
            let t = senders[i].1;
            t.range_sent >= t.range.1 ==> t.tick_sends(s, now).0 == t
        }),
    decreases senders.len(),
{
    let front = senders.drop_last();
    let (id, t) = senders[i];
    sender_step(t, s, now);
    crate::transfer::waits_are_bounded(s, t.range.1, t.rtt_est, t.retry_count);
    let before = ticked_senders(front, s, now).0;
    let kept = ticked_senders(senders, s, now).0;
    assert forall|j: int| 0 <= j < front.len() implies (#[trigger] front[j]).1.wf() by {
        assert(front[j] == senders[j]);
    }
    assert forall|a: int, b: int| 0 <= a < b < front.len() implies (#[trigger] front[a]).0 != (
    #[trigger] front[b]).0 by {
        assert(front[a] == senders[a] && front[b] == senders[b]);
    }
    let last = senders.len() - 1;
    if i < last {
        assert(front[i] == senders[i]);
        kept_senders(front, s, i, now);
        assert(senders[i].0 != senders[last].0);
        if kept != before {
            assert(kept.drop_last() =~= before);
            crate::laws::lookup_of_longer(before, kept.last(), id);
            assert(before.push(kept.last()) =~= kept);
        }
    } else {
        others_are_kept(front, s, id, now);
        if kept != before {
            assert(kept.drop_last() =~= before);
            crate::laws::lookup_of_longer(before, kept.last(), id);
            assert(before.push(kept.last()) =~= kept);
        }
    }
}

proof fn others_are_kept(senders: Seq<(u16, SenderView)>, s: Settings, id: u16, now: u128)
    requires
        forall|i: int| 0 <= i < senders.len() ==> (#[trigger] senders[i]).0 != id,
    ensures
        lookup(ticked_senders(senders, s, now).0, id) is None,
    decreases senders.len(),
{
    let kept = ticked_senders(senders, s, now).0;
    if senders.len() > 0 {
        let front = senders.drop_last();
        let before = ticked_senders(front, s, now).0;
        assert forall|i: int| 0 <= i < front.len() implies (#[trigger] front[i]).0 != id by {
            assert(front[i] == senders[i]);
        }
        others_are_kept(front, s, id, now);
        assert(senders[senders.len() - 1].0 != id);
        if kept != before {
            assert(kept.drop_last() =~= before);
            crate::laws::lookup_of_longer(before, kept.last(), id);
            assert(before.push(kept.last()) =~= kept);
        }
    }
}

/// A peer to which transfers are given up at a tick, with nothing else reported,
/// loses five points for each and has each counted as a failure; nothing counts
/// as served, neither for it nor in all.
pub proof fn vanished_peers_are_ranked_down(v: NodeView, p: Endpoint, now: u128)
    requires
        v.wf(),
        v.registry.events.len() == 0,
        now <= u128::MAX - 8_000_000_000,
    ensures
        ({
            let w = v.ticked(now);
            let a = record(v.peer_stats, p);
            let b = record(w.peer_stats, p);
            let n = given_up(v.registry.senders, p, now);
            &&& b.sender_fails == counted_on(a.sender_fails, n)
            &&& b.score == lowered(a.score, 5 * n)
            &&& b.served == a.served
            &&& b.nf_served == a.nf_served
            &&& b.uploaded_bytes == a.uploaded_bytes
            &&& same_pulls(a, b)
            &&& w.totals == v.totals
            &&& w.registry.events.len() == 0
        }),
{
    let s = v.registry.settings;
    failures_are_reported(v.registry.senders, s, p, now);
    let ticked = v.registry.ticked(now);
    let events = ticked_senders(v.registry.senders, s, now).1;
    assert(ticked.events =~= events);
    let u = NodeView { registry: ticked, ..v };
    u.posting_keeps(v.registry.tick_sends(now), now);
    let x = v.transfers_ticked(now);
    assert(x.peer_stats == v.peer_stats && x.totals == v.totals);
    let y = NodeView { registry: RegistryView { events: Seq::empty(), ..x.registry }, ..x };
    serves_are_ranked(y, events, p, now);
    let z = x.outcomes_recorded(now);
    events_keep(y, events, now);
    pings_keep(z, now);
}

pub(crate) proof fn events_keep(v: NodeView, events: Seq<RegEvent>, now: u128)
    ensures
        ({
            let w = v.events_recorded(events, now);
            w == (NodeView { peer_stats: w.peer_stats, totals: w.totals, ..v })
        }),
    decreases events.len(),
{
    if events.len() > 0 {
        events_keep(v, events.drop_last(), now);
    }
}

proof fn pings_keep(v: NodeView, now: u128)
    ensures
        v.ping_cycled(now).put_off(now).peer_stats == v.peer_stats,
        v.ping_cycled(now).put_off(now).totals == v.totals,
        v.ping_cycled(now).put_off(now).registry == v.registry,
{
    let u = NodeView {
        next_ping: crate::transfer::after(now, crate::node::PING_INTERVAL as int),
        ..v
    };
    u.pinging_keeps(v.peers.len() as int, now);
}

/// A ranking goes by the score, the best first, and holds every peer once; peers
/// of one score go by their address, IPv4 before IPv6.
pub proof fn best_score_comes_first(stats: Seq<Ranked>, i: int, j: int)
    requires
        0 <= i < j < ranking(stats).len(),
    ensures
        ranking(stats)[i].1.score >= ranking(stats)[j].1.score,
        ranking(stats)[i].1.score == ranking(stats)[j].1.score ==> match (
            ranking(stats)[i].0,
            ranking(stats)[j].0,
        ) {
            (Endpoint::V4 { ip: a, port: p }, Endpoint::V4 { ip: b, port: q }) => a < b || (a == b
                && p <= q),
            (Endpoint::V6 { .. }, Endpoint::V4 { .. }) => false,
            (Endpoint::V6 { ip: a, .. }, Endpoint::V6 { ip: b, .. }) => a <= b,
            (Endpoint::V4 { .. }, Endpoint::V6 { .. }) => true,
        },
        ranking(stats).len() == stats.len(),
        ranking(stats).to_multiset() == stats.to_multiset(),
{
    ranking_is_ranked(stats);
}

} // verus!
