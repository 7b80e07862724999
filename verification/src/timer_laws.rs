//! What holds of what a node does when its timers run out.
use vstd::prelude::*;
use crate::discovery_laws::{greeting, is_faultless, mail, posting_sends_once};
use crate::endpoint::Endpoint;
use crate::fault::{mixed, stepped, DatagramView};
use crate::node::{live_peers, NodeView, Role};
use crate::peer::{still_pending, PeerView};
use crate::peers::PeerInfoView;
use crate::protocol::MessageView;
use crate::receiver::ReceiverView;
use crate::registry::Letter;
use crate::sender::SenderView;
use crate::table::{has_key, lookup, lookup_after_removed};
use crate::transfer::{since, Settings};

verus! {

// ---------------------------------------------------------------------------
// The timers of a peer

/// At the start the bootstrap handshake is repeated after three seconds, the
/// manifest is asked for within the first second and the peerlist within the
/// first two.
pub proof fn polls_are_staggered_from_the_start(
    local: Endpoint,
    bootstrap: Endpoint,
    rng: u64,
    now: u128,
)
    requires
        now <= u128::MAX - 10_000_000_000,
    ensures
        ({
            let v = PeerView::started(local, bootstrap, rng, now);
            &&& v.local_addr == local
            &&& v.bootstrap == bootstrap
            &&& !v.handshake_done
            &&& v.next_handshake_retry == now + 3_000_000_000
            &&& now <= v.next_poll < now + 1_000_000_000
            &&& now <= v.next_peerlist < now + 2_000_000_000
            &&& v.queue.len() == 0 && v.active.len() == 0 && v.pending.len() == 0
            &&& v.poll_timeout is None
        }),
{
}

/// What a tick of a peer's timers posts to the bootstrap node: the handshake
/// once more as long as it has not been answered and three seconds have passed,
/// a request for the manifest and one for the peerlist, each as it is due.
pub open spec fn due_mail(v: PeerView, node: NodeView, now: u128) -> Seq<MessageView> {
    (if !v.handshake_done && now >= v.next_handshake_retry {
        seq![greeting(node)]
    } else {
        Seq::empty()
    }) + (if now >= v.next_poll {
        seq![MessageView::ManifestRequest]
    } else {
        Seq::empty()
    }) + (if now >= v.next_peerlist {
        seq![MessageView::PeerlistRequest]
    } else {
        Seq::empty()
    })
}

/// When its timers run out, a peer posts what is due to the bootstrap node and
/// nothing else, and sets each timer anew: the handshake for three seconds
/// later, the manifest for two to three seconds later, the peerlist for five to
/// seven seconds later. A manifest is waited for three seconds. What is not due
/// stays.
pub proof fn due_requests_go_to_the_bootstrap(v: PeerView, node: NodeView, now: u128)
    requires
        is_faultless(node),
        now <= u128::MAX - 10_000_000_000,
    ensures
        ({
            let (w, n) = v.ticked(node, now);
            &&& n == (NodeView {
                outbox: node.outbox + due_mail(v, node, now).map_values(
                    |m: MessageView| mail(v.bootstrap, m),
                ),
                ..node
            })
            &&& w.next_handshake_retry == if !v.handshake_done && now >= v.next_handshake_retry {
                (now + 3_000_000_000) as u128
            } else {
                v.next_handshake_retry
            }
            &&& if now >= v.next_poll {
                &&& now + 2_000_000_000 <= w.next_poll < now + 3_000_000_000
                &&& w.poll_timeout == Some((now + 3_000_000_000) as u128)
            } else {
                &&& w.next_poll == v.next_poll
                &&& w.poll_timeout == if v.poll_timeout matches Some(t) && now >= t {
                    None
                } else {
                    v.poll_timeout
                }
            }
            &&& if now >= v.next_peerlist {
                now + 5_000_000_000 <= w.next_peerlist < now + 7_000_000_000
            } else {
                w.next_peerlist == v.next_peerlist
            }
            &&& w.handshake_done == v.handshake_done
            &&& w.active == v.active
            &&& w.queue == v.queue
            &&& w.tried == v.tried
            &&& w.parents == v.parents
        }),
{
    let b = v.bootstrap;
    let f = |m: MessageView| mail(b, m);
    let (a, n1) = v.handshakes_ticked(node, now);
    let (c, n2) = a.poll_ticked(n1, now);
    let (w, n3) = c.discovery_ticked(n2, now);
    posting_sends_once(node, b, greeting(node), now);
    posting_sends_once(n1, b, MessageView::ManifestRequest, now);
    posting_sends_once(n2, b, MessageView::PeerlistRequest, now);
    assert(n3.outbox =~= node.outbox + due_mail(v, node, now).map_values(f));
}

/// A peer with no timer run out is left as it is, and so is its node.
pub proof fn nothing_happens_before_a_timer(v: PeerView, node: NodeView, now: u128)
    requires
        forall|i: int| 0 <= i < v.timers().len() ==> now < #[trigger] v.timers()[i],
    ensures
        v.ticked(node, now) == (v, node),
{
    let all = v.timers();
    let keys = v.pending.map_values(|e: (Endpoint, u128)| e.1);
    let retry = if v.handshake_done {
        Seq::empty()
    } else {
        seq![v.next_handshake_retry]
    };
    let m = (keys.len() + retry.len()) as int;
    if !v.handshake_done {
        assert(all[keys.len() as int] == v.next_handshake_retry);
    }
    assert(all[m] == v.next_poll);
    assert(all[m + 1] == v.next_peerlist);
    if let Some(t) = v.poll_timeout {
        assert(all[m + 2] == t);
    }
    assert forall|i: int| 0 <= i < v.pending.len() implies now < (#[trigger] v.pending[i]).1 by {
        assert(all[i] == v.pending[i].1);
    }
    all_still_pending(v.pending, now);
}

proof fn all_still_pending(s: Seq<(Endpoint, u128)>, now: u128)
    requires
        forall|i: int| 0 <= i < s.len() ==> now < (#[trigger] s[i]).1,
    ensures
        still_pending(s, now) == s,
    decreases s.len(),
{
    if s.len() > 0 {
        let front = s.drop_last();
        assert forall|i: int| 0 <= i < front.len() implies now < (#[trigger] front[i]).1 by {
            assert(front[i] == s[i]);
        }
        all_still_pending(front, now);
        assert(now < s[s.len() - 1].1);
        assert(front.push(s.last()) =~= s);
    } else {
        assert(still_pending(s, now) =~= s);
    }
}

/// A handshake that is not answered in time is forgotten, so that the peer may
/// be greeted again; one that still may be answered is waited for.
pub proof fn unanswered_handshakes_are_forgotten(v: PeerView, node: NodeView, now: u128)
    ensures
        v.ticked(node, now).0.pending == v.pending.filter(|e: (Endpoint, u128)| now < e.1),
{
    pending_is_filtered(v.pending, now);
}

proof fn pending_is_filtered(s: Seq<(Endpoint, u128)>, now: u128)
    ensures
        still_pending(s, now) == s.filter(|e: (Endpoint, u128)| now < e.1),
    decreases s.len(),
{
    reveal(Seq::filter);
    if s.len() > 0 {
        pending_is_filtered(s.drop_last(), now);
    } else {
        assert(still_pending(s, now) =~= s.filter(|e: (Endpoint, u128)| now < e.1));
    }
}

/// An answered handshake is no longer waited for. The first answer of the
/// bootstrap node opens the way: manifest and peerlist are asked for at once,
/// and the handshake is not repeated.
pub proof fn bootstrap_answer_starts_the_polls(v: PeerView, src: Endpoint, now: u128)
    requires
        crate::table::distinct(v.pending),
    ensures
        ({
            let w = v.handshake_came(src, now);
            &&& !has_key(w.pending, src)
            &&& forall|q: Endpoint| q != src ==> #[trigger] lookup(w.pending, q) == lookup(
                v.pending,
                q,
            )
            &&& w.handshake_done == (v.handshake_done || src == v.bootstrap)
            &&& if src == v.bootstrap && !v.handshake_done {
                w.next_poll == now && w.next_peerlist == now
            } else {
                w.next_poll == v.next_poll && w.next_peerlist == v.next_peerlist
            }
        }),
{
    lookup_after_removed(v.pending, src, src);
    assert forall|q: Endpoint| q != src implies #[trigger] lookup(
        v.handshake_came(src, now).pending,
        q,
    ) == lookup(v.pending, q) by {
        lookup_after_removed(v.pending, src, q);
    }
}

// ---------------------------------------------------------------------------
// The timers of a node

/// The PING of a node, which carries its nonce and its name.
pub open spec fn ping_of(v: NodeView) -> MessageView {
    MessageView::Ping { nonce: v.beacon_nonce, name: v.name }
}

proof fn pings_are_posted(v: NodeView, n: int, now: u128)
    requires
        is_faultless(v),
        0 <= n <= v.peers.len(),
    ensures
        ({
            let w = v.pinged(n, now);
            &&& w.outbox == v.outbox + v.peers.take(n).map_values(
                |e: (Endpoint, PeerInfoView)| mail(e.0, ping_of(v)),
            )
            &&& w == (NodeView { outbox: w.outbox, paths: w.paths, ..v })
        }),
    decreases n,
{
    let f = |e: (Endpoint, PeerInfoView)| mail(e.0, ping_of(v));
    if n > 0 {
        pings_are_posted(v, n - 1, now);
        let u = v.pinged(n - 1, now);
        posting_sends_once(u, v.peers[n - 1].0, ping_of(v), now);
        assert(v.outbox + v.peers.take(n).map_values(f) =~= (v.outbox + v.peers.take(
            n - 1,
        ).map_values(f)).push(mail(v.peers[n - 1].0, ping_of(v))));
    } else {
        assert(v.outbox + v.peers.take(n).map_values(f) =~= v.outbox);
    }
}

/// Every ten seconds every known peer is sent a PING. Every five seconds a peer,
/// but no master, also sends one to all hosts of the local network, at its own
/// port.
pub proof fn peers_are_kept_alive(v: NodeView, now: u128)
    requires
        is_faultless(v),
        now <= u128::MAX - 10_000_000_000,
    ensures
        ({
            let w = v.ping_cycled(now);
            let everyone = Endpoint::V4 {
                ip: 0xffff_ffff,
                port: match v.local_addr {
                    Endpoint::V4 { port, .. } => port,
                    Endpoint::V6 { port, .. } => port,
                },
            };
            let pings = if now >= v.next_ping {
                v.peers.map_values(|e: (Endpoint, PeerInfoView)| mail(e.0, ping_of(v)))
            } else {
                Seq::empty()
            };
            let beacon = if v.role == Role::Peer && now >= v.next_beacon {
                seq![mail(everyone, ping_of(v))]
            } else {
                Seq::empty()
            };
            &&& w.outbox == v.outbox + pings + beacon
            &&& w.next_ping == if now >= v.next_ping {
                (now + 10_000_000_000) as u128
            } else {
                v.next_ping
            }
            &&& w.next_beacon == if v.role == Role::Peer && now >= v.next_beacon {
                (now + 5_000_000_000) as u128
            } else {
                v.next_beacon
            }
            &&& w.peers == v.peers
            &&& w.registry == v.registry
            &&& w.peer_stats == v.peer_stats
        }),
{
    let f = |e: (Endpoint, PeerInfoView)| mail(e.0, ping_of(v));
    let u = if now >= v.next_ping {
        let x = NodeView { next_ping: (now + 10_000_000_000) as u128, ..v };
        pings_are_posted(x, v.peers.len() as int, now);
        assert(v.peers.take(v.peers.len() as int) =~= v.peers);
        let g = |e: (Endpoint, PeerInfoView)| mail(e.0, ping_of(x));
        assert(f =~= g);
        x.pinged(v.peers.len() as int, now)
    } else {
        v
    };
    let y = NodeView { next_beacon: (now + 5_000_000_000) as u128, ..u };
    posting_sends_once(y, y.broadcast(), ping_of(v), now);
    let w = v.ping_cycled(now);
    let pings = if now >= v.next_ping {
        v.peers.map_values(f)
    } else {
        Seq::empty()
    };
    if v.role == Role::Peer && now >= v.next_beacon {
        assert(w.outbox =~= v.outbox + pings + seq![mail(y.broadcast(), ping_of(v))]);
    } else {
        assert(w.outbox =~= v.outbox + pings + Seq::empty());
    }
}

/// Files are pruned every thirty seconds where there is a retention time, the
/// statistics are taken every five seconds, and the ranking is logged every
/// sixty.
pub proof fn chores_come_around(v: NodeView, now: u128)
    requires
        now <= u128::MAX - 60_000_000_000,
    ensures
        v.due(now).prune == (v.retention_secs != 0 && now >= v.next_prune),
        v.due(now).snapshot == (now >= v.next_snapshot),
        v.due(now).rank_log == (now >= v.next_rank_log),
        ({
            let w = v.put_off(now);
            &&& v.due(now).prune ==> w.next_prune == now + 30_000_000_000
            &&& v.due(now).snapshot ==> w.next_snapshot == now + 5_000_000_000
            &&& v.due(now).rank_log ==> w.next_rank_log == now + 60_000_000_000
            &&& !w.due(now).prune && !w.due(now).snapshot && !w.due(now).rank_log
        }),
{
}

/// A peer stays known exactly if it was heard from within the time.
pub proof fn silent_peers_are_forgotten(
    peers: Seq<(Endpoint, PeerInfoView)>,
    ttl: u128,
    now: u128,
)
    ensures
        live_peers(peers, ttl, now) == peers.filter(
            |e: (Endpoint, PeerInfoView)| since(now, e.1.last_seen) < ttl,
        ),
    decreases peers.len(),
{
    let f = |e: (Endpoint, PeerInfoView)| since(now, e.1.last_seen) < ttl;
    reveal(Seq::filter);
    if peers.len() > 0 {
        silent_peers_are_forgotten(peers.drop_last(), ttl, now);
    } else {
        assert(live_peers(peers, ttl, now) =~= peers.filter(f));
    }
}

/// A transfer does nothing before its deadline, and something at it: it sends
/// packets, or its window was not acknowledged in time.
pub proof fn transfers_wake_in_time(v: SenderView, s: Settings, now: u128)
    requires
        v.wf(),
        v.range_sent < v.range.1 || v.ack_deadline is Some,
    ensures
        now < v.deadline() ==> v.tick_sends(s, now) == (v, Seq::<MessageView>::empty())
            && !v.ack_overdue(now),
        now >= v.deadline() ==> v.tick_sends(s, now).1.len() > 0 || v.ack_overdue(now),
{
}

// ---------------------------------------------------------------------------
// The timers of transfers

/// The mail of a list of letters.
pub open spec fn posted_mail(batch: Seq<Letter>) -> Seq<DatagramView> {
    batch.map_values(|l: Letter| mail(l.0, l.1))
}

proof fn letters_are_posted(v: NodeView, batch: Seq<Letter>, now: u128)
    requires
        is_faultless(v),
    ensures
        v.posted_all(batch, now) == (NodeView { outbox: v.outbox + posted_mail(batch), ..v }),
    decreases batch.len(),
{
    if batch.len() > 0 {
        let front = batch.drop_last();
        letters_are_posted(v, front, now);
        let u = v.posted_all(front, now);
        posting_sends_once(u, batch.last().0, batch.last().1, now);
        assert(v.outbox + posted_mail(batch) =~= (v.outbox + posted_mail(front)).push(
            mail(batch.last().0, batch.last().1),
        ));
    } else {
        assert(v.outbox + posted_mail(batch) =~= v.outbox);
    }
}

/// At a tick a node without faults sends what its transfers send, all of it and
/// in its order; nothing else of it changes but its transfers.
pub proof fn ticks_post_what_transfers_send(v: NodeView, now: u128)
    requires
        is_faultless(v),
        v.fault.held is None,
        v.fault.delayed.len() == 0,
    ensures
        v.transfers_ticked(now) == (NodeView {
            registry: v.registry.ticked(now),
            outbox: v.outbox + posted_mail(v.registry.tick_sends(now)),
            ..v
        }),
{
    let u = NodeView { registry: v.registry.ticked(now), ..v };
    letters_are_posted(u, v.registry.tick_sends(now), now);
    let w = u.posted_all(v.registry.tick_sends(now), now);
    assert(w.fault.released(now).len() == 0);
    assert(w.outbox + w.fault.released(now) =~= w.outbox);
    assert(w.fault.delayed.skip(0) =~= w.fault.delayed);
    assert(crate::fault::due(w.fault.delayed, now) == 0);
    assert(w.fault.drained(now).delayed =~= w.fault.delayed);
}

/// What waits or is held back by the injector goes out at a tick as it is due.
pub proof fn ticks_release_what_waits(v: NodeView, now: u128)
    ensures
        ({
            let u = (NodeView { registry: v.registry.ticked(now), ..v }).posted_all(
                v.registry.tick_sends(now),
                now,
            );
            let w = v.transfers_ticked(now);
            &&& w.outbox == u.outbox + u.fault.released(now)
            &&& w.fault == u.fault.drained(now)
        }),
{
}

/// Every deadline counts for how long a node may sleep: those of all transfers
/// in both directions, that of the fault injector, and all timers.
pub proof fn sleep_ends_at_every_deadline(v: PeerView, node: NodeView, now: u128)
    ensures
        ({
            let all = v.all_deadlines(node, now);
            &&& forall|i: int|
                0 <= i < node.registry.senders.len() ==> all.contains(
                    (#[trigger] node.registry.senders[i]).1.deadline(),
                )
            &&& forall|i: int|
                0 <= i < node.registry.receivers.len() ==> all.contains(
                    (#[trigger] node.registry.receivers[i]).1.deadline,
                )
            &&& node.fault.deadline(now) is Some ==> all.contains(node.fault.deadline(now)->0)
            &&& forall|i: int|
                0 <= i < v.pending.len() ==> all.contains((#[trigger] v.pending[i]).1)
            &&& !v.handshake_done ==> all.contains(v.next_handshake_retry)
            &&& all.contains(v.next_poll)
            &&& all.contains(v.next_peerlist)
            &&& v.poll_timeout is Some ==> all.contains(v.poll_timeout->0)
        }),
{
    let all = v.all_deadlines(node, now);
    let s = node.registry.senders.map_values(|e: (u16, SenderView)| e.1.deadline());
    let r = node.registry.receivers.map_values(|e: (u16, ReceiverView)| e.1.deadline);
    let f = match node.fault.deadline(now) {
        Some(d) => seq![d],
        None => Seq::empty(),
    };
    let keys = v.pending.map_values(|e: (Endpoint, u128)| e.1);
    let retry = if v.handshake_done {
        Seq::empty()
    } else {
        seq![v.next_handshake_retry]
    };
    assert forall|i: int| 0 <= i < node.registry.senders.len() implies all.contains(
        (#[trigger] node.registry.senders[i]).1.deadline(),
    ) by {
        assert(all[i] == s[i]);
    }
    assert forall|i: int| 0 <= i < node.registry.receivers.len() implies all.contains(
        (#[trigger] node.registry.receivers[i]).1.deadline,
    ) by {
        assert(all[s.len() + i] == r[i]);
    }
    let m = (s.len() + r.len()) as int;
    if node.fault.deadline(now) is Some {
        assert(all[m] == f[0]);
    }
    let n = m + f.len();
    assert forall|i: int| 0 <= i < v.pending.len() implies all.contains(
        (#[trigger] v.pending[i]).1,
    ) by {
        assert(all[n + i] == keys[i]);
    }
    let k = n + keys.len();
    if !v.handshake_done {
        assert(all[k] == v.next_handshake_retry);
    }
    assert(all[k + retry.len()] == v.next_poll);
    assert(all[k + retry.len() + 1] == v.next_peerlist);
    if v.poll_timeout is Some {
        assert(all[k + retry.len() + 2] == v.poll_timeout->0);
    }
}

/// A tick of a node does all of it: the transfers are ticked and what they send
/// goes out, then the PINGs that are due; what the transfers report is taken from
/// them; and no peer is forgotten or found by it.
pub proof fn ticks_do_all_that_is_due(v: NodeView, now: u128)
    requires
        is_faultless(v),
        v.fault.held is None,
        v.fault.delayed.len() == 0,
        now <= u128::MAX - 60_000_000_000,
    ensures
        ({
            let w = v.ticked(now);
            let everyone = Endpoint::V4 {
                ip: 0xffff_ffff,
                port: match v.local_addr {
                    Endpoint::V4 { port, .. } => port,
                    Endpoint::V6 { port, .. } => port,
                },
            };
            let pings = if now >= v.next_ping {
                v.peers.map_values(|e: (Endpoint, PeerInfoView)| mail(e.0, ping_of(v)))
            } else {
                Seq::empty()
            };
            let beacon = if v.role == Role::Peer && now >= v.next_beacon {
                seq![mail(everyone, ping_of(v))]
            } else {
                Seq::empty()
            };
            &&& w.outbox == v.outbox + posted_mail(v.registry.tick_sends(now)) + pings + beacon
            &&& w.registry.senders == v.registry.ticked(now).senders
            &&& w.registry.receivers == v.registry.ticked(now).receivers
            &&& w.registry.events.len() == 0
            &&& w.peers == v.peers
            &&& w.next_ping == if now >= v.next_ping {
                (now + 10_000_000_000) as u128
            } else {
                v.next_ping
            }
            &&& now >= v.next_snapshot ==> w.next_snapshot == now + 5_000_000_000
            &&& now >= v.next_rank_log ==> w.next_rank_log == now + 60_000_000_000
            &&& now >= v.next_prune && v.retention_secs != 0 ==> w.next_prune == now
                + 30_000_000_000
        }),
{
    ticks_post_what_transfers_send(v, now);
    let a = v.transfers_ticked(now);
    let empty = NodeView {
        registry: crate::registry::RegistryView { events: Seq::empty(), ..a.registry },
        ..a
    };
    crate::ranking_laws::events_keep(empty, a.registry.events, now);
    let b = a.outcomes_recorded(now);
    peers_are_kept_alive(b, now);
    let f = |e: (Endpoint, PeerInfoView)| mail(e.0, ping_of(v));
    let g = |e: (Endpoint, PeerInfoView)| mail(e.0, ping_of(b));
    assert(f =~= g);
    pinging_keeps_chores(b, now);
}

proof fn pinging_keeps_chores(v: NodeView, now: u128)
    ensures
        ({
            let w = v.ping_cycled(now);
            &&& w.next_snapshot == v.next_snapshot
            &&& w.next_rank_log == v.next_rank_log
            &&& w.next_prune == v.next_prune
            &&& w.retention_secs == v.retention_secs
        }),
{
    let u = NodeView {
        next_ping: crate::transfer::after(now, crate::node::PING_INTERVAL as int),
        ..v
    };
    u.pinging_keeps(v.peers.len() as int, now);
}

/// The polls of a peer spread by the numbers that it draws, one for each poll:
/// by up to a second for the manifest, by up to two for the peerlist. What is
/// not due draws none.
pub proof fn polls_spread_by_what_is_drawn(v: PeerView, node: NodeView, now: u128)
    requires
        now <= u128::MAX - 10_000_000_000,
    ensures
        ({
            let w = v.ticked(node, now).0;
            let first = if now >= v.next_poll {
                stepped(v.rng)
            } else {
                v.rng
            };
            &&& now >= v.next_poll ==> w.next_poll == now + 2_000_000_000 + (mixed(first) % 1000)
                * 1_000_000
            &&& now >= v.next_peerlist ==> w.next_peerlist == now + 5_000_000_000 + (mixed(
                stepped(first),
            ) % 2000) * 1_000_000
            &&& w.rng == if now >= v.next_peerlist {
                stepped(first)
            } else {
                first
            }
        }),
{
}

} // verus!
