//! What holds of how a node answers.
use vstd::prelude::*;
use crate::discovery_laws::{is_faultless, mail, posting_sends_once};
use crate::endpoint::{endpoint_text, Endpoint};
use crate::laws::{lifted_are_gone, lookup_of_longer};
use crate::node::{eligible, least_loaded, viable, EventView, NodeView, Role};
use crate::peers::{untried_path, Inventory, PathState, PeerInfoView, PeerStatView};
use crate::protocol::{parsed, AckType, MessageView, SegmentAvailability};
use crate::receiver::{file_size, StepView};
use crate::registry::{sending_to, RegEvent};
use crate::sender::SenderView;
use crate::source_laws::{
    answered_lately, availability_is_what_was_told, numbers_fit, on_lan, says_it_has,
};
use crate::table::{has_key, lookup, lookup_after_put, position, position_is_first};
use crate::transfer::{is_valid_filename, numbered};

verus! {

/// A message from a known peer shows that it is alive, whatever it says: the
/// time is noted, its name stays, and no one else is touched. One from an
/// unknown address makes nobody known by itself.
pub proof fn any_message_shows_life(
    v: NodeView,
    datagram: Seq<u8>,
    src: Endpoint,
    now: u128,
)
    ensures
        ({
            let w = v.touched(src, now);
            &&& lookup(w.peers, src) == match lookup(v.peers, src) {
                Some(info) => Some(PeerInfoView { name: info.name, last_seen: now }),
                None => None,
            }
            &&& forall|q: Endpoint| q != src ==> #[trigger] lookup(w.peers, q) == lookup(
                v.peers,
                q,
            )
            &&& lookup(w.peer_stats, src) == match lookup(v.peer_stats, src) {
                Some(stat) => Some(PeerStatView { last_seen: now, ..stat }),
                None => None,
            }
            &&& forall|q: Endpoint| q != src ==> #[trigger] lookup(w.peer_stats, q) == lookup(
                v.peer_stats,
                q,
            )
            &&& w == (NodeView { peers: w.peers, peer_stats: w.peer_stats, ..v })
        }),
        match parsed(datagram) {
            Ok(m) => v.handled(datagram, src, now) == v.touched(src, now).received(m, src, now),
            Err(_) => v.handled(datagram, src, now) == (v, EventView::Nothing),
        },
{
    if let Some(info) = lookup(v.peers, src) {
        let seen = PeerInfoView { last_seen: now, ..info };
        lookup_after_put(v.peers, src, seen, src);
        assert forall|q: Endpoint| q != src implies #[trigger] lookup(
            v.touched(src, now).peers,
            q,
        ) == lookup(v.peers, q) by {
            lookup_after_put(v.peers, src, seen, q);
        }
    }
    if let Some(stat) = lookup(v.peer_stats, src) {
        let seen = PeerStatView { last_seen: now, ..stat };
        lookup_after_put(v.peer_stats, src, seen, src);
        assert forall|q: Endpoint| q != src implies #[trigger] lookup(
            v.touched(src, now).peer_stats,
            q,
        ) == lookup(v.peer_stats, q) by {
            lookup_after_put(v.peer_stats, src, seen, q);
        }
    }
}

/// A handshake request makes its sender known by its address and name, notes the
/// address that it claims, and is answered with the address that it was seen at
/// and the name of this node.
pub proof fn handshake_requests_are_answered(
    v: NodeView,
    src: Endpoint,
    claimed: Endpoint,
    name: Seq<char>,
    now: u128,
)
    requires
        is_faultless(v),
    ensures
        ({
            let (w, event) = v.received(
                MessageView::HandshakeRequest { claimed, name },
                src,
                now,
            );
            &&& event is Nothing
            &&& lookup(w.peers, src) == Some(PeerInfoView { name, last_seen: now })
            &&& lookup(w.claims, src) == Some(claimed)
            &&& lookup(w.peer_stats, src) is Some
            &&& lookup(v.peer_stats, src) is None ==> lookup(w.peer_stats, src)->0.score == 50
            &&& lookup(v.peer_stats, src) is Some ==> w.peer_stats == v.peer_stats
            &&& w.outbox == v.outbox.push(
                mail(src, MessageView::HandshakeResponse { observed: src, name: v.name }),
            )
            &&& w.my_public == v.my_public
            &&& w.registry == v.registry
        }),
{
    let u = v.registered(src, name, now);
    lookup_after_put(v.peers, src, PeerInfoView { name, last_seen: now }, src);
    lookup_after_put(v.claims, src, claimed, src);
    crate::laws::lookup_of_longer(
        v.peer_stats,
        (src, crate::peers::PeerStatView::fresh(name, now)),
        src,
    );
    let x = NodeView { claims: crate::table::put(v.claims, src, claimed), ..u };
    posting_sends_once(
        x,
        src,
        MessageView::HandshakeResponse { observed: src, name: v.name },
        now,
    );
}

/// The answer to a handshake tells this node how it is seen from outside.
pub proof fn handshake_answers_tell_the_public_address(
    v: NodeView,
    src: Endpoint,
    observed: Endpoint,
    name: Seq<char>,
    now: u128,
)
    ensures
        v.received(MessageView::HandshakeResponse { observed, name }, src, now) == (
            NodeView { my_public: Some(observed), ..v },
            EventView::HandshakeResponse { src, name },
        ),
{
}

/// A PING of another node asks for the inventory of this one, to be sent back to
/// where the PING came from. It makes an unknown sender known if it has a name,
/// and one from a private network is then on the LAN; a known sender stays as it
/// is.
pub proof fn pings_are_answered(v: NodeView, src: Endpoint, nonce: u32, name: Seq<char>, now: u128)
    requires
        nonce != v.beacon_nonce,
        src != v.local_addr,
        lookup(v.paths, src) is None,
    ensures
        ({
            let (w, event) = v.received(MessageView::Ping { nonce, name }, src, now);
            &&& event == (EventView::InventoryWanted { to: src })
            &&& if !has_key(v.peers, src) && name.len() > 0 {
                &&& lookup(w.peers, src) == Some(PeerInfoView { name, last_seen: now })
                &&& on_lan(w, src) == crate::endpoint::is_private_source(src)
            } else {
                w == v
            }
            &&& w.outbox == v.outbox
        }),
{
    let u = v.registered(src, name, now);
    let fresh = crate::peers::untried_path(now);
    lookup_after_put(v.peers, src, PeerInfoView { name, last_seen: now }, src);
    crate::laws::lookup_of_longer(v.paths, (src, fresh), src);
    lookup_after_put(u.paths, src, PathState { lan: true, ..fresh }, src);
}

/// A PONG shows that the way to its sender is open, and brings what the sender
/// has, if it says so.
pub proof fn pongs_open_the_path(
    v: NodeView,
    src: Endpoint,
    availability: Option<SegmentAvailability>,
    now: u128,
)
    ensures
        ({
            let (w, event) = v.received(MessageView::Pong { availability }, src, now);
            &&& event is Nothing
            &&& answered_lately(w, src, now)
            &&& on_lan(w, src) == on_lan(v, src)
            &&& lookup(w.inventories, src) == match availability {
                Some(availability) => Some(Inventory { availability, observed_at: now }),
                None => lookup(v.inventories, src),
            }
            &&& forall|q: Endpoint| q != src ==> #[trigger] lookup(w.paths, q) == lookup(
                v.paths,
                q,
            )
            &&& w.peers == v.peers
            &&& w.outbox == v.outbox
        }),
{
    let p = match lookup(v.paths, src) {
        Some(p) => p,
        None => crate::peers::untried_path(now),
    };
    let open = PathState { last_pong: Some(now), last_ping: now, ..p };
    lookup_after_put(v.paths, src, open, src);
    assert forall|q: Endpoint| q != src implies #[trigger] lookup(
        v.received(MessageView::Pong { availability }, src, now).0.paths,
        q,
    ) == lookup(v.paths, q) by {
        lookup_after_put(v.paths, src, open, q);
    }
    if let Some(a) = availability {
        lookup_after_put(v.inventories, src, Inventory { availability: a, observed_at: now }, src);
    }
}

/// Requests for the manifest, its arrival and that of a peerlist are handed on
/// as they are; they change nothing.
pub proof fn manifests_and_peerlists_are_handed_on(
    v: NodeView,
    src: Endpoint,
    data: Seq<u8>,
    peers: Seq<(Endpoint, u8)>,
    now: u128,
)
    ensures
        v.received(MessageView::ManifestRequest, src, now) == (
            v,
            EventView::ManifestWanted { to: src },
        ),
        v.received(MessageView::ManifestResponse { data }, src, now) == (
            v,
            EventView::ManifestResponse { data },
        ),
        v.received(MessageView::PeerlistResponse { peers }, src, now) == (
            v,
            EventView::PeerlistResponse { peers },
        ),
{
}

/// A request for a file is handed on with its number, name and sender. The file
/// is to be read only if its name is plain and fewer than 32 transfers are under
/// way.
pub proof fn segment_requests_are_handed_on(
    v: NodeView,
    src: Endpoint,
    transfer_id: u16,
    filename: Seq<char>,
    now: u128,
)
    ensures
        v.received(MessageView::SegmentRequest { transfer_id, filename }, src, now) == (
            v,
            EventView::SegmentWanted {
                transfer_id,
                filename,
                src,
                readable: is_valid_filename(filename) && v.registry.senders.len()
                    + v.registry.receivers.len() < 32,
            },
        ),
{
}

/// A packet goes to the download with its number, and to no other. What that
/// download answers goes to its source; a file that is complete is handed on
/// with its name. A packet for no download changes nothing.
pub proof fn packets_go_to_their_download(
    v: NodeView,
    src: Endpoint,
    id: u16,
    k: u16,
    total: u16,
    data: Seq<u8>,
    now: u128,
)
    requires
        is_faultless(v),
    ensures
        ({
            let m = MessageView::SegmentContents {
                transfer_id: id,
                packet_number: k,
                total_packets: total,
                data,
            };
            let (w, event) = v.received(m, src, now);
            match lookup(v.registry.receivers, id) {
                Some(r) => {
                    let (next, step) = r.content(v.registry.settings, k, total, data, now);
                    &&& lookup(w.registry.receivers, id) == Some(next)
                    &&& forall|other: u16| other != id ==> #[trigger] lookup(
                        w.registry.receivers,
                        other,
                    ) == lookup(v.registry.receivers, other)
                    &&& w.registry.senders == v.registry.senders
                    &&& w.registry.events == v.registry.events
                    &&& match step {
                        StepView::Idle => event is Nothing && w.outbox == v.outbox,
                        StepView::Reply(answer) => event is Nothing && w.outbox == v.outbox.push(
                            mail(r.remote, answer),
                        ),
                        StepView::Save(file) => event == (EventView::Downloaded {
                            transfer_id: id,
                            filename: r.filename,
                            data: file,
                        }) && w.outbox == v.outbox,
                    }
                },
                None => w == v && event is Nothing,
            }
        }),
{
    if let Some(r) = lookup(v.registry.receivers, id) {
        let (next, step) = r.content(v.registry.settings, k, total, data, now);
        lookup_after_put(v.registry.receivers, id, next, id);
        let u = NodeView { registry: v.registry.with_receiver(id, next), ..v };
        if let StepView::Reply(answer) = step {
            posting_sends_once(u, r.remote, answer, now);
        }
        assert forall|other: u16| other != id implies #[trigger] lookup(
            v.registry.with_receiver(id, next).receivers,
            other,
        ) == lookup(v.registry.receivers, other) by {
            lookup_after_put(v.registry.receivers, id, next, other);
        }
    }
}

/// A refusal ends the download that it names, as one whose source lacks the
/// file, for the moment or at all. What the refusing peer says that it has is
/// noted. A refusal that is not for the moment is remembered of this very file.
pub proof fn refusals_end_their_download(
    v: NodeView,
    src: Endpoint,
    id: u16,
    availability: Option<SegmentAvailability>,
    retryable: bool,
    now: u128,
)
    ensures
        ({
            let m = MessageView::SegmentNotFound { transfer_id: id, availability, retryable };
            let (w, event) = v.received(m, src, now);
            &&& event is Nothing
            &&& w.outbox == v.outbox
            &&& availability matches Some(a) ==> lookup(w.inventories, src) == Some(
                Inventory { availability: a, observed_at: now },
            )
            &&& availability is None ==> w.inventories == v.inventories
            &&& match lookup(v.registry.receivers, id) {
                Some(r) => {
                    &&& lookup(w.registry.receivers, id) matches Some(next) && {
                        &&& next.outcome is Some && next.outcome->0 is Err
                        &&& next.not_found
                        &&& next.retryable == retryable
                        &&& next.unresponsive == r.unresponsive
                        &&& next.parts == r.parts
                    }
                    &&& !retryable ==> lookup(w.refusals, (r.filename, src)) == Some(now)
                    &&& retryable && availability is None ==> w.refusals == v.refusals
                },
                None => w.registry == v.registry && (availability is None ==> w == v),
            }
        }),
{
    let u = v.inventory_recorded(src, availability, now);
    if let Some(a) = availability {
        lookup_after_put(v.inventories, src, Inventory { availability: a, observed_at: now }, src);
    }
    if let Some(r) = lookup(v.registry.receivers, id) {
        let next = (crate::receiver::ReceiverView { not_found: true, retryable, ..r }).failed(
            "peer does not have "@ + r.filename,
            now,
        );
        lookup_after_put(v.registry.receivers, id, next, id);
        let live = crate::node::live_refusals(u.refusals, now);
        lookup_after_put(live, (r.filename, src), now, (r.filename, src));
    }
}

/// An ACK goes to the transfer with its number, and to no other; it is never
/// answered.
pub proof fn acks_go_to_their_transfer(
    v: NodeView,
    src: Endpoint,
    id: u16,
    ack_type: AckType,
    start: u16,
    count: u16,
    now: u128,
)
    requires
        v.wf(),
    ensures
        ({
            let m = MessageView::Ack {
                transfer_id: id,
                ack_type,
                next_start: start,
                next_count: count,
            };
            let (w, event) = v.received(m, src, now);
            &&& event is Nothing
            &&& w == (NodeView { registry: w.registry, ..v })
            &&& w.registry.receivers == v.registry.receivers
            &&& forall|other: u16| other != id ==> #[trigger] lookup(w.registry.senders, other)
                == lookup(v.registry.senders, other)
            &&& match lookup(v.registry.senders, id) {
                Some(t) => lookup(w.registry.senders, id) == if ack_type == AckType::Complete {
                    None
                } else {
                    Some(t.acked(v.registry.settings, start, count, now))
                },
                None => w == v,
            }
        }),
{
    crate::table::lookup_after_removed(v.registry.senders, id, id);
    if let Some(t) = lookup(v.registry.senders, id) {
        let next = t.acked(v.registry.settings, start, count, now);
        lookup_after_put(v.registry.senders, id, next, id);
    }
    assert forall|other: u16| other != id implies #[trigger] lookup(
        v.registry.acked(id, ack_type, start, count, now).senders,
        other,
    ) == lookup(v.registry.senders, other) by {
        crate::table::lookup_after_removed(v.registry.senders, id, other);
        if let Some(t) = lookup(v.registry.senders, id) {
            lookup_after_put(
                v.registry.senders,
                id,
                t.acked(v.registry.settings, start, count, now),
                other,
            );
        }
    }
}

/// A download that has been saved is a success of so many bytes, and its source
/// is sent the final word.
pub proof fn saved_downloads_are_acknowledged(v: NodeView, id: u16, now: u128)
    requires
        is_faultless(v),
        lookup(v.registry.receivers, id) is Some,
    ensures
        ({
            let w = v.saved(id, now);
            let r = lookup(v.registry.receivers, id)->0;
            &&& lookup(w.registry.receivers, id) matches Some(next) && {
                &&& next.outcome == Some(Ok::<(), Seq<char>>(()))
                &&& next.saved_bytes == Some(file_size(r.parts) as u64)
            }
            &&& w.outbox == v.outbox.push(
                mail(
                    r.remote,
                    MessageView::Ack {
                        transfer_id: r.transfer_id,
                        ack_type: AckType::Complete,
                        next_start: 0,
                        next_count: 0,
                    },
                ),
            )
        }),
{
    let r = lookup(v.registry.receivers, id)->0;
    lookup_after_put(v.registry.receivers, id, r.saved(now), id);
    let u = NodeView { registry: v.registry.with_receiver(id, r.saved(now)), ..v };
    posting_sends_once(u, r.remote, r.complete(), now);
}

// ---------------------------------------------------------------------------
// Serving

/// Whether a peer is known and has answered within the last thirty seconds.
pub open spec fn is_in_reach(v: NodeView, p: Endpoint, now: u128) -> bool {
    has_key(v.peers, p) && answered_lately(v, p, now)
}

/// The peers that hold a grant for a file.
pub open spec fn holders(v: NodeView, file: Seq<char>) -> Seq<Endpoint> {
    if lookup(v.leases, file) is Some {
        lookup(v.leases, file)->0
    } else {
        Seq::empty()
    }
}

/// Whether a known peer in reach other than `src` says that it has a file.
pub open spec fn is_elsewhere(v: NodeView, file: Seq<char>, src: Endpoint, now: u128) -> bool {
    exists|q: Endpoint|
        #[trigger] is_in_reach(v, q, now) && q != src && says_it_has(v, q, file, now)
}

proof fn viable_are_in_reach(v: NodeView, list: Seq<Endpoint>, now: u128)
    ensures
        viable(v, list, now) == list.filter(|p: Endpoint| is_in_reach(v, p, now)),
    decreases list.len(),
{
    reveal(Seq::filter);
    if list.len() > 0 {
        viable_are_in_reach(v, list.drop_last(), now);
    } else {
        assert(viable(v, list, now) =~= list.filter(|p: Endpoint| is_in_reach(v, p, now)));
    }
}

/// Who is granted a file that is there: everyone by a node that is no master. A
/// master grants it to those that hold a grant already, and to one more as long
/// as fewer holders are in reach than it may have, or where no other peer in
/// reach says that it has the file. Holders that are out of reach make room.
pub proof fn grants_are_few(v: NodeView, file: Seq<char>, src: Endpoint, now: u128)
    ensures
        ({
            let (w, granted) = v.seeding(file, src, now);
            let held = holders(v, file);
            let alive = held.filter(|p: Endpoint| is_in_reach(v, p, now));
            &&& granted == (v.role == Role::Peer || held.contains(src) || alive.len()
                < v.seed_limit || !is_elsewhere(v, file, src, now))
            &&& if v.role == Role::Peer || held.contains(src) {
                w == v
            } else if granted {
                &&& holders(w, file) == alive.push(src)
                &&& w.totals.seeds_assigned == (v.totals.seeds_assigned + 1)
                    % 0x1_0000_0000_0000_0000
                &&& w.totals.seeds_denied == v.totals.seeds_denied
            } else {
                &&& w.leases == v.leases
                &&& w.totals.seeds_denied == (v.totals.seeds_denied + 1)
                    % 0x1_0000_0000_0000_0000
                &&& w.totals.seeds_assigned == v.totals.seeds_assigned
            }
            &&& w == (NodeView { leases: w.leases, totals: w.totals, ..v })
        }),
{
    let held = holders(v, file);
    viable_are_in_reach(v, held, now);
    let alive = viable(v, held, now);
    lookup_after_put(v.leases, file, alive.push(src), file);
    assert(v.copy_elsewhere(file, src, now) == is_elsewhere(v, file, src, now)) by {
        if v.copy_elsewhere(file, src, now) {
            let i = choose|i: int|
                0 <= i < v.peers.len() && (#[trigger] v.peers[i]).0 != src && v.reachable(
                    v.peers[i].0,
                    now,
                ) && v.peer_availability(v.peers[i].0, file, now) == Some(true);
            availability_is_what_was_told(v, v.peers[i].0, file, now);
            assert(is_in_reach(v, v.peers[i].0, now));
        }
        if is_elsewhere(v, file, src, now) {
            let q = choose|q: Endpoint|
                #[trigger] is_in_reach(v, q, now) && q != src && says_it_has(v, q, file, now);
            availability_is_what_was_told(v, q, file, now);
            position_is_first(v.peers, q, 0);
            let i = position(v.peers, q)->0;
            assert(v.peers[i].0 == q);
        }
    }
}

/// How a request for a file is answered. One that cannot be looked at, or whose
/// file is not there, is refused for good, and reported as asked for in vain.
/// One that is granted starts a transfer of the file to the one who asked, under
/// the number that it gave. One that is not granted is put off: it is refused
/// for the moment, and nothing is reported. The refusals say what this node has.
pub proof fn requests_are_served_refused_or_put_off(
    v: NodeView,
    id: u16,
    file: Seq<char>,
    src: Endpoint,
    data: Option<Seq<u8>>,
    inventory: Option<SegmentAvailability>,
    now: u128,
)
    requires
        is_faultless(v),
    ensures
        ({
            let w = v.serving(id, file, src, data, inventory, now);
            let refusal = |retryable: bool|
                MessageView::SegmentNotFound { transfer_id: id, availability: inventory, retryable };
            let looked_at = is_valid_filename(file) && v.registry.senders.len()
                + v.registry.receivers.len() < 32;
            let granted = v.seeding(file, src, now).1;
            &&& w.registry.receivers == v.registry.receivers
            &&& if !looked_at || data is None {
                &&& w.outbox == v.outbox.push(mail(src, refusal(false)))
                &&& w.registry.events == v.registry.events.push(RegEvent::NotFound { src })
                &&& w.registry.senders == v.registry.senders
                &&& w.leases == v.leases
            } else if granted {
                &&& w.outbox == v.outbox
                &&& w.registry.events == v.registry.events
                &&& lookup(w.registry.senders, id) matches Some(t) && {
                    &&& t.transfer_id == id
                    &&& t.remote == src
                    &&& t.file == data->0
                    &&& t.send_deadline == now
                    &&& t.range_sent == 0
                    &&& t.range.0 == 1
                }
                &&& forall|other: u16| other != id ==> #[trigger] lookup(
                    w.registry.senders,
                    other,
                ) == lookup(v.registry.senders, other)
            } else {
                &&& w.outbox == v.outbox.push(mail(src, refusal(true)))
                &&& w.registry == v.registry
            }
        }),
{
    let looked_at = is_valid_filename(file) && v.registry.senders.len()
        + v.registry.receivers.len() < 32;
    let refusal = |retryable: bool|
        MessageView::SegmentNotFound { transfer_id: id, availability: inventory, retryable };
    if !looked_at || data is None {
        let u = NodeView { registry: v.registry.refused(src), ..v };
        posting_sends_once(u, src, refusal(false), now);
    } else {
        grants_are_few(v, file, src, now);
        let (u, granted) = v.seeding(file, src, now);
        posting_sends_once(u, src, refusal(true), now);
        if granted {
            let t = SenderView::started(id, src, data->0, now);
            lookup_after_put(v.registry.senders, id, t, id);
            assert forall|other: u16| other != id implies #[trigger] lookup(
                v.serving(id, file, src, data, inventory, now).registry.senders,
                other,
            ) == lookup(v.registry.senders, other) by {
                lookup_after_put(v.registry.senders, id, t, other);
            }
        }
    }
}

proof fn announcements_are_posted(
    v: NodeView,
    availability: Option<SegmentAvailability>,
    n: int,
    now: u128,
)
    requires
        is_faultless(v),
        0 <= n <= v.peers.len(),
    ensures
        v.announced(availability, n, now) == (NodeView {
            outbox: v.outbox + v.peers.take(n).map_values(
                |e: (Endpoint, PeerInfoView)| mail(e.0, MessageView::Pong { availability }),
            ),
            ..v
        }),
    decreases n,
{
    let m = MessageView::Pong { availability };
    let f = |e: (Endpoint, PeerInfoView)| mail(e.0, MessageView::Pong { availability });
    if n > 0 {
        announcements_are_posted(v, availability, n - 1, now);
        let u = v.announced(availability, n - 1, now);
        posting_sends_once(u, v.peers[n - 1].0, m, now);
        assert(v.outbox + v.peers.take(n).map_values(f) =~= (v.outbox + v.peers.take(
            n - 1,
        ).map_values(f)).push(mail(v.peers[n - 1].0, m)));
    } else {
        assert(v.outbox + v.peers.take(n).map_values(f) =~= v.outbox);
    }
}

/// What a node has is told to every known peer, once each.
pub proof fn everyone_is_told(v: NodeView, availability: Option<SegmentAvailability>, now: u128)
    requires
        is_faultless(v),
    ensures
        v.announced(availability, v.peers.len() as int, now) == (NodeView {
            outbox: v.outbox + v.peers.map_values(
                |e: (Endpoint, PeerInfoView)| mail(e.0, MessageView::Pong { availability }),
            ),
            ..v
        }),
{
    announcements_are_posted(v, availability, v.peers.len() as int, now);
    assert(v.peers.take(v.peers.len() as int) =~= v.peers);
}

// ---------------------------------------------------------------------------
// Peerlists

/// The peers that one who asks is told of: known peers other than itself, and
/// across the internet only those that can be reached there.
pub open spec fn is_told(src: Endpoint, p: Endpoint) -> bool {
    p != src && (crate::endpoint::is_remote_public(src) ==> crate::endpoint::is_remote_public(p))
}

proof fn eligible_are_told(peers: Seq<(Endpoint, PeerInfoView)>, src: Endpoint)
    ensures
        eligible(peers, src) == peers.filter(
            |e: (Endpoint, PeerInfoView)| is_told(src, e.0),
        ).map_values(|e: (Endpoint, PeerInfoView)| e.0),
    decreases peers.len(),
{
    let f = |e: (Endpoint, PeerInfoView)| is_told(src, e.0);
    let g = |e: (Endpoint, PeerInfoView)| e.0;
    reveal(Seq::filter);
    if peers.len() > 0 {
        eligible_are_told(peers.drop_last(), src);
        let some = peers.drop_last().filter(f);
        if f(peers.last()) {
            assert(some.push(peers.last()).map_values(g) =~= some.map_values(g).push(
                peers.last().0,
            ));
        }
        assert(eligible(peers, src) =~= peers.filter(f).map_values(g));
    } else {
        assert(eligible(peers, src) =~= peers.filter(f).map_values(g));
    }
}

/// How many files are on their way to a peer.
pub open spec fn load_of(v: NodeView, p: Endpoint) -> nat {
    v.registry.senders.filter(|e: (u16, SenderView)| e.1.remote == p).len()
}

proof fn loads_are_counted(senders: Seq<(u16, SenderView)>, p: Endpoint)
    ensures
        sending_to(senders, p) == senders.filter(
            |e: (u16, SenderView)| e.1.remote == p,
        ).len(),
    decreases senders.len(),
{
    reveal(Seq::filter);
    if senders.len() > 0 {
        loads_are_counted(senders.drop_last(), p);
    }
}

proof fn least_is_least(v: NodeView, list: Seq<Endpoint>, n: int, skip: Option<int>)
    requires
        0 <= n <= list.len(),
    ensures
        match least_loaded(v.registry, list, n, skip) {
            Some(b) => 0 <= b < n && skip != Some(b) && forall|i: int|
                0 <= i < n && skip != Some(i) ==> v.registry.load(list[b]) <= v.registry.load(
                    #[trigger] list[i],
                ),
            None => forall|i: int| 0 <= i < n ==> skip == Some(i),
        },
    decreases n,
{
    if n > 0 {
        least_is_least(v, list, n - 1, skip);
    }
}

/// A peerlist tells of the first sixteen peers that the one who asks may be told
/// of, all of them if there are fewer. The bits of an entry's flags say whether
/// the claimed address of the peer is the one that it was seen at, whether it
/// shares the IPv4 address of the one who asks, and whether it is a preferred
/// source.
pub proof fn peerlist_tells_of_peers(v: NodeView, src: Endpoint)
    ensures
        ({
            let told = v.peers.filter(
                |e: (Endpoint, PeerInfoView)| is_told(src, e.0),
            ).map_values(|e: (Endpoint, PeerInfoView)| e.0);
            let list = v.peerlist(src);
            let n = if told.len() <= 16 {
                told.len()
            } else {
                16
            };
            &&& list.len() == n
            &&& forall|i: int|
                0 <= i < n ==> {
                    let (p, flags) = #[trigger] list[i];
                    &&& p == told[i]
                    &&& flags % 2 == 1 <==> lookup(v.claims, p) == Some(p)
                    &&& flags / 2 % 2 == 1 <==> (p matches Endpoint::V4 { ip: a, .. } && src matches
                        Endpoint::V4 { ip: b, .. } && a == b)
                    &&& flags < 8
                }
        }),
{
    eligible_are_told(v.peers, src);
}

/// Whether entry `i` of a peerlist is marked as a preferred source.
pub open spec fn is_marked(v: NodeView, src: Endpoint, i: int) -> bool {
    v.peerlist(src)[i].1 / 4 % 2 == 1
}

/// A master marks two entries of a peerlist as preferred sources, one where
/// there is only one: those to which the fewest files are on their way. No other
/// node marks any.
pub proof fn least_loaded_are_preferred(v: NodeView, src: Endpoint, i: int, j: int)
    requires
        0 <= i < v.peerlist(src).len(),
        0 <= j < v.peerlist(src).len(),
        i != j,
    ensures
        v.role == Role::Peer ==> !is_marked(v, src, i),
        v.role == Role::Master && is_marked(v, src, i) && !is_marked(v, src, j) ==> load_of(
            v,
            v.peerlist(src)[i].0,
        ) <= load_of(v, v.peerlist(src)[j].0),
        v.role == Role::Master && v.peerlist(src).len() == 2 ==> is_marked(v, src, i),
        v.role == Role::Master ==> exists|a: int, b: int|
            0 <= a < v.peerlist(src).len() && 0 <= b < v.peerlist(src).len() && a != b
                && #[trigger] is_marked(v, src, a) && #[trigger] is_marked(v, src, b),
{
    let list = v.listed(src);
    let n = list.len() as int;
    least_is_least(v, list, n, None);
    let first = least_loaded(v.registry, list, n, None);
    least_is_least(v, list, n, first);
    let second = least_loaded(v.registry, list, n, first);
    loads_are_counted(v.registry.senders, list[i]);
    loads_are_counted(v.registry.senders, list[j]);
    if v.role == Role::Master {
        let a = first->0;
        assert(second is Some) by {
            if second is None {
                assert(first == Some(i) && first == Some(j));
            }
        }
        let b = second->0;
        assert(is_marked(v, src, a));
        assert(is_marked(v, src, b));
    }
}

// ---------------------------------------------------------------------------
// What is remembered

/// A refusal is remembered of its file and peer with its time; of the others
/// those of the last fifteen seconds are kept, and no more.
pub proof fn refusals_are_remembered_for_a_while(
    v: NodeView,
    peer: Endpoint,
    file: Seq<char>,
    now: u128,
)
    ensures
        ({
            let w = v.refusal_recorded(peer, file, now);
            let kept = v.refusals.filter(
                |e: ((Seq<char>, Endpoint), u128)|
                    crate::transfer::since(now, e.1) <= 15_000_000_000,
            );
            &&& lookup(w.refusals, (file, peer)) == Some(now)
            &&& forall|key: (Seq<char>, Endpoint)|
                key != (file, peer) ==> #[trigger] lookup(w.refusals, key) == lookup(kept, key)
            &&& w == (NodeView { refusals: w.refusals, ..v })
        }),
{
    live_are_filtered(v.refusals, now);
    let live = crate::node::live_refusals(v.refusals, now);
    lookup_after_put(live, (file, peer), now, (file, peer));
    assert forall|key: (Seq<char>, Endpoint)| key != (file, peer) implies #[trigger] lookup(
        v.refusal_recorded(peer, file, now).refusals,
        key,
    ) == lookup(live, key) by {
        lookup_after_put(live, (file, peer), now, key);
    }
}

proof fn live_are_filtered(s: Seq<((Seq<char>, Endpoint), u128)>, now: u128)
    ensures
        crate::node::live_refusals(s, now) == s.filter(
            |e: ((Seq<char>, Endpoint), u128)|
                crate::transfer::since(now, e.1) <= 15_000_000_000,
        ),
    decreases s.len(),
{
    let f = |e: ((Seq<char>, Endpoint), u128)|
        crate::transfer::since(now, e.1) <= 15_000_000_000;
    reveal(Seq::filter);
    if s.len() > 0 {
        live_are_filtered(s.drop_last(), now);
    } else {
        assert(crate::node::live_refusals(s, now) =~= s.filter(f));
    }
}

/// An inventory is noted with the time it came. It lifts the refusals by its
/// sender of segments that it says are there, and no other one: not of a segment
/// that it says is missing or does not cover, and not by another peer.
pub proof fn inventories_lift_refusals(
    v: NodeView,
    peer: Endpoint,
    availability: SegmentAvailability,
    file: Seq<char>,
    by: Endpoint,
    now: u128,
)
    ensures
        ({
            let w = v.inventory_recorded(peer, Some(availability), now);
            let there = numbered(file) matches Some(n) && n <= availability.newest
                && availability.newest - n < 16 && availability.mask & (1u16 << (
            (availability.newest - n) as u16)) != 0;
            &&& lookup(w.inventories, peer) == Some(Inventory { availability, observed_at: now })
            &&& by != peer ==> lookup(w.inventories, by) == lookup(v.inventories, by)
            &&& lookup(w.refusals, (file, by)) == if by == peer && there {
                None
            } else {
                lookup(v.refusals, (file, by))
            }
            &&& w == (NodeView { inventories: w.inventories, refusals: w.refusals, ..v })
            &&& v.inventory_recorded(peer, None, now) == v
        }),
{
    lifted_are_gone(v.refusals, peer, availability, (file, by));
    numbers_fit(file);
    lookup_after_put(
        v.inventories,
        peer,
        Inventory { availability, observed_at: now },
        by,
    );
}

/// A peer that registers goes by the name and time of its registration; its
/// statistics and the state of its path stay where they are known, and begin
/// anew where they are not.
pub proof fn registering_keeps_what_is_known(
    v: NodeView,
    addr: Endpoint,
    name: Seq<char>,
    now: u128,
)
    ensures
        ({
            let w = v.registered(addr, name, now);
            &&& lookup(w.peers, addr) == Some(PeerInfoView { name, last_seen: now })
            &&& lookup(w.paths, addr) == match lookup(v.paths, addr) {
                Some(path) => Some(path),
                None => Some(PathState { last_ping: now, last_pong: None, lan: false }),
            }
            &&& match lookup(v.peer_stats, addr) {
                Some(stat) => lookup(w.peer_stats, addr) == Some(stat),
                None => lookup(w.peer_stats, addr) matches Some(stat) && stat.name == name
                    && stat.score == 50 && stat.pulls == 0 && stat.served == 0,
            }
        }),
{
    lookup_after_put(v.peers, addr, PeerInfoView { name, last_seen: now }, addr);
    let path = untried_path(now);
    let stat = PeerStatView::fresh(name, now);
    lookup_of_longer(v.paths, (addr, path), addr);
    lookup_of_longer(v.peer_stats, (addr, stat), addr);
    position_is_first(v.paths, addr, 0);
    position_is_first(v.peer_stats, addr, 0);
}

/// What is recorded of a peer that is not known goes by its address.
pub proof fn unknown_peers_go_by_their_address(v: NodeView, peer: Endpoint, now: u128)
    requires
        lookup(v.peer_stats, peer) is None,
    ensures
        v.stat_of(peer, now).name == match lookup(v.peers, peer) {
            Some(info) => info.name,
            None => endpoint_text(peer),
        },
{
}

} // verus!
