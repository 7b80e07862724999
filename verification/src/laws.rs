//! What holds of the parts of a node together.
use vstd::prelude::*;
use crate::endpoint::{is_private_source, is_remote_public, Endpoint};
use crate::fault::{mixed, no_fault_is_transparent, stepped, DatagramView};
use crate::node::{
    eligible, is_lifted, lan_twin, live_peers, live_refusals, standing_refusals, viable, EventView,
    NodeView, Role,
};
use crate::peer::{
    advertised, drawn, inflight, only, preferred, JobView, PeerView, MAX_INFLIGHT_PER_PEER,
    MAX_PARALLEL_DOWNLOADS,
};
use crate::peers::{known_copy, still_counts, Inventory, PeerInfoView, PeerStatView, PullResult};
use crate::protocol::{
    datagram_of, decode_undoes_encode, inventory_says, parsed, plain_endpoint, representable,
    MessageView, SegmentAvailability,
};
use crate::receiver::{all_received, range_received, ReceiverView, StepView};
use crate::registry::ticked_receivers;
use crate::sender::SenderView;
use crate::table::{
    distinct, has_key, lookup, lookup_after_put, position, position_is_first, put, removed,
};
use crate::transfer::{after, since, Settings};

verus! {

// ---------------------------------------------------------------------------
// Transfers

/// A datagram with a packet of a file has at most 1414 bytes.
pub proof fn packets_fit_datagrams(v: SenderView, k: int)
    requires
        v.wf(),
        1 <= k <= v.total_packets,
    ensures
        datagram_of(v.contents(k)).len() <= 1414,
{
    reveal_with_fuel(crate::protocol::big_endian, 3);
    crate::sender::packet_within(v.file, k);
}

/// A sender goes on with exactly the range that a receiver of its file names.
pub proof fn sender_follows_receiver(
    sender: SenderView,
    receiver: ReceiverView,
    s: Settings,
    now: u128,
)
    requires
        sender.wf(),
        receiver.wf(),
        receiver.parts.len() == sender.total_packets,
        receiver.range is Some,
    ensures
        ({
            let (start, count) = receiver.range->0;
            start <= sender.total_packets ==> sender.acked(s, start, count, now).range == (
                start,
                count,
            )
        }),
{
}

/// When the last packet that was missing of a range comes, the download is
/// complete, or goes on with the next range and asks for it.
pub proof fn last_packet_moves_on(
    v: ReceiverView,
    s: Settings,
    k: u16,
    total: u16,
    data: Seq<u8>,
    now: u128,
)
    requires
        v.wf(),
        v.outcome is None,
        v.range is Some,
        ({
            let (start, count) = v.range->0;
            &&& start <= k < start + count
            &&& v.parts[k - 1] is None
            &&& forall|j: int|
                start <= j < start + count && j != k ==> (#[trigger] v.parts[j - 1]) is Some
        }),
    ensures
        ({
            let (w, step) = v.content(s, k, total, data, now);
            let range = v.range->0;
            ||| step is Save && all_received(w.parts)
            ||| {
                &&& w.range == Some(v.next_range(range))
                &&& step == StepView::Reply(w.progress(v.next_range(range)))
            }
        }),
{
    let (start, count) = v.range->0;
    let w = v.stored(s, k, data, now);
    assert(range_received(w.parts, start as int, count as int));
}

/// A packet after the end repeats the final ACK, and changes nothing: a lost
/// one is made good.
pub proof fn lost_final_ack_is_repeated(
    v: ReceiverView,
    s: Settings,
    k: u16,
    total: u16,
    data: Seq<u8>,
    now: u128,
)
    requires
        v.outcome == Some(Ok::<(), Seq<char>>(())),
    ensures
        v.content(s, k, total, data, now) == (v, StepView::Reply(v.complete())),
{
}

/// A download that has been saved stays for its grace period, four seconds,
/// whatever ticks.
pub proof fn saved_download_lingers(
    receivers: Seq<(u16, ReceiverView)>,
    i: int,
    s: Settings,
    saved_at: u128,
    now: u128,
)
    requires
        0 <= i < receivers.len(),
        receivers[i].1.outcome is Some,
        receivers[i].1.deadline == after(saved_at, 4_000_000_000),
        saved_at <= now,
        now - saved_at < 4_000_000_000,
        now < u128::MAX,
    ensures
        ticked_receivers(receivers, s, now).0.contains(receivers[i]),
    decreases receivers.len(),
{
    let rest = receivers.drop_last();
    let before = ticked_receivers(rest, s, now).0;
    let kept = ticked_receivers(receivers, s, now).0;
    if i < rest.len() {
        saved_download_lingers(rest, i, s, saved_at, now);
        let j = choose|j: int| 0 <= j < before.len() && before[j] == receivers[i];
        assert(kept[j] == receivers[i]);
    } else {
        assert(receivers.last() == receivers[i]);
        assert(kept[kept.len() - 1] == receivers[i]);
    }
}

/// The request for a file is repeated once at most.
pub proof fn request_is_repeated_once(v: ReceiverView, s: Settings, now: u128, then: u128)
    requires
        v.resend_due(s, now),
    ensures
        v.resent(s, now).request_resent,
        !v.resent(s, now).resend_due(s, then),
{
}

// ---------------------------------------------------------------------------
// Nodes

/// What is no message changes nothing and is not answered.
pub proof fn malformed_is_dropped(v: NodeView, datagram: Seq<u8>, src: Endpoint, now: u128)
    requires
        parsed(datagram) is Err,
    ensures
        v.handled(datagram, src, now) == (v, EventView::Nothing),
{
}

/// A node learns its public endpoint from a handshake: the responder answers
/// with the address that it saw, and the requester takes it for its own.
pub proof fn handshake_tells_public_endpoint(
    requester: NodeView,
    responder: NodeView,
    claimed: Endpoint,
    seen: Endpoint,
    at: Endpoint,
    now: u128,
    then: u128,
)
    requires
        !responder.fault.enabled(),
        plain_endpoint(seen),
        representable(MessageView::HandshakeRequest { claimed, name: requester.name }),
        representable(MessageView::HandshakeResponse { observed: seen, name: responder.name }),
    ensures
        ({
            let request = MessageView::HandshakeRequest { claimed, name: requester.name };
            let answer = MessageView::HandshakeResponse { observed: seen, name: responder.name };
            let after_request = responder.handled(datagram_of(request), seen, now).0;
            let learned = requester.handled(datagram_of(answer), at, then);
            &&& after_request.outbox == responder.outbox.push(
                DatagramView { bytes: datagram_of(answer), to: seen },
            )
            &&& has_key(after_request.peers, seen)
            &&& learned.0.my_public == Some(seen)
            &&& learned.1 == (EventView::HandshakeResponse { src: at, name: responder.name })
        }),
{
    let request = MessageView::HandshakeRequest { claimed, name: requester.name };
    let answer = MessageView::HandshakeResponse { observed: seen, name: responder.name };
    decode_undoes_encode(request);
    decode_undoes_encode(answer);
    let d = DatagramView { bytes: datagram_of(answer), to: seen };
    no_fault_is_transparent(responder.fault, d, now);
    let v = responder.touched(seen, now);
    let info = PeerInfoView { name: requester.name, last_seen: now };
    lookup_after_put(v.peers, seen, info, seen);
    let after_request = responder.handled(datagram_of(request), seen, now).0;
    assert(after_request.outbox =~= responder.outbox.push(d));
}

/// A node does not take its own beacon for a peer.
pub proof fn own_beacon_is_ignored(v: NodeView, name: Seq<char>, src: Endpoint, now: u128)
    ensures
        v.received(MessageView::Ping { nonce: v.beacon_nonce, name }, src, now) == (
            v,
            EventView::Nothing,
        ),
{
}

/// A peer that is found by its PING is on the LAN exactly if its address is
/// private, and is told apart from all others by its address, whatever its
/// name.
pub proof fn discovery_marks_lan(v: NodeView, src: Endpoint, name: Seq<char>, now: u128)
    requires
        v.wf(),
        !has_key(v.peers, src),
        !has_key(v.paths, src),
    ensures
        v.discovered(src, name, now).is_lan_path(src) == is_private_source(src),
        v.discovered(src, name, now).peers == v.peers.push(
            (src, PeerInfoView { name, last_seen: now }),
        ),
{
    let w = v.registered(src, name, now);
    let n = v.paths.len() as int;
    position_is_first(v.paths, src, 0);
    position_is_first(w.paths, src, 0);
    assert(w.paths[n].0 == src);
    crate::table::position_known(w.paths, src, n);
    let p = lookup(w.paths, src).unwrap();
    lookup_after_put(w.paths, src, crate::peers::PathState { lan: true, ..p }, src);
}

/// An address is only ever replaced by a LAN path of the same name.
pub proof fn effective_address_is_lan(v: NodeView, addr: Endpoint)
    ensures
        v.effective_addr(addr) == addr || v.is_lan_path(v.effective_addr(addr)),
{
    if let Some(info) = lookup(v.peers, addr) {
        twin_is_lan(v, info.name, addr, 0);
    }
}

proof fn twin_is_lan(v: NodeView, name: Seq<char>, addr: Endpoint, i: int)
    requires
        0 <= i,
    ensures
        lan_twin(v, name, addr, i) matches Some(a) ==> v.is_lan_path(a),
    decreases v.peers.len() - i,
{
    if i < v.peers.len() {
        twin_is_lan(v, name, addr, i + 1);
    }
}

proof fn eligible_are_known(peers: Seq<(Endpoint, PeerInfoView)>, src: Endpoint, i: int)
    requires
        0 <= i < eligible(peers, src).len(),
    ensures
        eligible(peers, src)[i] != src,
        is_remote_public(src) ==> is_remote_public(eligible(peers, src)[i]),
        exists|j: int| 0 <= j < peers.len() && (#[trigger] peers[j]).0 == eligible(peers, src)[i],
    decreases peers.len(),
{
    let rest = eligible(peers.drop_last(), src);
    if i < rest.len() {
        eligible_are_known(peers.drop_last(), src, i);
        let j = choose|j: int|
            0 <= j < peers.drop_last().len() && (#[trigger] peers.drop_last()[j]).0 == rest[i];
        assert(peers[j].0 == eligible(peers, src)[i]);
    } else {
        assert(peers[peers.len() - 1].0 == eligible(peers, src)[i]);
    }
}

/// A peerlist has at most sixteen entries: known peers other than the
/// requester, and across the internet only such as can be reached.
pub proof fn peerlist_is_bounded(v: NodeView, src: Endpoint, i: int)
    requires
        0 <= i < v.peerlist(src).len(),
    ensures
        v.peerlist(src).len() <= 16,
        v.peerlist(src)[i].0 != src,
        is_remote_public(src) ==> is_remote_public(v.peerlist(src)[i].0),
        exists|j: int|
            0 <= j < v.peers.len() && (#[trigger] v.peers[j]).0 == v.peerlist(src)[i].0,
{
    eligible_are_known(v.peers, src, i);
}

/// Whether an entry of a peerlist is a preferred source.
pub open spec fn is_parent(v: NodeView, src: Endpoint, i: int) -> bool {
    crate::peer::says_parent(v.peer_flags(src, i))
}

/// At most two entries of a peerlist are preferred sources, and only a master
/// names any.
pub proof fn parents_are_few(v: NodeView, src: Endpoint, i: int, j: int, k: int)
    requires
        0 <= i < j < k < v.peerlist(src).len(),
    ensures
        !(is_parent(v, src, i) && is_parent(v, src, j) && is_parent(v, src, k)),
        v.role != Role::Master ==> !is_parent(v, src, i),
{
}

/// A peer that was granted a copy from the origin keeps the grant: it is
/// granted again, whatever else was granted or denied for other files.
pub proof fn grant_stays_valid(
    v: NodeView,
    file: Seq<char>,
    src: Endpoint,
    now: u128,
    then: u128,
)
    requires
        v.seeding(file, src, now).1,
    ensures
        v.seeding(file, src, now).0.seeding(file, src, then).1,
{
    let w = v.seeding(file, src, now).0;
    let alive = viable(v, v.seeders(file), now);
    if v.role == Role::Master && !v.seeders(file).contains(src) {
        lookup_after_put(v.leases, file, alive.push(src), file);
        assert(alive.push(src)[alive.len() as int] == src);
    }
}

/// With its grants in use a master grants a copy to one more peer only if no
/// other peer in reach has a fresh one.
pub proof fn grants_are_bounded(v: NodeView, file: Seq<char>, src: Endpoint, now: u128)
    requires
        v.role == Role::Master,
        !v.seeders(file).contains(src),
        viable(v, v.seeders(file), now).len() >= v.seed_limit,
    ensures
        v.seeding(file, src, now).1 == !v.copy_elsewhere(file, src, now),
{
}

/// What a peer told or refused is forgotten after fifteen seconds.
pub proof fn old_evidence_is_forgotten(
    inventory: Inventory,
    refused_at: u128,
    number: u64,
    now: u128,
)
    requires
        since(now, inventory.observed_at) > 15_000_000_000,
        since(now, refused_at) > 15_000_000_000,
    ensures
        known_copy(Some(inventory), Some(refused_at), Some(number), now) is None,
{
}

/// A refusal hides a peer for the file while it counts, whatever the peer told
/// before.
pub proof fn refusal_hides_peer(
    v: NodeView,
    peer: Endpoint,
    file: Seq<char>,
    refused_at: u128,
    now: u128,
)
    requires
        still_counts(refused_at, now),
    ensures
        v.refusal_recorded(peer, file, refused_at).peer_availability(peer, file, now) == Some(
            false,
        ),
{
    lookup_after_put(
        live_refusals(v.refusals, refused_at),
        (file, peer),
        refused_at,
        (file, peer),
    );
}

/// A later inventory that names a segment clears the refusal of it for good:
/// the peer is known to have it, and an inventory after that which does not
/// cover the segment leaves it unknown, not refused.
pub proof fn later_inventory_lifts_refusal(
    v: NodeView,
    peer: Endpoint,
    file: Seq<char>,
    number: u64,
    first: SegmentAvailability,
    second: SegmentAvailability,
    told: u128,
    now: u128,
)
    requires
        crate::transfer::numbered(file) == Some(number as int),
        inventory_says(first, number) == Some(true),
        still_counts(told, now),
    ensures
        ({
            let a = v.inventory_recorded(peer, Some(first), told);
            let b = a.inventory_recorded(peer, Some(second), now);
            &&& lookup(a.refusals, (file, peer)) is None
            &&& a.peer_availability(peer, file, now) == Some(true)
            &&& b.peer_availability(peer, file, now) == inventory_says(second, number)
        }),
{
    let a = v.inventory_recorded(peer, Some(first), told);
    lifted_are_gone(v.refusals, peer, first, (file, peer));
    lifted_are_gone(a.refusals, peer, second, (file, peer));
    let one = Inventory { availability: first, observed_at: told };
    let two = Inventory { availability: second, observed_at: now };
    lookup_after_put(v.inventories, peer, one, peer);
    lookup_after_put(a.inventories, peer, two, peer);
}

/// An inventory leaves the refusals of other files and of other peers alone.
pub proof fn other_refusals_stand(
    v: NodeView,
    peer: Endpoint,
    availability: SegmentAvailability,
    key: (Seq<char>, Endpoint),
    now: u128,
)
    requires
        !is_lifted(key, peer, availability),
    ensures
        lookup(v.inventory_recorded(peer, Some(availability), now).refusals, key) == lookup(
            v.refusals,
            key,
        ),
{
    lifted_are_gone(v.refusals, peer, availability, key);
}

pub(crate) proof fn lifted_are_gone(
    s: Seq<((Seq<char>, Endpoint), u128)>,
    peer: Endpoint,
    availability: SegmentAvailability,
    key: (Seq<char>, Endpoint),
)
    ensures
        lookup(standing_refusals(s, peer, availability), key) == if is_lifted(
            key,
            peer,
            availability,
        ) {
            None
        } else {
            lookup(s, key)
        },
    decreases s.len(),
{
    if s.len() > 0 {
        let front = s.drop_last();
        let rest = standing_refusals(front, peer, availability);
        lifted_are_gone(front, peer, availability, key);
        lookup_of_longer(front, s.last(), key);
        lookup_of_longer(rest, s.last(), key);
        assert(front.push(s.last()) =~= s);
    } else {
        position_is_first(s, key, 0);
        position_is_first(standing_refusals(s, peer, availability), key, 0);
    }
}

pub(crate) proof fn lookup_of_longer<K, V>(s: Seq<(K, V)>, e: (K, V), key: K)
    ensures
        lookup(s.push(e), key) == match lookup(s, key) {
            Some(v) => Some(v),
            None => if e.0 == key {
                Some(e.1)
            } else {
                None
            },
        },
{
    let t = s.push(e);
    position_is_first(s, key, 0);
    position_is_first(t, key, 0);
    match position(s, key) {
        Some(i) => {
            assert(t[i] == s[i]);
            assert forall|j: int| 0 <= j < i implies (#[trigger] t[j]).0 != key by {
                assert(t[j] == s[j]);
            }
            crate::table::position_known(t, key, i);
        },
        None => {
            assert forall|j: int| 0 <= j < s.len() implies (#[trigger] t[j]).0 != key by {
                assert(t[j] == s[j]);
            }
            if e.0 == key {
                assert(t[s.len() as int] == e);
                crate::table::position_known(t, key, s.len() as int);
            }
        },
    }
}

/// Being put off leaves a peer's bookkeeping alone but for when it was seen.
pub proof fn put_off_is_not_counted(
    v: PeerStatView,
    latency_ms: Option<u64>,
    bytes: u64,
    now: u128,
)
    ensures
        v.pulled(PullResult::RetryableNotFound, latency_ms, bytes, now) == (PeerStatView {
            last_seen: now,
            ..v
        }),
{
}

/// A peer that was heard from within the time stays known.
pub proof fn live_peers_stay(
    peers: Seq<(Endpoint, PeerInfoView)>,
    ttl: u128,
    now: u128,
    i: int,
)
    requires
        0 <= i < peers.len(),
    ensures
        live_peers(peers, ttl, now).contains(peers[i]) || since(now, peers[i].1.last_seen) >= ttl,
    decreases peers.len(),
{
    let rest = peers.drop_last();
    let kept = live_peers(peers, ttl, now);
    if since(now, peers[i].1.last_seen) < ttl {
        if i < rest.len() {
            live_peers_stay(rest, ttl, now, i);
            let before = live_peers(rest, ttl, now);
            let j = choose|j: int| 0 <= j < before.len() && before[j] == peers[i];
            assert(kept[j] == peers[i]);
        } else {
            assert(kept[kept.len() - 1] == peers[i]);
        }
    }
}

// ---------------------------------------------------------------------------
// The scheduler

/// No more downloads at once than there are slots, and no more than two from
/// one peer.
pub open spec fn within_limits(v: PeerView) -> bool {
    &&& v.active.len() <= MAX_PARALLEL_DOWNLOADS
    &&& distinct(v.active)
    &&& forall|p: Endpoint| #[trigger] inflight(v.active, p) <= MAX_INFLIGHT_PER_PEER
}

proof fn inflight_updated(s: Seq<(u16, JobView)>, i: int, e: (u16, JobView), p: Endpoint)
    requires
        0 <= i < s.len(),
    ensures
        inflight(s.update(i, e), p) <= inflight(s, p) + if e.1.peer == p {
            1nat
        } else {
            0nat
        },
    decreases s.len(),
{
    let t = s.update(i, e);
    if i == s.len() - 1 {
        assert(t.drop_last() =~= s.drop_last());
    } else {
        assert(t.drop_last() =~= s.drop_last().update(i, e));
        inflight_updated(s.drop_last(), i, e, p);
    }
}

proof fn inflight_put(s: Seq<(u16, JobView)>, id: u16, job: JobView, p: Endpoint)
    ensures
        inflight(put(s, id, job), p) <= inflight(s, p) + if job.peer == p {
            1nat
        } else {
            0nat
        },
{
    position_is_first(s, id, 0);
    match position(s, id) {
        Some(i) => {
            inflight_updated(s, i, (id, job), p);
        },
        None => {
            assert(s.push((id, job)).drop_last() =~= s);
        },
    }
}

proof fn inflight_without(s: Seq<(u16, JobView)>, i: int, p: Endpoint)
    requires
        0 <= i < s.len(),
    ensures
        inflight(s.remove(i), p) <= inflight(s, p),
    decreases s.len(),
{
    let t = s.remove(i);
    if i == s.len() - 1 {
        assert(t =~= s.drop_last());
    } else {
        assert(t.drop_last() =~= s.drop_last().remove(i));
        assert(t.last() == s.last());
        inflight_without(s.drop_last(), i, p);
    }
}

proof fn removal_keeps_limits(v: PeerView, id: u16)
    requires
        within_limits(v),
    ensures
        within_limits(PeerView { active: removed(v.active, id), ..v }),
{
    position_is_first(v.active, id, 0);
    crate::table::lookup_after_removed(v.active, id, id);
    if let Some(i) = position(v.active, id) {
        assert forall|p: Endpoint| #[trigger]
            inflight(removed(v.active, id), p) <= MAX_INFLIGHT_PER_PEER by {
            inflight_without(v.active, i, p);
            assert(inflight(v.active, p) <= MAX_INFLIGHT_PER_PEER);
        }
    }
}

proof fn reaping_keeps_limits(v: PeerView, node: NodeView, ids: Seq<u16>, now: u128)
    requires
        within_limits(v),
    ensures
        within_limits(v.all_reaped(node, ids, now).0),
    decreases ids.len(),
{
    if ids.len() > 0 {
        reaping_keeps_limits(v, node, ids.drop_last(), now);
        let (w, n, _) = v.all_reaped(node, ids.drop_last(), now);
        removal_keeps_limits(w, ids.last());
        let x = w.reaped(n, ids.last(), now).0;
        assert(x.active == w.active || x.active == removed(w.active, ids.last()));
    }
}

proof fn candidates_are_usable(
    v: PeerView,
    node: NodeView,
    file: Seq<char>,
    n: int,
    now: u128,
    i: int,
)
    requires
        0 <= i < v.candidates(node, file, n, now).len(),
    ensures
        v.usable(node, file, v.candidates(node, file, n, now)[i], now),
    decreases n,
{
    let rest = v.candidates(node, file, n - 1, now);
    if n > 0 && i < rest.len() {
        candidates_are_usable(v, node, file, n - 1, now, i);
    }
}

proof fn parent_sources_are_listed(
    v: PeerView,
    node: NodeView,
    file: Seq<char>,
    list: Seq<Endpoint>,
    now: u128,
    i: int,
)
    requires
        0 <= i < v.parent_sources(node, file, list, now).len(),
    ensures
        list.contains(v.parent_sources(node, file, list, now)[i]),
    decreases list.len(),
{
    let rest = v.parent_sources(node, file, list.drop_last(), now);
    let all = v.parent_sources(node, file, list, now);
    if i < rest.len() {
        parent_sources_are_listed(v, node, file, list.drop_last(), now, i);
        let j = choose|j: int| 0 <= j < list.drop_last().len() && list.drop_last()[j] == rest[i];
        assert(list[j] == all[i]);
    } else {
        assert(list[list.len() - 1] == all[i]);
    }
}

proof fn advertised_are_listed(
    list: Seq<Endpoint>,
    has: Seq<Option<bool>>,
    bootstrap: Endpoint,
    i: int,
)
    requires
        0 <= i < advertised(list, has, bootstrap).len(),
    ensures
        list.contains(advertised(list, has, bootstrap)[i]),
        advertised(list, has, bootstrap)[i] != bootstrap,
    decreases list.len(),
{
    let rest = advertised(list.drop_last(), has, bootstrap);
    let all = advertised(list, has, bootstrap);
    if i < rest.len() {
        advertised_are_listed(list.drop_last(), has, bootstrap, i);
        let j = choose|j: int| 0 <= j < list.drop_last().len() && list.drop_last()[j] == rest[i];
        assert(list[j] == all[i]);
    } else {
        assert(list[list.len() - 1] == all[i]);
    }
}

proof fn only_are_listed(list: Seq<Endpoint>, p: Endpoint, i: int)
    requires
        0 <= i < only(list, p).len(),
    ensures
        list.contains(only(list, p)[i]),
    decreases list.len(),
{
    let rest = only(list.drop_last(), p);
    let all = only(list, p);
    if i < rest.len() {
        only_are_listed(list.drop_last(), p, i);
        let j = choose|j: int| 0 <= j < list.drop_last().len() && list.drop_last()[j] == rest[i];
        assert(list[j] == all[i]);
    } else {
        assert(list[list.len() - 1] == all[i]);
    }
}

/// The preferred sources are some of the candidates.
pub proof fn preferred_are_candidates(
    list: Seq<Endpoint>,
    bootstrap: Endpoint,
    has: Seq<Option<bool>>,
    origin: Option<bool>,
    i: int,
)
    requires
        0 <= i < preferred(list, bootstrap, has, origin).len(),
    ensures
        list.contains(preferred(list, bootstrap, has, origin)[i]),
{
    let peers = advertised(list, has, bootstrap);
    if peers.len() > 0 {
        advertised_are_listed(list, has, bootstrap, i);
    } else if origin == Some(true) {
        only_are_listed(list, bootstrap, i);
    } else {
        assert(list[i] == preferred(list, bootstrap, has, origin)[i]);
    }
}

/// Once a peer has the piece, the origin is kept out of the request.
pub proof fn origin_yields_to_peers(
    list: Seq<Endpoint>,
    bootstrap: Endpoint,
    has: Seq<Option<bool>>,
    origin: Option<bool>,
    i: int,
)
    requires
        advertised(list, has, bootstrap).len() > 0,
        0 <= i < preferred(list, bootstrap, has, origin).len(),
    ensures
        preferred(list, bootstrap, has, origin)[i] != bootstrap,
{
    advertised_are_listed(list, has, bootstrap, i);
}

proof fn draw_is_in_range(weights: Seq<int>, draw: u64, i: int)
    requires
        0 <= i < weights.len(),
    ensures
        i <= drawn(weights, draw, i) < weights.len(),
    decreases weights.len() - i,
{
    if i < weights.len() - 1 {
        draw_is_in_range(weights, draw, i + 1);
    }
}

/// The source that is picked for a file is one that can be asked for it: not
/// this node, not known to lack the file, not asked before, not put off, and
/// not busy with two downloads.
pub proof fn picked_source_is_usable(v: PeerView, node: NodeView, file: Seq<char>, now: u128)
    ensures
        v.picking(node, file, now).1 matches Some(p) ==> v.usable(node, file, p, now),
{
    let all = v.candidates(node, file, node.peers.len() as int, now);
    let parents = v.parent_sources(node, file, all, now);
    let (w, list) = v.sources(node, file, now);
    if list.len() > 0 {
        let k = drawn(v.weights(node, file, list, now), mixed(stepped(w.rng)), 0);
        draw_is_in_range(v.weights(node, file, list, now), mixed(stepped(w.rng)), 0);
        let base = if parents.len() > 0 {
            parents
        } else {
            all
        };
        preferred_are_candidates(
            base,
            v.bootstrap,
            v.holdings(node, file, base, now),
            node.peer_availability(v.bootstrap, file, now),
            k,
        );
        let p = list[k];
        let j = choose|j: int| 0 <= j < base.len() && base[j] == p;
        if parents.len() > 0 {
            parent_sources_are_listed(v, node, file, all, now, j);
            let m = choose|m: int| 0 <= m < all.len() && all[m] == p;
            candidates_are_usable(v, node, file, node.peers.len() as int, now, m);
        } else {
            candidates_are_usable(v, node, file, node.peers.len() as int, now, j);
        }
    }
}

proof fn picking_keeps_active(v: PeerView, node: NodeView, file: Seq<char>, now: u128)
    ensures
        v.picking(node, file, now).0.active == v.active,
{
}

proof fn filling_keeps_limits(v: PeerView, node: NodeView, seed: u16, now: u128)
    requires
        within_limits(v),
    ensures
        within_limits(v.filled(node, seed, now).0),
    decreases v.queue.len(),
{
    if v.active.len() < MAX_PARALLEL_DOWNLOADS && v.queue.len() > 0 {
        let file = v.queue[0];
        let (w, choice) = v.picking(node, file, now);
        picking_keeps_active(v, node, file, now);
        if let Some(p) = choice {
            if node.registry.active() < crate::transfer::MAX_CONCURRENT_TRANSFERS {
                picked_source_is_usable(v, node, file, now);
                let id = node.registry.fresh(seed);
                let job = JobView { filename: file, peer: p };
                let x = (PeerView { queue: v.queue, ..w }).pulling(id, file, p);
                crate::table::put_keeps_distinct(v.active, id, job);
                position_is_first(v.active, id, 0);
                assert forall|q: Endpoint| #[trigger]
                    inflight(x.active, q) <= MAX_INFLIGHT_PER_PEER by {
                    inflight_put(v.active, id, job, q);
                    assert(inflight(v.active, q) <= MAX_INFLIGHT_PER_PEER);
                }
                filling_keeps_limits(x, node.pulling(id, p, file, now), seed, now);
            }
        }
    }
}

/// However jobs end and begin, there are never more than four downloads at
/// once, nor more than two from one peer.
pub proof fn schedule_keeps_limits(v: PeerView, node: NodeView, seed: u16, now: u128)
    requires
        within_limits(v),
    ensures
        within_limits(v.scheduled(node, seed, now).0),
{
    let ids = v.active.map_values(|e: (u16, JobView)| e.0);
    reaping_keeps_limits(v, node, ids, now);
    let (w, n, _) = v.all_reaped(node, ids, now);
    filling_keeps_limits(w, n, seed, now);
}

/// A peer starts within its limits.
pub proof fn start_is_within_limits(local: Endpoint, bootstrap: Endpoint, rng: u64, now: u128)
    ensures
        within_limits(PeerView::started(local, bootstrap, rng, now)),
{
}

/// A peer is evicted at its third pull in a row without an answer.
pub proof fn third_silence_evicts(v: PeerView, node: NodeView, job: JobView)
    requires
        lookup(v.hits, job.peer) is None,
        has_key(node.peers, job.peer),
        distinct(node.peers),
    ensures
        ({
            let (a, n) = v.answer_counted(node, job, true);
            let (b, m) = a.answer_counted(n, job, true);
            let (c, o) = b.answer_counted(m, job, true);
            &&& has_key(n.peers, job.peer)
            &&& has_key(m.peers, job.peer)
            &&& !has_key(o.peers, job.peer)
        }),
{
    let (a, n) = v.answer_counted(node, job, true);
    lookup_after_put(v.hits, job.peer, 1u32, job.peer);
    let (b, m) = a.answer_counted(n, job, true);
    lookup_after_put(a.hits, job.peer, 2u32, job.peer);
    crate::table::lookup_after_removed(node.peers, job.peer, job.peer);
}

/// An eviction ends the row of silences: a peer that comes back is counted anew.
pub proof fn eviction_ends_the_count(v: PeerView, node: NodeView, job: JobView)
    requires
        distinct(v.hits),
        has_key(node.peers, job.peer),
        distinct(node.peers),
        !has_key(v.answer_counted(node, job, true).1.peers, job.peer),
    ensures
        lookup(v.answer_counted(node, job, true).0.hits, job.peer) is None,
{
    crate::table::lookup_after_removed(v.hits, job.peer, job.peer);
}

/// Any answer of a source ends its row of silences, whether it delivers, puts
/// off, lacks the file or fails otherwise: after it two more silences do not
/// evict.
pub proof fn answers_reset_silences(v: PeerView, node: NodeView, job: JobView, now: u128)
    requires
        distinct(v.hits),
    ensures
        lookup(v.pull_done(job).hits, job.peer) is None,
        lookup(v.pull_put_off(job, now).hits, job.peer) is None,
        lookup(v.answer_counted(node, job, false).0.hits, job.peer) is None,
        v.answer_counted(node, job, false).1 == node,
{
    crate::table::lookup_after_removed(v.hits, job.peer, job.peer);
}

/// The silences of a source are counted in one place, whatever jobs end and
/// begin.
pub proof fn silences_stay_distinct(v: PeerView, node: NodeView, seed: u16, now: u128)
    requires
        distinct(v.hits),
    ensures
        distinct(v.scheduled(node, seed, now).0.hits),
{
    let ids = v.active.map_values(|e: (u16, JobView)| e.0);
    reaping_keeps_silences(v, node, ids, now);
    let (w, n, _) = v.all_reaped(node, ids, now);
    filling_keeps_silences(w, n, seed, now);
}

proof fn reaping_keeps_silences(v: PeerView, node: NodeView, ids: Seq<u16>, now: u128)
    requires
        distinct(v.hits),
    ensures
        distinct(v.all_reaped(node, ids, now).0.hits),
    decreases ids.len(),
{
    if ids.len() > 0 {
        reaping_keeps_silences(v, node, ids.drop_last(), now);
        let (w, n, _) = v.all_reaped(node, ids.drop_last(), now);
        if let Some(job) = lookup(w.active, ids.last()) {
            crate::table::lookup_after_removed(w.hits, job.peer, job.peer);
            crate::table::put_keeps_distinct(w.hits, job.peer, 1u32);
            crate::table::put_keeps_distinct(w.hits, job.peer, 2u32);
        }
    }
}

proof fn filling_keeps_silences(v: PeerView, node: NodeView, seed: u16, now: u128)
    ensures
        v.filled(node, seed, now).0.hits == v.hits,
    decreases v.queue.len(),
{
    if v.active.len() < MAX_PARALLEL_DOWNLOADS && v.queue.len() > 0 {
        let file = v.queue[0];
        let (w, choice) = v.picking(node, file, now);
        if let Some(p) = choice {
            if node.registry.active() < crate::transfer::MAX_CONCURRENT_TRANSFERS {
                let id = node.registry.fresh(seed);
                let x = (PeerView { queue: v.queue, ..w }).pulling(id, file, p);
                filling_keeps_silences(x, node.pulling(id, p, file, now), seed, now);
            }
        }
    }
}

/// A source is evicted by a silence only if the two pulls before it were
/// silent too.
pub proof fn eviction_takes_three(v: PeerView, node: NodeView, job: JobView)
    requires
        match lookup(v.hits, job.peer) {
            Some(n) => n < 2,
            None => true,
        },
    ensures
        v.answer_counted(node, job, true).1 == node,
{
}

/// Sources of which nothing is known are only tried where no peer is known to
/// have the piece, and neither is the origin.
pub proof fn unknown_sources_come_last(
    list: Seq<Endpoint>,
    bootstrap: Endpoint,
    has: Seq<Option<bool>>,
    origin: Option<bool>,
)
    ensures
        advertised(list, has, bootstrap).len() > 0 ==> preferred(list, bootstrap, has, origin)
            == advertised(list, has, bootstrap),
        advertised(list, has, bootstrap).len() == 0 && origin == Some(true) ==> preferred(
            list,
            bootstrap,
            has,
            origin,
        ) == only(list, bootstrap),
        advertised(list, has, bootstrap).len() == 0 && origin != Some(true) ==> preferred(
            list,
            bootstrap,
            has,
            origin,
        ) == list,
{
}

/// A parent that does not have a piece is waited for five seconds, and no
/// longer: after that the other sources are asked.
pub proof fn parents_are_waited_for_briefly(
    v: PeerView,
    node: NodeView,
    file: Seq<char>,
    first: u128,
    now: u128,
)
    requires
        v.knows_parent(node),
        v.parent_sources(
            node,
            file,
            v.candidates(node, file, node.peers.len() as int, now),
            now,
        ).len() == 0,
        lookup(v.parent_wait, file) == Some(first),
    ensures
        since(now, first) < 5_000_000_000 ==> v.picking(node, file, now).1 is None,
        since(now, first) >= 5_000_000_000 ==> v.sources(node, file, now).1 == v.preferred_of(
            node,
            file,
            v.candidates(node, file, node.peers.len() as int, now),
            now,
        ),
{
}

/// A source that puts a file off is not asked for it again for five seconds,
/// and then may be.
pub proof fn put_off_is_asked_again(v: PeerView, job: JobView, now: u128, then: u128)
    requires
        now <= u128::MAX - 5_000_000_000,
    ensures
        v.pull_put_off(job, now).cooling(job.filename, job.peer, then) == (then < now
            + 5_000_000_000),
        !v.pull_put_off(job, now).was_tried(job.filename, job.peer),
        v.pull_put_off(job, now).queue == v.queue.push(job.filename),
{
    lookup_after_put(
        v.retry_after,
        (job.filename, job.peer),
        after(now, 5_000_000_000),
        (job.filename, job.peer),
    );
    if let Some(list) = lookup(v.tried, job.filename) {
        let rest = crate::table::excluding(list, job.peer);
        lookup_after_put(v.tried, job.filename, rest, job.filename);
        crate::table::excluding_excludes(list, job.peer, job.peer);
    }
}

/// The newest missing segment of a playlist comes first in the queue.
pub proof fn newest_is_first(
    v: PeerView,
    names: Seq<Seq<char>>,
    present: Seq<Seq<char>>,
    now: u128,
)
    requires
        names.len() > 0,
        crate::transfer::is_valid_filename(names.last()),
        !present.contains(names.last()),
        !v.synced(names.drop_last(), present, now).queued.contains(names.last()),
        lookup(v.synced(names.drop_last(), present, now).failed_at, names.last()) is None,
    ensures
        v.synced(names, present, now).queue.len() > 0,
        v.synced(names, present, now).queue[0] == names.last(),
{
}

} // verus!
