//! Shared node core: message dispatch, transfer registry, peer registry,
//! fault injection, peer stats and ranking. Used by both master and peer.
//!
//! A node does no I/O of its own. What it sends gathers in its outbox; what
//! it wants from disk it asks for with an event, and another call hands it in.
use vstd::prelude::*;
use crate::endpoint::{
    endpoint_text, is_private_source, is_remote_public, private_source, remote_public, same_ip4,
    shares_ip4, Endpoint,
};
use crate::fault::{
    counted, Datagram, DatagramView, datagrams, FaultInjector, FaultStats, FaultView, Rng,
};
use crate::peers::{
    copy_known, counts, known_copy, path_is_fresh, plus, ranked, ranking, still_counts,
    untried_path, Inventory, PathState, PeerInfo, PeerInfoView, PeerStat, PeerStatView, PullResult, ServeResult,
};
use crate::protocol::{
    datagram_of, decode, encode, inventory_says, parsed, Message, MessageView, SegmentAvailability,
    PEER_PARENT, PEER_SAME_IP, PEER_UPNP_MAPPED,
};
use crate::receiver::{Step, StepView};
use crate::registry::{
    deadlines, is_earliest, letters, Letter, RegEvent, RegistryView, TransferRegistry,
};
use crate::table::{
    distinct, entered, has_key, lookup, position_is_first, put, put_keeps_distinct, removed, Table,
};
use crate::stats::{
    behind, json_head, json_of, json_tail_of, label_of, lines_of, metrics_head, metrics_of, named,
    node_line, node_samples, path_word, peer_json, peer_line_of, peer_lines, peers_json,
    peers_metrics, push_endpoint_json, push_metrics_head, push_name, peer_json_of,
    push_peer_samples, rank_words_of, push_role, push_samples, rank_words, ranks_text, StoreInfo,
};
use crate::text::{
    chars_of, owned, push_chars, push_decimal, push_text, same_text, string_of, strings,
};
use crate::transfer::{
    after, elapsed, later, numbered, segment_number, since, smaller, Settings,
};

verus! {

/// PING every peer on this cadence, in nanoseconds: each PING is a keep-alive
/// that keeps both NATs' mappings alive and doubles as a punch.
pub const PING_INTERVAL: u128 = 10_000_000_000;

/// LAN beacon cadence: a broadcast PING announces the node on the LAN.
pub const BEACON_INTERVAL: u128 = 5_000_000_000;

pub const SNAPSHOT_INTERVAL: u128 = 5_000_000_000;

pub const RANK_LOG_INTERVAL: u128 = 60_000_000_000;

pub const PRUNE_INTERVAL: u128 = 30_000_000_000;

/// The most entries of a peerlist.
pub const PEERLIST_LIMIT: usize = 16;

/// What a node is in the swarm.
#[derive(Clone, Copy, Debug, PartialEq, Eq, Structural)]
pub enum Role {
    Master,
    Peer,
}

/// Events a caller may want to react to.
#[derive(Debug)]
pub enum Event {
    /// A HANDSHAKE_RESPONSE arrived from `src` (we sent a handshake request).
    HandshakeResponse { src: Endpoint, name: String },
    /// A MANIFEST_RESPONSE arrived with the raw m3u8 bytes.
    ManifestResponse { data: Vec<u8> },
    /// A PEERLIST_RESPONSE arrived with discovered peers (addr + flags).
    PeerlistResponse { peers: Vec<(Endpoint, u8)> },
    /// A PING wants the node's inventory: hand it in with `pong`.
    InventoryWanted { to: Endpoint },
    /// A MANIFEST_REQUEST wants the manifest file: hand it in with
    /// `send_manifest`.
    ManifestWanted { to: Endpoint },
    /// A SEGMENT_REQUEST wants a file: read it if `readable`, and hand in what
    /// came of it with `serve`.
    SegmentWanted { transfer_id: u16, filename: String, src: Endpoint, readable: bool },
    /// A download is complete: save it, and report with `saved` or
    /// `save_failed`.
    Downloaded { transfer_id: u16, filename: String, data: Vec<u8> },
    /// Nothing the caller needs to act on.
    Nothing,
}

/// The model of an [`Event`].
#[verifier::ext_equal]
pub enum EventView {
    HandshakeResponse { src: Endpoint, name: Seq<char> },
    ManifestResponse { data: Seq<u8> },
    PeerlistResponse { peers: Seq<(Endpoint, u8)> },
    InventoryWanted { to: Endpoint },
    ManifestWanted { to: Endpoint },
    SegmentWanted { transfer_id: u16, filename: Seq<char>, src: Endpoint, readable: bool },
    Downloaded { transfer_id: u16, filename: Seq<char>, data: Seq<u8> },
    Nothing,
}

impl View for Event {
    type V = EventView;

    open spec fn view(&self) -> EventView {
        match *self {
            Event::HandshakeResponse { src, name } => EventView::HandshakeResponse {
                src,
                name: name@,
            },
            Event::ManifestResponse { data } => EventView::ManifestResponse { data: data@ },
            Event::PeerlistResponse { peers } => EventView::PeerlistResponse { peers: peers@ },
            Event::InventoryWanted { to } => EventView::InventoryWanted { to },
            Event::ManifestWanted { to } => EventView::ManifestWanted { to },
            Event::SegmentWanted {
                transfer_id,
                filename,
                src,
                readable,
            } => EventView::SegmentWanted { transfer_id, filename: filename@, src, readable },
            Event::Downloaded { transfer_id, filename, data } => EventView::Downloaded {
                transfer_id,
                filename: filename@,
                data: data@,
            },
            Event::Nothing => EventView::Nothing,
        }
    }
}

/// A node of the swarm.
pub struct Node {
    pub(crate) name: String,
    pub(crate) role: Role,
    pub(crate) registry: TransferRegistry,
    pub(crate) peers: Table<Endpoint, PeerInfo>,
    pub(crate) peer_stats: Table<Endpoint, PeerStat>,
    pub(crate) fault: FaultInjector,
    pub(crate) outbox: Vec<Datagram>,
    pub(crate) my_public: Option<Endpoint>,
    pub(crate) claimed: Option<Endpoint>,
    pub(crate) beacon_nonce: u32,
    pub(crate) claims: Table<Endpoint, Endpoint>,
    pub(crate) paths: Table<Endpoint, PathState>,
    pub(crate) inventories: Table<Endpoint, Inventory>,
    pub(crate) refusals: Table<(String, Endpoint), u128>,
    pub(crate) leases: Table<String, Vec<Endpoint>>,
    pub(crate) local_addr: Endpoint,
    pub(crate) next_ping: u128,
    pub(crate) next_beacon: u128,
    pub(crate) started: u128,
    pub(crate) totals: Totals,
    pub(crate) retention_secs: u64,
    pub(crate) seed_limit: u64,
    pub(crate) next_snapshot: u128,
    pub(crate) next_rank_log: u128,
    pub(crate) next_prune: u128,
}

/// Counters of a node.
#[derive(Clone, Copy, Debug, PartialEq, Eq, Structural)]
pub struct Totals {
    pub downloaded_total: u64,
    pub downloaded_bytes: u64,
    pub served_total: u64,
    pub served_bytes: u64,
    /// pending pulls in the queue
    pub queue_depth: u64,
    /// active pull jobs
    pub inflight: u64,
    /// origin copies granted
    pub seeds_assigned: u64,
    /// origin copies put off
    pub seeds_denied: u64,
}

/// The model of a [`Node`].
pub struct NodeView {
    pub name: Seq<char>,
    pub role: Role,
    pub registry: RegistryView,
    /// peers we know about (handshaked or discovered), by address
    pub peers: Seq<(Endpoint, PeerInfoView)>,
    /// quality stats per peer, by address
    pub peer_stats: Seq<(Endpoint, PeerStatView)>,
    /// outgoing-datagram fault injection
    pub fault: FaultView,
    /// datagrams that are ready to go
    pub outbox: Seq<DatagramView>,
    /// our observed public endpoint (from handshake responses)
    pub my_public: Option<Endpoint>,
    /// our claimed public endpoint (port mapping), if any
    pub claimed: Option<Endpoint>,
    /// random per-node nonce stamped in PINGs; own broadcast echoes carry it
    /// back and are ignored
    pub beacon_nonce: u32,
    /// claimed endpoints reported by peers: peer addr -> claimed
    pub claims: Seq<(Endpoint, Endpoint)>,
    /// ping/pong reachability per peer address
    pub paths: Seq<(Endpoint, PathState)>,
    /// recent segment inventories learned from peers
    pub inventories: Seq<(Endpoint, Inventory)>,
    /// when a peer last said that it lacks a file
    pub refusals: Seq<((Seq<char>, Endpoint), u128)>,
    /// peers that were granted a copy from the origin, by file
    pub leases: Seq<(Seq<char>, Seq<Endpoint>)>,
    pub local_addr: Endpoint,
    pub next_ping: u128,
    pub next_beacon: u128,
    pub started: u128,
    pub totals: Totals,
    pub retention_secs: u64,
    pub seed_limit: u64,
    pub next_snapshot: u128,
    pub next_rank_log: u128,
    pub next_prune: u128,
}

impl View for Node {
    type V = NodeView;

    closed spec fn view(&self) -> NodeView {
        NodeView {
            name: self.name@,
            role: self.role,
            registry: self.registry@,
            peers: self.peers@,
            peer_stats: self.peer_stats@,
            fault: self.fault@,
            outbox: datagrams(self.outbox@),
            my_public: self.my_public,
            claimed: self.claimed,
            beacon_nonce: self.beacon_nonce,
            claims: self.claims@,
            paths: self.paths@,
            inventories: self.inventories@,
            refusals: self.refusals@,
            leases: self.leases@,
            local_addr: self.local_addr,
            next_ping: self.next_ping,
            next_beacon: self.next_beacon,
            started: self.started,
            totals: self.totals,
            retention_secs: self.retention_secs,
            seed_limit: self.seed_limit,
            next_snapshot: self.next_snapshot,
            next_rank_log: self.next_rank_log,
            next_prune: self.next_prune,
        }
    }
}

/// Every peer's bookkeeping is in order.
pub open spec fn stats_wf(stats: Seq<(Endpoint, PeerStatView)>) -> bool {
    forall|i: int| 0 <= i < stats.len() ==> (#[trigger] stats[i]).1.wf()
}

proof fn stats_stay_wf(stats: Seq<(Endpoint, PeerStatView)>, k: Endpoint, v: PeerStatView)
    requires
        stats_wf(stats),
        v.wf(),
    ensures
        stats_wf(put(stats, k, v)),
        lookup(stats, k) matches Some(s) ==> s.wf(),
{
    position_is_first(stats, k, 0);
}

/// The first peer, from `i` on, with a name and a LAN path, that is not `addr`.
pub open spec fn lan_twin(v: NodeView, name: Seq<char>, addr: Endpoint, i: int) -> Option<Endpoint>
    decreases v.peers.len() - i,
{
    if i < 0 || i >= v.peers.len() {
        None
    } else if v.peers[i].1.name == name && v.peers[i].0 != addr && v.is_lan_path(v.peers[i].0) {
        Some(v.peers[i].0)
    } else {
        lan_twin(v, name, addr, i + 1)
    }
}

/// The peers that were heard from within `ttl`.
pub open spec fn live_peers(peers: Seq<(Endpoint, PeerInfoView)>, ttl: u128, now: u128) -> Seq<
    (Endpoint, PeerInfoView),
>
    decreases peers.len(),
{
    if peers.len() == 0 {
        Seq::empty()
    } else {
        let rest = live_peers(peers.drop_last(), ttl, now);
        if since(now, peers.last().1.last_seen) >= ttl {
            rest
        } else {
            rest.push(peers.last())
        }
    }
}

/// The refusals that still count.
pub open spec fn live_refusals(s: Seq<((Seq<char>, Endpoint), u128)>, now: u128) -> Seq<
    ((Seq<char>, Endpoint), u128),
>
    decreases s.len(),
{
    if s.len() == 0 {
        Seq::empty()
    } else {
        let rest = live_refusals(s.drop_last(), now);
        if still_counts(s.last().1, now) {
            rest.push(s.last())
        } else {
            rest
        }
    }
}

/// Whether an inventory of a peer confirms a file that the peer has refused.
pub open spec fn is_lifted(
    key: (Seq<char>, Endpoint),
    peer: Endpoint,
    availability: SegmentAvailability,
) -> bool {
    &&& key.1 == peer
    &&& numbered(key.0) matches Some(n) && inventory_says(availability, n as u64) == Some(true)
}

/// The refusals that an inventory of a peer leaves standing.
pub open spec fn standing_refusals(
    s: Seq<((Seq<char>, Endpoint), u128)>,
    peer: Endpoint,
    availability: SegmentAvailability,
) -> Seq<((Seq<char>, Endpoint), u128)>
    decreases s.len(),
{
    if s.len() == 0 {
        Seq::empty()
    } else {
        let rest = standing_refusals(s.drop_last(), peer, availability);
        if is_lifted(s.last().0, peer, availability) {
            rest
        } else {
            rest.push(s.last())
        }
    }
}

/// The peers that a requester is told of: not itself, and to one across the
/// internet only those that it can reach.
pub open spec fn eligible(peers: Seq<(Endpoint, PeerInfoView)>, src: Endpoint) -> Seq<Endpoint>
    decreases peers.len(),
{
    if peers.len() == 0 {
        Seq::empty()
    } else {
        let rest = eligible(peers.drop_last(), src);
        let p = peers.last().0;
        if p != src && !(is_remote_public(src) && !is_remote_public(p)) {
            rest.push(p)
        } else {
            rest
        }
    }
}

/// The position of the peer with the least load before `n`, the first of
/// several, without position `skip`.
pub open spec fn least_loaded(
    registry: RegistryView,
    list: Seq<Endpoint>,
    n: int,
    skip: Option<int>,
) -> Option<int>
    decreases n,
{
    if n <= 0 {
        None
    } else {
        let best = least_loaded(registry, list, n - 1, skip);
        if skip == Some(n - 1) {
            best
        } else {
            match best {
                Some(b) => if registry.load(list[n - 1]) < registry.load(list[b]) {
                    Some(n - 1)
                } else {
                    best
                },
                None => Some(n - 1),
            }
        }
    }
}

impl NodeView {
    /// The transfers and the bookkeeping are in order, and peers are told
    /// apart by their address.
    pub open spec fn wf(self) -> bool {
        &&& self.registry.wf()
        &&& stats_wf(self.peer_stats)
        &&& distinct(self.peers)
        &&& distinct(self.peer_stats)
    }

    /// The node after bytes have been handed to the fault injector.
    pub open spec fn sent(self, bytes: Seq<u8>, to: Endpoint, now: u128) -> Self {
        let (fault, out) = self.fault.sent(DatagramView { bytes, to }, now);
        NodeView { fault, outbox: self.outbox + out, ..self }
    }

    /// The node after a message has been handed to the fault injector.
    pub open spec fn posted(self, to: Endpoint, m: MessageView, now: u128) -> Self {
        self.sent(datagram_of(m), to, now)
    }

    /// The node after several messages.
    pub open spec fn posted_all(self, batch: Seq<Letter>, now: u128) -> Self
        decreases batch.len(),
    {
        if batch.len() == 0 {
            self
        } else {
            self.posted_all(batch.drop_last(), now).posted(batch.last().0, batch.last().1, now)
        }
    }

    /// Whether a path was discovered on the LAN.
    pub open spec fn is_lan_path(self, addr: Endpoint) -> bool {
        lookup(self.paths, addr) matches Some(p) && p.lan
    }

    /// Whether the direct path is fresh.
    pub open spec fn path_fresh(self, addr: Endpoint, now: u128) -> bool {
        lookup(self.paths, addr) matches Some(p) && path_is_fresh(p, now)
    }

    /// Whether a peer has a file, as far as is known.
    pub open spec fn peer_availability(self, peer: Endpoint, filename: Seq<char>, now: u128) -> Option<
        bool,
    > {
        known_copy(
            lookup(self.inventories, peer),
            lookup(self.refusals, (filename, peer)),
            match numbered(filename) {
                Some(n) => Some(n as u64),
                None => None,
            },
            now,
        )
    }

    /// The best address to reach a peer: if the same name is known via a LAN
    /// path, that one.
    pub open spec fn effective_addr(self, addr: Endpoint) -> Endpoint {
        match lookup(self.peers, addr) {
            Some(info) => match lan_twin(self, info.name, addr, 0) {
                Some(a) => a,
                None => addr,
            },
            None => addr,
        }
    }

    /// The node after a peer has made itself known.
    pub open spec fn registered(self, addr: Endpoint, name: Seq<char>, now: u128) -> Self {
        NodeView {
            peers: put(self.peers, addr, PeerInfoView { name, last_seen: now }),
            peer_stats: entered(self.peer_stats, addr, PeerStatView::fresh(name, now)),
            paths: entered(self.paths, addr, untried_path(now)),
            ..self
        }
    }

    /// The node after traffic from an address.
    pub open spec fn touched(self, addr: Endpoint, now: u128) -> Self {
        NodeView {
            peers: match lookup(self.peers, addr) {
                Some(info) => put(self.peers, addr, PeerInfoView { last_seen: now, ..info }),
                None => self.peers,
            },
            peer_stats: match lookup(self.peer_stats, addr) {
                Some(stat) => put(self.peer_stats, addr, PeerStatView { last_seen: now, ..stat }),
                None => self.peer_stats,
            },
            ..self
        }
    }

    /// The name of a peer, or its address where it has none.
    pub open spec fn name_of(self, peer: Endpoint) -> Seq<char> {
        match lookup(self.peers, peer) {
            Some(info) => info.name,
            None => endpoint_text(peer),
        }
    }

    /// The bookkeeping of a peer, new if there is none.
    pub open spec fn stat_of(self, peer: Endpoint, now: u128) -> PeerStatView {
        match lookup(self.peer_stats, peer) {
            Some(stat) => stat,
            None => PeerStatView::fresh(self.name_of(peer), now),
        }
    }

    /// The node after a pull has ended.
    pub open spec fn pull_recorded(
        self,
        peer: Endpoint,
        result: PullResult,
        latency_ms: Option<u64>,
        bytes: u64,
        now: u128,
    ) -> Self {
        NodeView {
            peer_stats: put(
                self.peer_stats,
                peer,
                self.stat_of(peer, now).pulled(result, latency_ms, bytes, now),
            ),
            totals: if result == PullResult::Done {
                Totals {
                    downloaded_total: counted(self.totals.downloaded_total),
                    downloaded_bytes: plus(self.totals.downloaded_bytes, bytes),
                    ..self.totals
                }
            } else {
                self.totals
            },
            ..self
        }
    }

    /// The node after a serve has ended.
    pub open spec fn serve_recorded(
        self,
        peer: Endpoint,
        result: ServeResult,
        bytes: u64,
        now: u128,
    ) -> Self {
        NodeView {
            peer_stats: put(
                self.peer_stats,
                peer,
                self.stat_of(peer, now).served_to(result, bytes),
            ),
            totals: if result == ServeResult::Served {
                Totals {
                    served_total: counted(self.totals.served_total),
                    served_bytes: plus(self.totals.served_bytes, bytes),
                    ..self.totals
                }
            } else {
                self.totals
            },
            ..self
        }
    }

    /// The node after an outcome of the registry.
    pub open spec fn event_recorded(self, event: RegEvent, now: u128) -> Self {
        match event {
            RegEvent::Served { src, bytes } => self.serve_recorded(
                src,
                ServeResult::Served,
                bytes,
                now,
            ),
            RegEvent::NotFound { src } => self.serve_recorded(src, ServeResult::NotFound, 0, now),
            RegEvent::SenderFailed { src } => self.serve_recorded(
                src,
                ServeResult::SenderFailed,
                0,
                now,
            ),
        }
    }

    /// The node after several outcomes of the registry.
    pub open spec fn events_recorded(self, events: Seq<RegEvent>, now: u128) -> Self
        decreases events.len(),
    {
        if events.len() == 0 {
            self
        } else {
            self.events_recorded(events.drop_last(), now).event_recorded(events.last(), now)
        }
    }

    /// The PING of this node.
    pub open spec fn ping(self) -> MessageView {
        MessageView::Ping { nonce: self.beacon_nonce, name: self.name }
    }

    /// The node after the first `n` peers have been pinged.
    pub open spec fn pinged(self, n: int, now: u128) -> Self
        decreases n,
    {
        if n <= 0 {
            self
        } else {
            let v = self.pinged(n - 1, now).posted(self.peers[n - 1].0, self.ping(), now);
            NodeView { paths: entered(v.paths, self.peers[n - 1].0, untried_path(now)), ..v }
        }
    }

    /// Where the beacon goes.
    pub open spec fn broadcast(self) -> Endpoint {
        Endpoint::V4 { ip: 0xffff_ffff, port: self.local_addr.spec_port() }
    }

    /// The node after its pings, where they are due.
    pub open spec fn ping_cycled(self, now: u128) -> Self {
        let v = if now >= self.next_ping {
            (NodeView { next_ping: after(now, PING_INTERVAL as int), ..self }).pinged(
                self.peers.len() as int,
                now,
            )
        } else {
            self
        };
        if v.role == Role::Peer && now >= v.next_beacon {
            (NodeView { next_beacon: after(now, BEACON_INTERVAL as int), ..v }).posted(
                v.broadcast(),
                v.ping(),
                now,
            )
        } else {
            v
        }
    }

    /// The node after its transfers have been ticked and its delayed
    /// datagrams released.
    pub open spec fn transfers_ticked(self, now: u128) -> Self {
        let v = (NodeView { registry: self.registry.ticked(now), ..self }).posted_all(
            self.registry.tick_sends(now),
            now,
        );
        NodeView {
            outbox: v.outbox + v.fault.released(now),
            fault: v.fault.drained(now),
            ..v
        }
    }

    /// The node after the outcomes of its transfers have been recorded.
    pub open spec fn outcomes_recorded(self, now: u128) -> Self {
        (NodeView {
            registry: RegistryView { events: Seq::empty(), ..self.registry },
            ..self
        }).events_recorded(self.registry.events, now)
    }

    /// What has to be done on disk or in the log.
    pub open spec fn due(self, now: u128) -> Due {
        Due {
            prune: self.retention_secs != 0 && now >= self.next_prune,
            snapshot: now >= self.next_snapshot,
            rank_log: now >= self.next_rank_log,
        }
    }

    /// The node after what is due has been put off to the next time.
    pub open spec fn put_off(self, now: u128) -> Self {
        let due = self.due(now);
        NodeView {
            next_prune: if due.prune {
                after(now, PRUNE_INTERVAL as int)
            } else {
                self.next_prune
            },
            next_snapshot: if due.snapshot {
                after(now, SNAPSHOT_INTERVAL as int)
            } else {
                self.next_snapshot
            },
            next_rank_log: if due.rank_log {
                after(now, RANK_LOG_INTERVAL as int)
            } else {
                self.next_rank_log
            },
            ..self
        }
    }

    /// The node after a tick.
    pub open spec fn ticked(self, now: u128) -> Self {
        self.transfers_ticked(now).outcomes_recorded(now).ping_cycled(now).put_off(now)
    }

    /// The node after a PONG.
    pub open spec fn ponged(self, src: Endpoint, now: u128) -> Self {
        let p = match lookup(self.paths, src) {
            Some(p) => p,
            None => untried_path(now),
        };
        NodeView {
            paths: put(
                self.paths,
                src,
                PathState { last_pong: Some(now), last_ping: now, ..p },
            ),
            ..self
        }
    }

    /// The node after a peer has told what it has: refusals of what it has now
    /// are lifted.
    pub open spec fn inventory_recorded(
        self,
        peer: Endpoint,
        availability: Option<SegmentAvailability>,
        now: u128,
    ) -> Self {
        match availability {
            Some(availability) => NodeView {
                inventories: put(
                    self.inventories,
                    peer,
                    Inventory { availability, observed_at: now },
                ),
                refusals: standing_refusals(self.refusals, peer, availability),
                ..self
            },
            None => self,
        }
    }

    /// The node after a peer has said that it lacks a file.
    pub open spec fn refusal_recorded(self, peer: Endpoint, filename: Seq<char>, now: u128) -> Self {
        NodeView {
            refusals: put(live_refusals(self.refusals, now), (filename, peer), now),
            ..self
        }
    }

    /// The node after first contact via PING: a LAN beacon or a punch probe.
    /// A private source is on the LAN.
    pub open spec fn discovered(self, src: Endpoint, name: Seq<char>, now: u128) -> Self {
        let v = self.registered(src, name, now);
        if is_private_source(src) {
            NodeView {
                paths: put(
                    v.paths,
                    src,
                    PathState { lan: true, ..lookup(v.paths, src).unwrap() },
                ),
                ..v
            }
        } else {
            v
        }
    }

    /// The peers of a peerlist.
    pub open spec fn listed(self, src: Endpoint) -> Seq<Endpoint> {
        let all = eligible(self.peers, src);
        all.take(smaller(all.len() as int, PEERLIST_LIMIT as int))
    }

    /// The two peers of a peerlist that the master prefers as sources: those
    /// that it serves the least.
    pub open spec fn parents(self, src: Endpoint) -> (Option<int>, Option<int>) {
        let list = self.listed(src);
        let first = least_loaded(self.registry, list, list.len() as int, None);
        if self.role == Role::Master && first is Some {
            (first, least_loaded(self.registry, list, list.len() as int, first))
        } else {
            (None, None)
        }
    }

    /// The flags of entry `i` of a peerlist.
    pub open spec fn peer_flags(self, src: Endpoint, i: int) -> u8 {
        let p = self.listed(src)[i];
        let (a, b) = self.parents(src);
        ((if lookup(self.claims, p) == Some(p) {
            PEER_UPNP_MAPPED as int
        } else {
            0
        }) + (if shares_ip4(p, src) {
            PEER_SAME_IP as int
        } else {
            0
        }) + (if a == Some(i) || b == Some(i) {
            PEER_PARENT as int
        } else {
            0
        })) as u8
    }

    /// The answer to a peerlist request.
    pub open spec fn peerlist(self, src: Endpoint) -> Seq<(Endpoint, u8)> {
        Seq::new(
            self.listed(src).len(),
            |i: int| (self.listed(src)[i], self.peer_flags(src, i)),
        )
    }

    /// The node after a packet, and what follows from it.
    pub open spec fn content(
        self,
        id: u16,
        k: u16,
        total: u16,
        data: Seq<u8>,
        now: u128,
    ) -> (Self, EventView) {
        let (registry, step) = self.registry.content(id, k, total, data, now);
        let v = NodeView { registry, ..self };
        match step {
            StepView::Idle => (v, EventView::Nothing),
            StepView::Reply(m) => (
                v.posted(lookup(self.registry.receivers, id).unwrap().remote, m, now),
                EventView::Nothing,
            ),
            StepView::Save(data) => (
                v,
                EventView::Downloaded {
                    transfer_id: id,
                    filename: lookup(self.registry.receivers, id).unwrap().filename,
                    data,
                },
            ),
        }
    }

    /// The node after a peer has refused a file, for the moment or at all.
    pub open spec fn refused_by(
        self,
        src: Endpoint,
        id: u16,
        availability: Option<SegmentAvailability>,
        retryable: bool,
        now: u128,
    ) -> Self {
        let v = self.inventory_recorded(src, availability, now);
        let w = NodeView { registry: v.registry.refused_by_peer(id, retryable, now), ..v };
        match lookup(self.registry.receivers, id) {
            Some(r) => if retryable {
                w
            } else {
                w.refusal_recorded(src, r.filename, now)
            },
            None => w,
        }
    }

    /// The node after a message, and what follows from it.
    pub open spec fn received(self, m: MessageView, src: Endpoint, now: u128) -> (Self, EventView) {
        match m {
            MessageView::HandshakeRequest { claimed, name } => {
                let v = self.registered(src, name, now);
                (
                    (NodeView { claims: put(v.claims, src, claimed), ..v }).posted(
                        src,
                        MessageView::HandshakeResponse { observed: src, name: self.name },
                        now,
                    ),
                    EventView::Nothing,
                )
            },
            MessageView::HandshakeResponse { observed, name } => (
                NodeView { my_public: Some(observed), ..self },
                EventView::HandshakeResponse { src, name },
            ),
            MessageView::Ping { nonce, name } => if nonce == self.beacon_nonce || src
                == self.local_addr {
                // our own broadcast echo
                (self, EventView::Nothing)
            } else if !has_key(self.peers, src) && name.len() > 0 {
                (self.discovered(src, name, now), EventView::InventoryWanted { to: src })
            } else {
                (self, EventView::InventoryWanted { to: src })
            },
            MessageView::Pong { availability } => (
                self.ponged(src, now).inventory_recorded(src, availability, now),
                EventView::Nothing,
            ),
            MessageView::ManifestRequest => (self, EventView::ManifestWanted { to: src }),
            MessageView::ManifestResponse { data } => (self, EventView::ManifestResponse { data }),
            MessageView::PeerlistRequest => (
                self.posted(
                    src,
                    MessageView::PeerlistResponse { peers: self.peerlist(src) },
                    now,
                ),
                EventView::Nothing,
            ),
            MessageView::PeerlistResponse { peers } => (
                self,
                EventView::PeerlistResponse { peers },
            ),
            MessageView::SegmentRequest { transfer_id, filename } => (
                self,
                EventView::SegmentWanted {
                    transfer_id,
                    filename,
                    src,
                    readable: self.registry.admits(filename),
                },
            ),
            MessageView::SegmentContents {
                transfer_id,
                packet_number,
                total_packets,
                data,
            } => self.content(transfer_id, packet_number, total_packets, data, now),
            MessageView::SegmentNotFound { transfer_id, availability, retryable } => (
                self.refused_by(src, transfer_id, availability, retryable, now),
                EventView::Nothing,
            ),
            MessageView::Ack { transfer_id, ack_type, next_start, next_count } => (
                NodeView {
                    registry: self.registry.acked(
                        transfer_id,
                        ack_type,
                        next_start,
                        next_count,
                        now,
                    ),
                    ..self
                },
                EventView::Nothing,
            ),
        }
    }

    /// The node after a datagram, and what follows from it. What is no message
    /// is dropped; any message from a known peer refreshes its liveness.
    pub open spec fn handled(self, datagram: Seq<u8>, src: Endpoint, now: u128) -> (
        Self,
        EventView,
    ) {
        match parsed(datagram) {
            Err(_) => (self, EventView::Nothing),
            Ok(m) => self.touched(src, now).received(m, src, now),
        }
    }
}

/// What has to be done on disk or in the log after a tick.
#[derive(Clone, Copy, Debug, PartialEq, Eq, Structural)]
pub struct Due {
    pub prune: bool,
    pub snapshot: bool,
    pub rank_log: bool,
}

/// Those of a list of peers that can be reached.
pub open spec fn viable(v: NodeView, list: Seq<Endpoint>, now: u128) -> Seq<Endpoint>
    decreases list.len(),
{
    if list.len() == 0 {
        Seq::empty()
    } else {
        let rest = viable(v, list.drop_last(), now);
        if v.reachable(list.last(), now) {
            rest.push(list.last())
        } else {
            rest
        }
    }
}

impl NodeView {
    /// Whether a peer is known and its path fresh.
    pub open spec fn reachable(self, p: Endpoint, now: u128) -> bool {
        has_key(self.peers, p) && self.path_fresh(p, now)
    }

    /// Whether a peer other than `src` can be reached and has a fresh copy.
    pub open spec fn copy_elsewhere(self, filename: Seq<char>, src: Endpoint, now: u128) -> bool {
        exists|i: int|
            0 <= i < self.peers.len() && (#[trigger] self.peers[i]).0 != src && self.reachable(
                self.peers[i].0,
                now,
            ) && self.peer_availability(self.peers[i].0, filename, now) == Some(true)
    }

    /// The peers that were granted a copy of a file from the origin.
    pub open spec fn seeders(self, filename: Seq<char>) -> Seq<Endpoint> {
        match lookup(self.leases, filename) {
            Some(list) => list,
            None => Seq::empty(),
        }
    }

    /// The node after a request for a file that it has, and whether the
    /// request is granted. A master grants a file to a few peers only, which
    /// fan it out: those that hold a grant keep it, ones that are gone make
    /// room, and with no other fresh copy in reach there is always one more.
    pub open spec fn seeding(self, filename: Seq<char>, src: Endpoint, now: u128) -> (Self, bool) {
        let held = self.seeders(filename);
        let alive = viable(self, held, now);
        if self.role != Role::Master || held.contains(src) {
            (self, true)
        } else if alive.len() < self.seed_limit || !self.copy_elsewhere(filename, src, now) {
            (
                NodeView {
                    leases: put(self.leases, filename, alive.push(src)),
                    totals: Totals {
                        seeds_assigned: counted(self.totals.seeds_assigned),
                        ..self.totals
                    },
                    ..self
                },
                true,
            )
        } else {
            (
                NodeView {
                    totals: Totals {
                        seeds_denied: counted(self.totals.seeds_denied),
                        ..self.totals
                    },
                    ..self
                },
                false,
            )
        }
    }

    /// The node after a request for a file has been answered.
    pub open spec fn serving(
        self,
        transfer_id: u16,
        filename: Seq<char>,
        src: Endpoint,
        file: Option<Seq<u8>>,
        inventory: Option<SegmentAvailability>,
        now: u128,
    ) -> Self {
        if !self.registry.admits(filename) || file is None {
            (NodeView { registry: self.registry.refused(src), ..self }).posted(
                src,
                RegistryView::not_found(transfer_id, inventory, false),
                now,
            )
        } else {
            let (v, granted) = self.seeding(filename, src, now);
            if granted {
                NodeView {
                    registry: v.registry.served(transfer_id, filename, src, file, now),
                    ..v
                }
            } else {
                v.posted(src, RegistryView::not_found(transfer_id, inventory, true), now)
            }
        }
    }

    /// The node after the first `n` peers have been told what it has.
    pub open spec fn announced(
        self,
        availability: Option<SegmentAvailability>,
        n: int,
        now: u128,
    ) -> Self
        decreases n,
    {
        if n <= 0 {
            self
        } else {
            self.announced(availability, n - 1, now).posted(
                self.peers[n - 1].0,
                MessageView::Pong { availability },
                now,
            )
        }
    }

    /// The node after a download has been saved.
    pub open spec fn saved(self, id: u16, now: u128) -> Self {
        match lookup(self.registry.receivers, id) {
            Some(v) => (NodeView {
                registry: self.registry.with_receiver(id, v.saved(now)),
                ..self
            }).posted(v.remote, v.complete(), now),
            None => self,
        }
    }

    /// The node with its counts of waiting and running pulls.
    pub open spec fn with_queue(self, queue_depth: u64, inflight: u64) -> Self {
        NodeView { totals: Totals { queue_depth, inflight, ..self.totals }, ..self }
    }

    /// The node after a download from a peer has begun.
    pub open spec fn pulling(self, id: u16, remote: Endpoint, filename: Seq<char>, now: u128) -> Self {
        (NodeView { registry: self.registry.pulling(id, remote, filename, now), ..self }).posted(
            remote,
            MessageView::SegmentRequest { transfer_id: id, filename },
            now,
        )
    }

    /// Posting touches nothing but the injector and the outbox.
    pub proof fn posting_keeps(self, batch: Seq<Letter>, now: u128)
        ensures
            self.posted_all(batch, now) == (NodeView {
                fault: self.posted_all(batch, now).fault,
                outbox: self.posted_all(batch, now).outbox,
                ..self
            }),
        decreases batch.len(),
    {
        if batch.len() > 0 {
            self.posting_keeps(batch.drop_last(), now);
        }
    }

    /// Pinging touches nothing but the injector, the outbox and the paths.
    pub proof fn pinging_keeps(self, n: int, now: u128)
        ensures
            self.pinged(n, now) == (NodeView {
                fault: self.pinged(n, now).fault,
                outbox: self.pinged(n, now).outbox,
                paths: self.pinged(n, now).paths,
                ..self
            }),
        decreases n,
    {
        if n > 0 {
            self.pinging_keeps(n - 1, now);
        }
    }

    /// Announcing touches nothing but the injector and the outbox.
    pub proof fn announcing_keeps(
        self,
        availability: Option<SegmentAvailability>,
        n: int,
        now: u128,
    )
        ensures
            self.announced(availability, n, now) == (NodeView {
                fault: self.announced(availability, n, now).fault,
                outbox: self.announced(availability, n, now).outbox,
                ..self
            }),
        decreases n,
    {
        if n > 0 {
            self.announcing_keeps(availability, n - 1, now);
        }
    }
}

impl Node {
    /// A node that starts at `now`.
    pub fn new(
        name: String,
        role: Role,
        settings: Settings,
        fault: FaultInjector,
        local_addr: Endpoint,
        retention_secs: u64,
        seed_limit: u64,
        now: u128,
    ) -> (n: Node)
        ensures
            n@ == (NodeView {
                name: name@,
                role,
                registry: RegistryView {
                    settings,
                    senders: Seq::empty(),
                    receivers: Seq::empty(),
                    events: Seq::empty(),
                },
                peers: Seq::empty(),
                peer_stats: Seq::empty(),
                fault: fault@,
                outbox: Seq::empty(),
                my_public: None,
                claimed: None,
                beacon_nonce: n@.beacon_nonce,
                claims: Seq::empty(),
                paths: Seq::empty(),
                inventories: Seq::empty(),
                refusals: Seq::empty(),
                leases: Seq::empty(),
                local_addr,
                next_ping: after(now, PING_INTERVAL as int),
                next_beacon: after(now, BEACON_INTERVAL as int),
                started: now,
                totals: Totals {
                    downloaded_total: 0,
                    downloaded_bytes: 0,
                    served_total: 0,
                    served_bytes: 0,
                    queue_depth: 0,
                    inflight: 0,
                    seeds_assigned: 0,
                    seeds_denied: 0,
                },
                retention_secs,
                seed_limit,
                next_snapshot: after(now, SNAPSHOT_INTERVAL as int),
                next_rank_log: after(now, RANK_LOG_INTERVAL as int),
                next_prune: after(now, PRUNE_INTERVAL as int),
            }),
            n@.wf(),
    {
        let mut rng = Rng::new(0);
        let beacon_nonce: u32 = (rng.next() % 0x1_0000_0000) as u32;
        let n = Node {
            name,
            role,
            registry: TransferRegistry::new(settings),
            peers: Table::new(),
            peer_stats: Table::new(),
            fault,
            outbox: Vec::new(),
            my_public: None,
            claimed: None,
            beacon_nonce,
            claims: Table::new(),
            paths: Table::new(),
            inventories: Table::new(),
            refusals: Table::new(),
            leases: Table::new(),
            local_addr,
            next_ping: later(now, PING_INTERVAL),
            next_beacon: later(now, BEACON_INTERVAL),
            started: now,
            totals: Totals {
                downloaded_total: 0,
                downloaded_bytes: 0,
                served_total: 0,
                served_bytes: 0,
                queue_depth: 0,
                inflight: 0,
                seeds_assigned: 0,
                seeds_denied: 0,
            },
            retention_secs,
            seed_limit,
            next_snapshot: later(now, SNAPSHOT_INTERVAL),
            next_rank_log: later(now, RANK_LOG_INTERVAL),
            next_prune: later(now, PRUNE_INTERVAL),
        };
        proof {
            assert(n@.outbox =~= Seq::empty());
        }
        n
    }

    /// Hands a datagram to the fault injector; what goes out at once gathers
    /// in the outbox.
    pub fn send(&mut self, bytes: &[u8], dst: Endpoint, now: u128)
        ensures
            final(self)@ == old(self)@.sent(bytes@, dst, now),
    {
        let ghost before = self@.outbox;
        let datagram = Datagram { bytes: vstd::slice::slice_to_vec(bytes), to: dst };
        let mut out = self.fault.send(datagram, now);
        let ghost sent = datagrams(out@);
        self.outbox.append(&mut out);
        proof {
            assert(self@.outbox =~= before + sent);
        }
    }

    /// Hands a message to the fault injector.
    pub fn post(&mut self, to: Endpoint, m: &Message, now: u128)
        ensures
            final(self)@ == old(self)@.posted(to, m@, now),
    {
        let bytes = encode(m);
        self.send(bytes.as_slice(), to, now);
    }

    fn post_all(&mut self, batch: &[(Endpoint, Message)], now: u128)
        ensures
            final(self)@ == old(self)@.posted_all(letters(batch@), now),
    {
        let ghost all = letters(batch@);
        let mut i: usize = 0;
        proof {
            assert(all.take(0).len() == 0);
        }
        while i < batch.len()
            invariant
                i <= batch@.len(),
                all == letters(batch@),
                self@ == old(self)@.posted_all(all.take(i as int), now),
            decreases batch@.len() - i,
        {
            proof {
                assert(all.take(i + 1).drop_last() =~= all.take(i as int));
                assert(all.take(i + 1).last() == (batch@[i as int].0, batch@[i as int].1@));
            }
            self.post(batch[i].0, &batch[i].1, now);
            i = i + 1;
        }
        proof {
            assert(all.take(i as int) =~= all);
        }
    }

    /// The datagrams that are ready to go.
    pub fn take_outbox(&mut self) -> (out: Vec<Datagram>)
        ensures
            datagrams(out@) == old(self)@.outbox,
            final(self)@ == (NodeView { outbox: Seq::empty(), ..old(self)@ }),
    {
        let mut out: Vec<Datagram> = Vec::new();
        std::mem::swap(&mut self.outbox, &mut out);
        proof {
            assert(self@.outbox =~= Seq::empty());
        }
        out
    }

    /// Takes note that a datagram has gone out, or could not.
    pub fn emitted(&mut self, ok: bool)
        ensures
            final(self)@ == (NodeView {
                fault: FaultView {
                    stats: FaultStats {
                        emitted: if ok {
                            counted(old(self)@.fault.stats.emitted)
                        } else {
                            old(self)@.fault.stats.emitted
                        },
                        ..old(self)@.fault.stats
                    },
                    ..old(self)@.fault
                },
                ..old(self)@
            }),
    {
        self.fault.emitted(ok);
    }

    /// Set our claimed public endpoint (port mapping).
    pub fn set_claimed(&mut self, addr: Endpoint)
        ensures
            final(self)@ == (NodeView { claimed: Some(addr), ..old(self)@ }),
    {
        self.claimed = Some(addr);
    }

    /// Our claimed public endpoint, if any.
    pub fn claimed(&self) -> (r: Option<Endpoint>)
        ensures
            r == self@.claimed,
    {
        self.claimed
    }

    /// Our public endpoint as others see it, if known.
    pub fn my_public(&self) -> (r: Option<Endpoint>)
        ensures
            r == self@.my_public,
    {
        self.my_public
    }

    /// The display name.
    pub fn name(&self) -> (s: &str)
        ensures
            s@ == self@.name,
    {
        self.name.as_str()
    }

    /// How long files outlive the playlist, in seconds; 0 for ever.
    pub fn retention_secs(&self) -> (r: u64)
        ensures
            r == self@.retention_secs,
    {
        self.retention_secs
    }

    /// Sets how many pulls are waiting and under way.
    pub fn set_queue(&mut self, queue_depth: u64, inflight: u64)
        ensures
            final(self)@ == old(self)@.with_queue(queue_depth, inflight),
    {
        self.totals.queue_depth = queue_depth;
        self.totals.inflight = inflight;
    }

    /// Is `addr` a LAN path (discovered via beacon)?
    pub fn is_lan_path(&self, addr: Endpoint) -> (r: bool)
        ensures
            r == self@.is_lan_path(addr),
    {
        match self.paths.get(&addr) {
            Some(p) => p.lan,
            None => false,
        }
    }

    /// Is the direct path to `addr` fresh?
    pub fn path_fresh(&self, addr: Endpoint, now: u128) -> (r: bool)
        ensures
            r == self@.path_fresh(addr, now),
    {
        match self.paths.get(&addr) {
            Some(p) => p.fresh(now),
            None => false,
        }
    }

    /// The number of known peers.
    pub fn peer_count(&self) -> (n: usize)
        ensures
            n == self@.peers.len(),
    {
        self.peers.len()
    }

    /// The address of a known peer, by its place in the list.
    pub fn peer_at(&self, i: usize) -> (e: Endpoint)
        requires
            i < self@.peers.len(),
        ensures
            e == self@.peers[i as int].0,
    {
        *self.peers.key_at(i)
    }

    /// The score of a peer; that of a new one where there is none.
    pub fn score_of(&self, peer: Endpoint) -> (score: u32)
        requires
            self@.wf(),
        ensures
            score == match lookup(self@.peer_stats, peer) {
                Some(stat) => stat.score,
                None => 50,
            },
            score <= 100,
    {
        proof {
            position_is_first(self@.peer_stats, peer, 0);
        }
        match self.peer_stats.get(&peer) {
            Some(stat) => stat.score,
            None => 50,
        }
    }

    /// Whether a peer is known.
    pub fn knows(&self, addr: Endpoint) -> (r: bool)
        ensures
            r == has_key(self@.peers, addr),
    {
        self.peers.contains(&addr)
    }

    /// Forgets a peer.
    pub fn remove_peer(&mut self, addr: Endpoint)
        requires
            old(self)@.wf(),
        ensures
            final(self)@ == (NodeView { peers: removed(old(self)@.peers, addr), ..old(self)@ }),
            final(self)@.wf(),
    {
        proof {
            crate::table::lookup_after_removed(self@.peers, addr, addr);
        }
        let gone = self.peers.remove(&addr);
    }

    /// Record a peer's compact recent segment inventory.
    pub fn record_availability(
        &mut self,
        peer: Endpoint,
        availability: SegmentAvailability,
        now: u128,
    )
        ensures
            final(self)@ == old(self)@.inventory_recorded(peer, Some(availability), now),
    {
        self.inventories.insert(peer, Inventory { availability, observed_at: now });
        let ghost v = self@;
        let ghost all = v.refusals;
        let mut kept: Table<(String, Endpoint), u128> = Table::new();
        let ghost mut i: int = 0;
        proof {
            assert(all.skip(0) =~= all);
            assert(all.take(0).len() == 0);
        }
        while self.refusals.len() > 0
            invariant
                0 <= i <= all.len(),
                all == v.refusals,
                self@ == (NodeView { refusals: self@.refusals, ..v }),
                self@.refusals == all.skip(i),
                kept@ == standing_refusals(all.take(i), peer, availability),
            decreases self.refusals@.len(),
        {
            proof {
                assert(all.take(i + 1).drop_last() =~= all.take(i));
                assert(all.take(i + 1).last() == all[i]);
                assert(all.skip(i)[0] == all[i]);
                assert(all.skip(i).skip(1) =~= all.skip(i + 1));
            }
            if let Some((k, t)) = self.refusals.pop_first() {
                let confirmed = match segment_number(k.0.as_str()) {
                    Some(n) => match availability.contains(n) {
                        Some(has) => has,
                        None => false,
                    },
                    None => false,
                };
                if !(k.1 == peer && confirmed) {
                    kept.push_last(k, t);
                }
            }
            proof {
                i = i + 1;
            }
        }
        proof {
            assert(all.take(i) =~= all);
        }
        self.refusals = kept;
    }

    /// Whether a peer has a file: nothing where no recent inventory and no
    /// recent refusal tells.
    pub fn peer_availability(&self, peer: Endpoint, filename: &str, now: u128) -> (r: Option<bool>)
        ensures
            r == self@.peer_availability(peer, filename@, now),
    {
        let number = segment_number(filename);
        let refused: Option<u128> = match self.refusals.get(&(owned(filename), peer)) {
            Some(t) => Some(*t),
            None => None,
        };
        copy_known(self.inventories.get(&peer), refused, number, now)
    }

    /// False only when a recent inventory or refusal explicitly says the peer
    /// lacks `filename`; unknown or stale inventories remain eligible.
    pub fn peer_may_have(&self, peer: Endpoint, filename: &str, now: u128) -> (r: bool)
        ensures
            r == (self@.peer_availability(peer, filename@, now) != Some(false)),
    {
        match self.peer_availability(peer, filename, now) {
            Some(has) => has,
            None => true,
        }
    }

    /// Record that a peer lacks a file.
    pub fn record_not_found(&mut self, peer: Endpoint, filename: &str, now: u128)
        ensures
            final(self)@ == old(self)@.refusal_recorded(peer, filename@, now),
    {
        let ghost all = self@.refusals;
        let mut kept: Table<(String, Endpoint), u128> = Table::new();
        let ghost mut i: int = 0;
        proof {
            assert(all.skip(0) =~= all);
            assert(all.take(0).len() == 0);
        }
        while self.refusals.len() > 0
            invariant
                0 <= i <= all.len(),
                self@ == (NodeView { refusals: self@.refusals, ..old(self)@ }),
                self@.refusals == all.skip(i),
                kept@ == live_refusals(all.take(i), now),
            decreases self.refusals@.len(),
        {
            proof {
                assert(all.take(i + 1).drop_last() =~= all.take(i));
                assert(all.take(i + 1).last() == all[i]);
                assert(all.skip(i)[0] == all[i]);
                assert(all.skip(i).skip(1) =~= all.skip(i + 1));
            }
            if let Some((k, t)) = self.refusals.pop_first() {
                if counts(t, now) {
                    kept.push_last(k, t);
                }
            }
            proof {
                i = i + 1;
            }
        }
        proof {
            assert(all.take(i) =~= all);
        }
        kept.insert((owned(filename), peer), now);
        self.refusals = kept;
    }

    /// Resolve a peer address to the best address to reach it: if the same
    /// peer name is known via a LAN path, use that.
    pub fn effective_addr(&self, addr: Endpoint) -> (r: Endpoint)
        ensures
            r == self@.effective_addr(addr),
    {
        let info = match self.peers.get(&addr) {
            Some(info) => info,
            None => {
                return addr;
            },
        };
        let mut i: usize = 0;
        while i < self.peers.len()
            invariant
                i <= self.peers@.len(),
                lookup(self@.peers, addr) == Some(info@),
                lan_twin(self@, info.name@, addr, 0) == lan_twin(self@, info.name@, addr, i as int),
            decreases self.peers@.len() - i,
        {
            let a = *self.peers.key_at(i);
            if same_text(self.peers.value_at(i).name.as_str(), info.name.as_str()) && a != addr
                && self.is_lan_path(a) {
                return a;
            }
            i = i + 1;
        }
        addr
    }

    fn record_pong(&mut self, src: Endpoint, now: u128)
        ensures
            final(self)@ == old(self)@.ponged(src, now),
    {
        let p: PathState = match self.paths.get(&src) {
            Some(p) => *p,
            None => PathState::new(now),
        };
        self.paths.insert(
            src,
            PathState { last_pong: Some(now), last_ping: now, lan: p.lan },
        );
    }

    /// Makes a peer known, or renews it.
    pub fn register_peer(&mut self, addr: Endpoint, name: &str, now: u128)
        requires
            old(self)@.wf(),
        ensures
            final(self)@ == old(self)@.registered(addr, name@, now),
            final(self)@.wf(),
            has_key(final(self)@.paths, addr),
    {
        proof {
            put_keeps_distinct(
                self@.peers,
                addr,
                PeerInfoView { name: name@, last_seen: now },
            );
            put_keeps_distinct(self@.peer_stats, addr, PeerStatView::fresh(name@, now));
            position_is_first(self@.paths, addr, 0);
            position_is_first(self@.peer_stats, addr, 0);
            position_is_first(self@.paths.push((addr, untried_path(now))), addr, 0);
        }
        self.peers.insert(addr, PeerInfo { name: owned(name), last_seen: now });
        self.peer_stats.enter(addr, PeerStat::new(owned(name), now));
        self.paths.enter(addr, PathState::new(now));
        proof {
            if !has_key(old(self)@.paths, addr) {
                let n = old(self)@.paths.len() as int;
                assert(self@.paths[n].0 == addr);
            }
        }
    }

    fn touch_peer(&mut self, addr: Endpoint, now: u128)
        requires
            old(self)@.wf(),
        ensures
            final(self)@ == old(self)@.touched(addr, now),
            final(self)@.wf(),
    {
        proof {
            position_is_first(self@.peers, addr, 0);
            position_is_first(self@.peer_stats, addr, 0);
        }
        if let Some(i) = self.peers.find(&addr) {
            let info = self.peers.value_mut(i);
            info.last_seen = now;
        }
        if let Some(i) = self.peer_stats.find(&addr) {
            let stat = self.peer_stats.value_mut(i);
            stat.last_seen = now;
        }
        proof {
            if let Some(info) = lookup(old(self)@.peers, addr) {
                put_keeps_distinct(
                    old(self)@.peers,
                    addr,
                    PeerInfoView { last_seen: now, ..info },
                );
            }
            if let Some(stat) = lookup(old(self)@.peer_stats, addr) {
                put_keeps_distinct(
                    old(self)@.peer_stats,
                    addr,
                    PeerStatView { last_seen: now, ..stat },
                );
            }
        }
    }

    /// Drop peers we haven't heard from in `ttl`.
    pub fn prune_peers(&mut self, ttl: u128, now: u128)
        requires
            old(self)@.wf(),
        ensures
            final(self)@ == (NodeView {
                peers: live_peers(old(self)@.peers, ttl, now),
                ..old(self)@
            }),
            final(self)@.wf(),
    {
        let ghost all = self@.peers;
        let mut kept: Table<Endpoint, PeerInfo> = Table::new();
        let ghost mut i: int = 0;
        proof {
            assert(all.skip(0) =~= all);
            assert(all.take(0).len() == 0);
            live_peers_distinct(all, ttl, now);
        }
        while self.peers.len() > 0
            invariant
                0 <= i <= all.len(),
                self@ == (NodeView { peers: self@.peers, ..old(self)@ }),
                self@.peers == all.skip(i),
                kept@ == live_peers(all.take(i), ttl, now),
            decreases self.peers@.len(),
        {
            proof {
                assert(all.take(i + 1).drop_last() =~= all.take(i));
                assert(all.take(i + 1).last() == all[i]);
                assert(all.skip(i)[0] == all[i]);
                assert(all.skip(i).skip(1) =~= all.skip(i + 1));
            }
            if let Some((addr, info)) = self.peers.pop_first() {
                if elapsed(now, info.last_seen) < ttl {
                    kept.push_last(addr, info);
                }
            }
            proof {
                i = i + 1;
            }
        }
        proof {
            assert(all.take(i) =~= all);
        }
        self.peers = kept;
    }

    fn name_of(&self, peer: Endpoint) -> (s: String)
        ensures
            s@ == self@.name_of(peer),
    {
        match self.peers.get(&peer) {
            Some(info) => owned(info.name.as_str()),
            None => peer.text(),
        }
    }

    fn stat_at(&mut self, peer: Endpoint, now: u128) -> (i: usize)
        requires
            old(self)@.wf(),
        ensures
            i < final(self)@.peer_stats.len(),
            final(self)@.peer_stats[i as int] == (peer, old(self)@.stat_of(peer, now)),
            forall|v: PeerStatView|
                #[trigger] final(self)@.peer_stats.update(i as int, (peer, v)) == put(
                    old(self)@.peer_stats,
                    peer,
                    v,
                ),
            final(self)@ == (NodeView { peer_stats: final(self)@.peer_stats, ..old(self)@ }),
            final(self)@.wf(),
    {
        proof {
            position_is_first(self@.peer_stats, peer, 0);
            put_keeps_distinct(self@.peer_stats, peer, self@.stat_of(peer, now));
            stats_stay_wf(self@.peer_stats, peer, PeerStatView::fresh(self@.name_of(peer), now));
        }
        match self.peer_stats.find(&peer) {
            Some(i) => i,
            None => {
                let name = self.name_of(peer);
                let i: usize = self.peer_stats.len();
                self.peer_stats.push_last(peer, PeerStat::new(name, now));
                proof {
                    let stats = old(self)@.peer_stats;
                    assert forall|v: PeerStatView|
                        #[trigger] self@.peer_stats.update(i as int, (peer, v)) == put(
                            stats,
                            peer,
                            v,
                        ) by {
                        assert(self@.peer_stats.update(i as int, (peer, v)) =~= stats.push(
                            (peer, v),
                        ));
                    }
                }
                i
            },
        }
    }

    /// Record how a pull from `peer` ended (requester-side ranking input).
    pub fn record_pull(
        &mut self,
        peer: Endpoint,
        result: PullResult,
        latency_ms: Option<u64>,
        bytes: u64,
        now: u128,
    )
        requires
            old(self)@.wf(),
        ensures
            final(self)@ == old(self)@.pull_recorded(peer, result, latency_ms, bytes, now),
            final(self)@.wf(),
    {
        let i = self.stat_at(peer, now);
        proof {
            let stat = self@.peer_stats[i as int].1;
            assert(stat.wf());
            put_keeps_distinct(
                old(self)@.peer_stats,
                peer,
                stat.pulled(result, latency_ms, bytes, now),
            );
        }
        self.peer_stats.value_mut(i).on_pull(result, latency_ms, bytes, now);
        if result == PullResult::Done {
            self.totals.downloaded_total = self.totals.downloaded_total.wrapping_add(1);
            self.totals.downloaded_bytes = self.totals.downloaded_bytes.wrapping_add(bytes);
        }
    }

    /// Record how a serve to `peer` ended (server-side ranking input).
    pub fn record_serve(&mut self, peer: Endpoint, result: ServeResult, bytes: u64, now: u128)
        requires
            old(self)@.wf(),
        ensures
            final(self)@ == old(self)@.serve_recorded(peer, result, bytes, now),
            final(self)@.wf(),
    {
        let i = self.stat_at(peer, now);
        proof {
            let stat = self@.peer_stats[i as int].1;
            assert(stat.wf());
            put_keeps_distinct(old(self)@.peer_stats, peer, stat.served_to(result, bytes));
        }
        self.peer_stats.value_mut(i).on_serve(result, bytes);
        if result == ServeResult::Served {
            self.totals.served_total = self.totals.served_total.wrapping_add(1);
            self.totals.served_bytes = self.totals.served_bytes.wrapping_add(bytes);
        }
    }

    /// The earliest instant at which the node wants to be ticked.
    pub fn next_deadline(&self, now: u128) -> (t: Option<u128>)
        ensures
            is_earliest(
                deadlines(self@.registry) + match self@.fault.deadline(now) {
                    Some(d) => seq![d],
                    None => Seq::empty(),
                },
                t,
            ),
    {
        let a = self.registry.next_deadline();
        let b = self.fault.next_deadline(now);
        let ghost all = deadlines(self@.registry);
        match (a, b) {
            (Some(x), Some(y)) => {
                proof {
                    let both = all + seq![y];
                    let i = choose|i: int| 0 <= i < all.len() && all[i] == x;
                    assert(both[i] == x);
                    assert(both[all.len() as int] == y);
                }
                Some(
                    if x <= y {
                        x
                    } else {
                        y
                    },
                )
            },
            (Some(x), None) => {
                proof {
                    assert(all + Seq::<u128>::empty() =~= all);
                }
                Some(x)
            },
            (None, Some(y)) => {
                proof {
                    assert((all + seq![y])[0] == y);
                }
                Some(y)
            },
            (None, None) => None,
        }
    }
}

proof fn live_peers_distinct(peers: Seq<(Endpoint, PeerInfoView)>, ttl: u128, now: u128)
    requires
        distinct(peers),
    ensures
        distinct(live_peers(peers, ttl, now)),
        forall|i: int|
            0 <= i < live_peers(peers, ttl, now).len() ==> exists|j: int|
                0 <= j < peers.len() && #[trigger] peers[j] == #[trigger] live_peers(
                    peers,
                    ttl,
                    now,
                )[i],
    decreases peers.len(),
{
    if peers.len() > 0 {
        let rest = peers.drop_last();
        assert forall|i: int, j: int| 0 <= i < j < rest.len() implies (#[trigger] rest[i]).0 != (
        #[trigger] rest[j]).0 by {
            assert(peers[i].0 != peers[j].0);
        }
        live_peers_distinct(rest, ttl, now);
        let before = live_peers(rest, ttl, now);
        let kept = live_peers(peers, ttl, now);
        assert forall|i: int| 0 <= i < kept.len() implies exists|j: int|
            0 <= j < peers.len() && #[trigger] peers[j] == #[trigger] kept[i] by {
            if i < before.len() {
                assert(kept[i] == before[i]);
                let j = choose|j: int| 0 <= j < rest.len() && #[trigger] rest[j] == before[i];
                assert(rest[j] == before[i]);
                assert(peers[j] == kept[i]);
            } else {
                assert(peers[peers.len() - 1] == kept[i]);
            }
        }
        assert forall|i: int, j: int| 0 <= i < j < kept.len() implies (#[trigger] kept[i]).0 != (
        #[trigger] kept[j]).0 by {
            if j < before.len() {
                assert(before[i].0 != before[j].0);
            } else {
                assert(kept[i] == before[i]);
                let m = choose|m: int| 0 <= m < rest.len() && #[trigger] rest[m] == before[i];
                assert(rest[m] == before[i]);
                assert(peers[m].0 != peers[peers.len() - 1].0);
            }
        }
    }
}

impl Node {
    /// Advances everything whose time has come; gives what has to be done on
    /// disk or in the log.
    pub fn tick(&mut self, now: u128) -> (due: Due)
        requires
            old(self)@.wf(),
        ensures
            final(self)@ == old(self)@.ticked(now),
            due == old(self)@.transfers_ticked(now).outcomes_recorded(now).ping_cycled(now).due(
                now,
            ),
            final(self)@.wf(),
    {
        self.tick_transfers(now);
        self.record_outcomes(now);
        self.ping_cycle(now);
        let due = Due {
            prune: self.retention_secs != 0 && now >= self.next_prune,
            snapshot: now >= self.next_snapshot,
            rank_log: now >= self.next_rank_log,
        };
        if due.prune {
            self.next_prune = later(now, PRUNE_INTERVAL);
        }
        if due.snapshot {
            self.next_snapshot = later(now, SNAPSHOT_INTERVAL);
        }
        if due.rank_log {
            self.next_rank_log = later(now, RANK_LOG_INTERVAL);
        }
        due
    }

    fn tick_transfers(&mut self, now: u128)
        requires
            old(self)@.wf(),
        ensures
            final(self)@ == old(self)@.transfers_ticked(now),
            final(self)@.wf(),
    {
        let batch = self.registry.tick(now);
        let ghost v = self@;
        self.post_all(batch.as_slice(), now);
        proof {
            v.posting_keeps(letters(batch@), now);
        }
        let ghost before = self@.outbox;
        let mut out = self.fault.drain(now);
        let ghost released = datagrams(out@);
        self.outbox.append(&mut out);
        proof {
            assert(self@.outbox =~= before + released);
        }
    }

    fn record_outcomes(&mut self, now: u128)
        requires
            old(self)@.wf(),
        ensures
            final(self)@ == old(self)@.outcomes_recorded(now),
            final(self)@.wf(),
    {
        let events = self.registry.drain_events();
        let ghost all = events@;
        let ghost v = self@;
        let mut i: usize = 0;
        proof {
            assert(all.take(0).len() == 0);
        }
        while i < events.len()
            invariant
                i <= events@.len(),
                all == events@,
                self@ == v.events_recorded(all.take(i as int), now),
                self@.wf(),
            decreases events@.len() - i,
        {
            proof {
                assert(all.take(i + 1).drop_last() =~= all.take(i as int));
                assert(all.take(i + 1).last() == all[i as int]);
            }
            match events[i] {
                RegEvent::Served { src, bytes } => {
                    self.record_serve(src, ServeResult::Served, bytes, now);
                },
                RegEvent::NotFound { src } => {
                    self.record_serve(src, ServeResult::NotFound, 0, now);
                },
                RegEvent::SenderFailed { src } => {
                    self.record_serve(src, ServeResult::SenderFailed, 0, now);
                },
            }
            i = i + 1;
        }
        proof {
            assert(all.take(i as int) =~= all);
        }
    }

    fn ping_message(&self) -> (m: Message)
        ensures
            m@ == self@.ping(),
    {
        Message::Ping { nonce: self.beacon_nonce, name: owned(self.name.as_str()) }
    }

    /// PING every known peer (keep-alive + punch) and, for peers, a LAN beacon
    /// (broadcast PING).
    fn ping_cycle(&mut self, now: u128)
        requires
            old(self)@.wf(),
        ensures
            final(self)@ == old(self)@.ping_cycled(now),
            final(self)@.wf(),
    {
        let ping = self.ping_message();
        if now >= self.next_ping {
            self.next_ping = later(now, PING_INTERVAL);
            let ghost v = self@;
            let n: usize = self.peers.len();
            let mut i: usize = 0;
            while i < n
                invariant
                    i <= n,
                    n == v.peers.len(),
                    ping@ == v.ping(),
                    v.wf(),
                    self@ == v.pinged(i as int, now),
                decreases n - i,
            {
                proof {
                    v.pinging_keeps(i as int, now);
                }
                let addr = *self.peers.key_at(i);
                self.post(addr, &ping, now);
                self.paths.enter(addr, PathState::new(now));
                i = i + 1;
            }
            proof {
                v.pinging_keeps(n as int, now);
            }
        }
        if self.role == Role::Peer && now >= self.next_beacon {
            self.next_beacon = later(now, BEACON_INTERVAL);
            let to = Endpoint::V4 { ip: 0xffff_ffff, port: self.local_addr.port() };
            self.post(to, &ping, now);
        }
    }

    fn listed(&self, src: Endpoint) -> (list: Vec<Endpoint>)
        ensures
            list@ == self@.listed(src),
    {
        let mut list: Vec<Endpoint> = Vec::new();
        let far = remote_public(src);
        let mut i: usize = 0;
        let ghost all = self@.peers;
        proof {
            assert(all.take(0).len() == 0);
        }
        while i < self.peers.len()
            invariant
                i <= self.peers@.len(),
                all == self.peers@,
                far == is_remote_public(src),
                list@ == eligible(all.take(i as int), src),
            decreases self.peers@.len() - i,
        {
            proof {
                assert(all.take(i + 1).drop_last() =~= all.take(i as int));
                assert(all.take(i + 1).last() == all[i as int]);
            }
            let p = *self.peers.key_at(i);
            if p != src && !(far && !remote_public(p)) {
                list.push(p);
            }
            i = i + 1;
        }
        proof {
            assert(all.take(i as int) =~= all);
        }
        if list.len() > PEERLIST_LIMIT {
            list.truncate(PEERLIST_LIMIT);
        }
        proof {
            assert(list@ =~= self@.listed(src));
        }
        list
    }

    fn least_loaded(&self, list: &[Endpoint], skip: Option<usize>) -> (r: Option<usize>)
        ensures
            ({
                let s = match skip {
                    Some(i) => Some(i as int),
                    None => None,
                };
                match r {
                    Some(i) => least_loaded(self@.registry, list@, list@.len() as int, s) == Some(
                        i as int,
                    ),
                    None => least_loaded(self@.registry, list@, list@.len() as int, s) is None,
                }
            }),
    {
        let ghost s = match skip {
            Some(i) => Some(i as int),
            None => None,
        };
        let mut best: Option<usize> = None;
        let mut n: usize = 0;
        while n < list.len()
            invariant
                n <= list@.len(),
                s == match skip {
                    Some(i) => Some(i as int),
                    None => None,
                },
                match best {
                    Some(b) => b < n && least_loaded(self@.registry, list@, n as int, s) == Some(
                        b as int,
                    ),
                    None => least_loaded(self@.registry, list@, n as int, s) is None,
                },
            decreases list@.len() - n,
        {
            let skipped = match skip {
                Some(i) => i == n,
                None => false,
            };
            if !skipped {
                best = match best {
                    Some(b) => {
                        if self.registry.sender_load(list[n]) < self.registry.sender_load(list[b]) {
                            Some(n)
                        } else {
                            Some(b)
                        }
                    },
                    None => Some(n),
                };
            }
            n = n + 1;
        }
        best
    }

    /// The answer to a peerlist request: our view, excluding the requester.
    /// Loopback and private endpoints are only meaningful to peers on the same
    /// host or LAN and are not advertised to remote peers.
    pub fn peerlist(&self, src: Endpoint) -> (peers: Vec<(Endpoint, u8)>)
        ensures
            peers@ == self@.peerlist(src),
    {
        let list = self.listed(src);
        let mut parents: (Option<usize>, Option<usize>) = (None, None);
        if self.role == Role::Master {
            let first = self.least_loaded(list.as_slice(), None);
            if first.is_some() {
                parents = (first, self.least_loaded(list.as_slice(), first));
            }
        }
        let mut peers: Vec<(Endpoint, u8)> = Vec::new();
        let mut i: usize = 0;
        while i < list.len()
            invariant
                i <= list@.len(),
                list@ == self@.listed(src),
                match parents.0 {
                    Some(x) => self@.parents(src).0 == Some(x as int),
                    None => self@.parents(src).0 is None,
                },
                match parents.1 {
                    Some(x) => self@.parents(src).1 == Some(x as int),
                    None => self@.parents(src).1 is None,
                },
                peers@.len() == i,
                forall|j: int|
                    0 <= j < i ==> #[trigger] peers@[j] == (list@[j], self@.peer_flags(src, j)),
            decreases list@.len() - i,
        {
            let p = list[i];
            let mut flags: u8 = 0;
            if let Some(claim) = self.claims.get(&p) {
                if *claim == p {
                    flags = flags + PEER_UPNP_MAPPED;
                }
            }
            if same_ip4(p, src) {
                flags = flags + PEER_SAME_IP;
            }
            let parent = match parents.0 {
                Some(x) => x == i,
                None => false,
            } || match parents.1 {
                Some(x) => x == i,
                None => false,
            };
            if parent {
                flags = flags + PEER_PARENT;
            }
            peers.push((p, flags));
            i = i + 1;
        }
        proof {
            assert(peers@ =~= self@.peerlist(src));
        }
        peers
    }

    fn discover(&mut self, src: Endpoint, name: &str, now: u128)
        requires
            old(self)@.wf(),
        ensures
            final(self)@ == old(self)@.discovered(src, name@, now),
            final(self)@.wf(),
    {
        self.register_peer(src, name, now);
        if private_source(src) {
            proof {
                position_is_first(self@.paths, src, 0);
            }
            if let Some(i) = self.paths.find(&src) {
                let p = self.paths.value_mut(i);
                p.lan = true;
            }
        }
    }

    fn on_content(
        &mut self,
        transfer_id: u16,
        packet_number: u16,
        total_packets: u16,
        data: Vec<u8>,
        now: u128,
    ) -> (event: Event)
        requires
            old(self)@.wf(),
        ensures
            (final(self)@, event@) == old(self)@.content(
                transfer_id,
                packet_number,
                total_packets,
                data@,
                now,
            ),
            final(self)@.wf(),
    {
        let peer = self.registry.receiver_source(transfer_id);
        match self.registry.on_content(transfer_id, packet_number, total_packets, data, now) {
            Step::Idle => Event::Nothing,
            Step::Reply(m) => {
                if let Some((remote, filename)) = peer {
                    self.post(remote, &m, now);
                }
                Event::Nothing
            },
            Step::Save(data) => {
                match peer {
                    Some((remote, filename)) => Event::Downloaded { transfer_id, filename, data },
                    None => Event::Nothing,
                }
            },
        }
    }

    fn on_not_found(
        &mut self,
        src: Endpoint,
        transfer_id: u16,
        availability: Option<SegmentAvailability>,
        retryable: bool,
        now: u128,
    )
        requires
            old(self)@.wf(),
        ensures
            final(self)@ == old(self)@.refused_by(src, transfer_id, availability, retryable, now),
            final(self)@.wf(),
    {
        if let Some(a) = availability {
            self.record_availability(src, a, now);
        }
        if let Some(filename) = self.registry.on_not_found(transfer_id, retryable, now) {
            if !retryable {
                self.record_not_found(src, filename.as_str(), now);
            }
        }
    }

    /// Handle one incoming datagram. Returns an event for the caller.
    pub fn handle(&mut self, datagram: &[u8], src: Endpoint, now: u128) -> (event: Event)
        requires
            old(self)@.wf(),
        ensures
            (final(self)@, event@) == old(self)@.handled(datagram@, src, now),
            final(self)@.wf(),
    {
        match decode(datagram) {
            Err(_) => Event::Nothing,
            Ok(m) => {
                self.touch_peer(src, now);
                self.receive(m, src, now)
            },
        }
    }

    fn receive(&mut self, message: Message, src: Endpoint, now: u128) -> (event: Event)
        requires
            old(self)@.wf(),
        ensures
            (final(self)@, event@) == old(self)@.received(message@, src, now),
            final(self)@.wf(),
    {
        match message {
            Message::HandshakeRequest { claimed, name } => {
                self.register_peer(src, name.as_str(), now);
                self.claims.insert(src, claimed);
                let reply = Message::HandshakeResponse {
                    observed: src,
                    name: owned(self.name.as_str()),
                };
                self.post(src, &reply, now);
                Event::Nothing
            },
            Message::HandshakeResponse { observed, name } => {
                self.my_public = Some(observed);
                Event::HandshakeResponse { src, name }
            },
            Message::Ping { nonce, name } => {
                if nonce == self.beacon_nonce || src == self.local_addr {
                    return Event::Nothing;
                }
                if !self.peers.contains(&src) && !crate::text::is_empty_text(name.as_str()) {
                    self.discover(src, name.as_str(), now);
                }
                Event::InventoryWanted { to: src }
            },
            Message::Pong { availability } => {
                self.record_pong(src, now);
                if let Some(a) = availability {
                    self.record_availability(src, a, now);
                }
                Event::Nothing
            },
            Message::ManifestRequest => Event::ManifestWanted { to: src },
            Message::ManifestResponse { data } => Event::ManifestResponse { data },
            Message::PeerlistRequest => {
                let peers = self.peerlist(src);
                self.post(src, &Message::PeerlistResponse { peers }, now);
                Event::Nothing
            },
            Message::PeerlistResponse { peers } => Event::PeerlistResponse { peers },
            Message::SegmentRequest { transfer_id, filename } => {
                let readable = self.registry.admits(filename.as_str());
                Event::SegmentWanted { transfer_id, filename, src, readable }
            },
            Message::SegmentContents { transfer_id, packet_number, total_packets, data } => {
                self.on_content(transfer_id, packet_number, total_packets, data, now)
            },
            Message::SegmentNotFound { transfer_id, availability, retryable } => {
                self.on_not_found(src, transfer_id, availability, retryable, now);
                Event::Nothing
            },
            Message::Ack { transfer_id, ack_type, next_start, next_count } => {
                self.registry.on_ack(transfer_id, ack_type, next_start, next_count, now);
                Event::Nothing
            },
        }
    }

    /// Answers a PING with the node's inventory.
    pub fn pong(&mut self, to: Endpoint, availability: Option<SegmentAvailability>, now: u128)
        ensures
            final(self)@ == old(self)@.posted(to, MessageView::Pong { availability }, now),
    {
        self.post(to, &Message::Pong { availability }, now);
    }

    /// Answers a manifest request with what the manifest file holds.
    pub fn send_manifest(&mut self, to: Endpoint, data: Vec<u8>, now: u128)
        ensures
            final(self)@ == old(self)@.posted(
                to,
                MessageView::ManifestResponse { data: data@ },
                now,
            ),
    {
        self.post(to, &Message::ManifestResponse { data }, now);
    }

    /// Tells all known peers what the node has.
    pub fn announce_availability(&mut self, availability: Option<SegmentAvailability>, now: u128)
        requires
            old(self)@.wf(),
        ensures
            final(self)@ == old(self)@.announced(
                availability,
                old(self)@.peers.len() as int,
                now,
            ),
            final(self)@.wf(),
    {
        let ghost v = self@;
        let pong = Message::Pong { availability };
        let n: usize = self.peers.len();
        let mut i: usize = 0;
        while i < n
            invariant
                i <= n,
                n == v.peers.len(),
                v.wf(),
                pong@ == (MessageView::Pong { availability }),
                self@ == v.announced(availability, i as int, now),
            decreases n - i,
        {
            proof {
                v.announcing_keeps(availability, i as int, now);
            }
            let addr = *self.peers.key_at(i);
            self.post(addr, &pong, now);
            i = i + 1;
        }
        proof {
            v.announcing_keeps(availability, n as int, now);
        }
    }

    /// Takes note that a download has been saved.
    pub fn saved(&mut self, transfer_id: u16, now: u128)
        requires
            old(self)@.wf(),
        ensures
            final(self)@ == old(self)@.saved(transfer_id, now),
            final(self)@.wf(),
    {
        if let Some((to, m)) = self.registry.on_saved(transfer_id, now) {
            self.post(to, &m, now);
        }
    }

    /// Takes note that a download could not be saved.
    pub fn save_failed(&mut self, transfer_id: u16, path: &str, error: &str, now: u128)
        requires
            old(self)@.wf(),
        ensures
            final(self)@ == (NodeView {
                registry: match lookup(old(self)@.registry.receivers, transfer_id) {
                    Some(v) => old(self)@.registry.with_receiver(
                        transfer_id,
                        v.failed("failed to write "@ + path@ + ": "@ + error@, now),
                    ),
                    None => old(self)@.registry,
                },
                ..old(self)@
            }),
            final(self)@.wf(),
    {
        self.registry.on_save_failed(transfer_id, path, error, now);
    }

    /// The transfers.
    pub fn registry(&self) -> (r: &TransferRegistry)
        ensures
            r@ == self@.registry,
    {
        &self.registry
    }

    /// Begins a download from a peer; gives its number, or nothing where there
    /// is no room.
    pub fn start_pull(&mut self, remote: Endpoint, filename: &str, seed: u16, now: u128) -> (r:
        Option<u16>)
        requires
            old(self)@.wf(),
        ensures
            match r {
                Some(id) => {
                    &&& old(self)@.registry.active() < crate::transfer::MAX_CONCURRENT_TRANSFERS
                    &&& id == old(self)@.registry.fresh(seed)
                    &&& old(self)@.registry.is_free(id)
                    &&& final(self)@ == old(self)@.pulling(id, remote, filename@, now)
                },
                None => {
                    &&& old(self)@.registry.active() >= crate::transfer::MAX_CONCURRENT_TRANSFERS
                    &&& final(self)@ == old(self)@
                },
            },
            final(self)@.wf(),
    {
        match self.registry.start_receiver(remote, filename, seed, now) {
            Some((id, m)) => {
                self.post(remote, &m, now);
                Some(id)
            },
            None => None,
        }
    }

    /// Forgets a download.
    pub fn forget_pull(&mut self, transfer_id: u16)
        requires
            old(self)@.wf(),
        ensures
            final(self)@ == (NodeView {
                registry: RegistryView {
                    receivers: removed(old(self)@.registry.receivers, transfer_id),
                    ..old(self)@.registry
                },
                ..old(self)@
            }),
            final(self)@.wf(),
    {
        self.registry.remove_receiver(transfer_id);
    }

    fn reachable(&self, p: Endpoint, now: u128) -> (r: bool)
        ensures
            r == self@.reachable(p, now),
    {
        self.peers.contains(&p) && self.path_fresh(p, now)
    }

    fn copy_elsewhere(&self, filename: &str, src: Endpoint, now: u128) -> (r: bool)
        ensures
            r == self@.copy_elsewhere(filename@, src, now),
    {
        let mut i: usize = 0;
        while i < self.peers.len()
            invariant
                i <= self.peers@.len(),
                forall|j: int|
                    0 <= j < i ==> !((#[trigger] self@.peers[j]).0 != src && self@.reachable(
                        self@.peers[j].0,
                        now,
                    ) && self@.peer_availability(self@.peers[j].0, filename@, now) == Some(true)),
            decreases self.peers@.len() - i,
        {
            let p = *self.peers.key_at(i);
            assert(self@.peers[i as int].0 == p);
            if p != src && self.reachable(p, now) {
                if let Some(true) = self.peer_availability(p, filename, now) {
                    return true;
                }
            }
            i = i + 1;
        }
        false
    }

    fn seed(&mut self, filename: &str, src: Endpoint, now: u128) -> (granted: bool)
        requires
            old(self)@.wf(),
        ensures
            (final(self)@, granted) == old(self)@.seeding(filename@, src, now),
            final(self)@.wf(),
    {
        if self.role != Role::Master {
            return true;
        }
        let key = owned(filename);
        let mut alive: Vec<Endpoint> = Vec::new();
        let mut granted = false;
        let ghost held = self@.seeders(filename@);
        if let Some(list) = self.leases.get(&key) {
            let mut i: usize = 0;
            proof {
                assert(held.take(0).len() == 0);
            }
            while i < list.len()
                invariant
                    i <= list@.len(),
                    held == list@,
                    granted == held.take(i as int).contains(src),
                    alive@ == viable(self@, held.take(i as int), now),
                decreases list@.len() - i,
            {
                proof {
                    let next = held.take(i + 1);
                    assert(next.drop_last() =~= held.take(i as int));
                    assert(next.last() == held[i as int]);
                    if held.take(i as int).contains(src) {
                        let j = choose|j: int| 0 <= j < i && held.take(i as int)[j] == src;
                        assert(next[j] == src);
                    }
                    if next.contains(src) && held[i as int] != src {
                        let j = choose|j: int| 0 <= j < next.len() && next[j] == src;
                        assert(held.take(i as int)[j] == src);
                    }
                }
                if list[i] == src {
                    granted = true;
                    assert(held.take(i + 1)[i as int] == src);
                }
                if self.reachable(list[i], now) {
                    alive.push(list[i]);
                }
                i = i + 1;
            }
            proof {
                assert(held.take(i as int) =~= held);
            }
        }
        if granted {
            return true;
        }
        if (alive.len() as u64) < self.seed_limit || !self.copy_elsewhere(filename, src, now) {
            alive.push(src);
            self.leases.insert(key, alive);
            self.totals.seeds_assigned = self.totals.seeds_assigned.wrapping_add(1);
            return true;
        }
        self.totals.seeds_denied = self.totals.seeds_denied.wrapping_add(1);
        false
    }

    /// Answers a segment request with what reading the file gave.
    pub fn serve(
        &mut self,
        transfer_id: u16,
        filename: &str,
        src: Endpoint,
        file: Option<Vec<u8>>,
        inventory: Option<SegmentAvailability>,
        now: u128,
    )
        requires
            old(self)@.wf(),
        ensures
            final(self)@ == old(self)@.serving(
                transfer_id,
                filename@,
                src,
                match file {
                    Some(f) => Some(f@),
                    None => None,
                },
                inventory,
                now,
            ),
            final(self)@.wf(),
    {
        if file.is_some() && self.registry.admits(filename) {
            if !self.seed(filename, src, now) {
                let reply = self.registry.reject_not_found(transfer_id, src, inventory, true);
                self.post(src, &reply, now);
                return;
            }
        }
        if let Some(reply) = self.registry.serve(transfer_id, filename, src, file, inventory, now) {
            self.post(src, &reply, now);
        }
    }

    /// Forgets who was granted a file that is gone.
    pub fn forget_seeders(&mut self, filename: &str)
        requires
            old(self)@.wf(),
        ensures
            final(self)@ == (NodeView {
                leases: removed(old(self)@.leases, filename@),
                ..old(self)@
            }),
            final(self)@.wf(),
    {
        let gone = self.leases.remove(&owned(filename));
    }
}

impl Node {
    fn path_word(&self, addr: Endpoint, now: u128) -> (s: &'static str)
        ensures
            s@ == path_word(self@, addr, now),
    {
        if self.is_lan_path(addr) {
            "lan"
        } else if self.path_fresh(addr, now) {
            "fresh"
        } else {
            "stale"
        }
    }

    /// The statistics as lines: the node, its peers from best to worst, and
    /// what the fault injector did.
    pub fn stats_lines(&self, now: u128) -> (lines: Vec<String>)
        ensures
            strings(lines@) == lines_of(self@, now),
    {
        let mut lines: Vec<String> = Vec::new();
        let mut first = chars_of("node ");
        push_text(&mut first, self.name.as_str());
        push_text(&mut first, " uptime=");
        push_decimal(&mut first, (elapsed(now, self.started) / 1_000_000_000) as u64);
        push_text(&mut first, " downloaded=");
        push_decimal(&mut first, self.totals.downloaded_total);
        lines.push(string_of(&first));
        let order = ranked(&self.peer_stats);
        let ghost all = ranking(self@.peer_stats);
        let ghost rows = peer_lines(self@, now);
        let mut i: usize = 0;
        proof {
            assert(strings(lines@) =~= seq![node_line(self@, now)] + rows.take(0));
        }
        while i < order.len()
            invariant
                i <= order@.len(),
                order@.len() == all.len(),
                all == ranking(self@.peer_stats),
                rows == peer_lines(self@, now),
                forall|j: int| 0 <= j < order@.len() ==> (#[trigger] order@[j]) < self@.peer_stats.len(),
                order@.map_values(|j: usize| self@.peer_stats[j as int]) == all,
                strings(lines@) == seq![node_line(self@, now)] + rows.take(i as int),
            decreases order@.len() - i,
        {
            let k: usize = order[i];
            let addr = *self.peer_stats.key_at(k);
            let ghost before = strings(lines@);
            let line = string_of(
                &peer_line_of(
                    self.peer_stats.value_at(k),
                    addr,
                    self.path_word(addr, now),
                    self.inventories.get(&addr),
                    now,
                ),
            );
            lines.push(line);
            proof {
                assert(order@.map_values(|j: usize| self@.peer_stats[j as int])[i as int]
                    == all[i as int]);
                assert(rows[i as int] == line@);
                assert(strings(lines@) =~= before.push(line@));
                assert(rows.take(i + 1) =~= rows.take(i as int).push(line@));
                assert(strings(lines@) =~= seq![node_line(self@, now)] + rows.take(i + 1));
            }
            i = i + 1;
        }
        proof {
            assert(rows.take(i as int) =~= rows);
        }
        if self.fault.enabled() {
            let stats = self.fault.stats();
            let ghost before = strings(lines@);
            let mut last = chars_of("fault dropped=");
            push_decimal(&mut last, stats.dropped);
            push_text(&mut last, " emitted=");
            push_decimal(&mut last, stats.emitted);
            let line = string_of(&last);
            lines.push(line);
            proof {
                assert(strings(lines@) =~= before.push(line@));
            }
        }
        lines
    }

    /// JSON stats document; `version` is that of the program.
    pub fn stats_json(&self, version: &str, store: &StoreInfo, now: u128) -> (json: String)
        requires
            self@.wf(),
        ensures
            json@ == json_of(self@, version@, *store, now),
    {
        let mut out = chars_of("{\"version\":\"");
        push_text(&mut out, version);
        push_text(&mut out, "\",\"node\":\"");
        push_name(&mut out, self.name.as_str());
        push_text(&mut out, "\",\"role\":\"");
        push_role(&mut out, self.role);
        push_text(&mut out, "\",\"uptime_secs\":");
        push_decimal(&mut out, (elapsed(now, self.started) / 1_000_000_000) as u64);
        push_text(&mut out, ",\"peers_in_swarm\":");
        push_decimal(&mut out, self.peers.len() as u64);
        push_text(&mut out, ",\"public_endpoint\":");
        push_endpoint_json(&mut out, self.my_public);
        push_text(&mut out, ",\"peers\":[");
        self.push_peers(&mut out);
        push_text(&mut out, "]");
        proof {
            assert(out@ == json_head(self@, version@, now));
        }
        let fault = if self.fault.enabled() {
            Some(self.fault.stats())
        } else {
            None
        };
        let tail = json_tail_of(
            &self.totals,
            self.registry.active_count() as u64,
            fault,
            store,
            Ghost(self@),
        );
        push_chars(&mut out, &tail);
        string_of(&out)
    }

    fn push_peers(&self, out: &mut Vec<char>)
        ensures
            final(out)@ == old(out)@ + peers_json(ranking(self@.peer_stats)),
    {
        let order = ranked(&self.peer_stats);
        let ghost all = ranking(self@.peer_stats);
        let ghost start = out@;
        let mut i: usize = 0;
        proof {
            assert(start + peers_json(all.take(0)) =~= start);
        }
        while i < order.len()
            invariant
                i <= order@.len(),
                order@.len() == all.len(),
                all == ranking(self@.peer_stats),
                forall|j: int| 0 <= j < order@.len() ==> (#[trigger] order@[j]) < self@.peer_stats.len(),
                order@.map_values(|j: usize| self@.peer_stats[j as int]) == all,
                out@ == start + peers_json(all.take(i as int)),
            decreases order@.len() - i,
        {
            let k: usize = order[i];
            let ghost before = out@;
            proof {
                assert(order@.map_values(|j: usize| self@.peer_stats[j as int])[i as int]
                    == all[i as int]);
                assert(all.take(i + 1).drop_last() =~= all.take(i as int));
                assert(all.take(i + 1).last() == all[i as int]);
            }
            if i > 0 {
                push_text(out, ",");
            }
            let row = peer_json_of(*self.peer_stats.key_at(k), self.peer_stats.value_at(k));
            push_chars(out, &row);
            proof {
                if i > 0 {
                    assert(out@ =~= start + (peers_json(all.take(i as int)) + ","@ + peer_json(
                        all[i as int],
                    )));
                } else {
                    assert(peers_json(all.take(0)) =~= Seq::<char>::empty());
                    assert(out@ =~= start + peer_json(all[0]));
                    assert(all.take(1)[0] == all[0]);
                }
            }
            i = i + 1;
        }
        proof {
            assert(all.take(i as int) =~= all);
        }
    }

    /// Prometheus text exposition. Flat series with a `node` label; per-peer
    /// series carry a `peer` label.
    pub fn metrics_text(&self, store: &StoreInfo, now: u128) -> (text: String)
        requires
            self@.wf(),
        ensures
            text@ == metrics_of(self@, *store, now),
    {
        let mut out: Vec<char> = Vec::new();
        push_metrics_head(&mut out);
        proof {
            assert(out@ =~= metrics_head(crate::stats::definitions().len() as int));
        }
        let mut list: Vec<(&str, u64)> = vec![
            ("qstream_uptime_seconds", (elapsed(now, self.started) / 1_000_000_000) as u64),
            ("qstream_peers_in_swarm", self.peers.len() as u64),
            ("qstream_downloaded_segments_total", self.totals.downloaded_total),
            ("qstream_downloaded_bytes_total", self.totals.downloaded_bytes),
            ("qstream_uploaded_segments_total", self.totals.served_total),
            ("qstream_uploaded_bytes_total", self.totals.served_bytes),
            ("qstream_store_segments", store.store_segments),
            ("qstream_store_bytes", store.store_bytes),
            ("qstream_edge_segment", store.edge_segment),
            ("qstream_local_newest", store.local_newest),
            ("qstream_catch_up", behind(store)),
            ("qstream_active_transfers", self.registry.active_count() as u64),
            ("qstream_queue_depth", self.totals.queue_depth),
            ("qstream_inflight", self.totals.inflight),
            ("qstream_origin_seeds_assigned_total", self.totals.seeds_assigned),
            ("qstream_origin_seeds_denied_total", self.totals.seeds_denied),
            ("qstream_rss_bytes", store.rss_bytes),
        ];
        if self.fault.enabled() {
            let stats = self.fault.stats();
            list.push(("qstream_fault_dropped_total", stats.dropped));
            list.push(("qstream_fault_emitted_total", stats.emitted));
        }
        proof {
            assert(named(list@) =~= node_samples(self@, *store, now));
        }
        let label = label_of(self.name.as_str());
        push_samples(&mut out, list.as_slice(), &label);
        let order = ranked(&self.peer_stats);
        let ghost all = ranking(self@.peer_stats);
        let ghost start = out@;
        let mut i: usize = 0;
        proof {
            assert(start + peers_metrics(self@.name, all.take(0)) =~= start);
        }
        while i < order.len()
            invariant
                i <= order@.len(),
                order@.len() == all.len(),
                all == ranking(self@.peer_stats),
                forall|j: int| 0 <= j < order@.len() ==> (#[trigger] order@[j]) < self@.peer_stats.len(),
                order@.map_values(|j: usize| self@.peer_stats[j as int]) == all,
                out@ == start + peers_metrics(self@.name, all.take(i as int)),
            decreases order@.len() - i,
        {
            proof {
                assert(order@.map_values(|j: usize| self@.peer_stats[j as int])[i as int]
                    == all[i as int]);
                assert(all.take(i + 1).drop_last() =~= all.take(i as int));
                assert(all.take(i + 1).last() == all[i as int]);
            }
            push_peer_samples(
                &mut out,
                self.name.as_str(),
                self.peer_stats.value_at(order[i]),
            );
            proof {
                assert(out@ =~= start + peers_metrics(self@.name, all.take(i + 1)));
            }
            i = i + 1;
        }
        proof {
            assert(all.take(i as int) =~= all);
        }
        string_of(&out)
    }

    /// The best peers in words, for the log; nothing where none is known.
    pub fn ranking_text(&self) -> (r: Option<String>)
        ensures
            match r {
                Some(text) => self@.peer_stats.len() > 0 && text@ == "peer ranking: "@ + ranks_text(
                    ranking(self@.peer_stats).take(
                        smaller(self@.peer_stats.len() as int, 8),
                    ),
                ),
                None => self@.peer_stats.len() == 0,
            },
    {
        let order = ranked(&self.peer_stats);
        if order.len() == 0 {
            return None;
        }
        let ghost all = ranking(self@.peer_stats);
        let n: usize = if order.len() <= 8 {
            order.len()
        } else {
            8
        };
        let mut out = chars_of("peer ranking: ");
        let ghost start = out@;
        let mut i: usize = 0;
        proof {
            assert(start + ranks_text(all.take(0)) =~= start);
        }
        while i < n
            invariant
                i <= n <= order@.len(),
                order@.len() == all.len(),
                all == ranking(self@.peer_stats),
                forall|j: int| 0 <= j < order@.len() ==> (#[trigger] order@[j]) < self@.peer_stats.len(),
                order@.map_values(|j: usize| self@.peer_stats[j as int]) == all,
                out@ == start + ranks_text(all.take(i as int)),
            decreases n - i,
        {
            let ghost before = out@;
            proof {
                assert(order@.map_values(|j: usize| self@.peer_stats[j as int])[i as int]
                    == all[i as int]);
                assert(all.take(i + 1).drop_last() =~= all.take(i as int));
                assert(all.take(i + 1).last() == all[i as int]);
            }
            if i > 0 {
                push_text(&mut out, ", ");
            }
            let words = rank_words_of(self.peer_stats.value_at(order[i]));
            push_chars(&mut out, &words);
            proof {
                if i > 0 {
                    assert(out@ =~= start + (ranks_text(all.take(i as int)) + ", "@ + rank_words(
                        all[i as int].1,
                    )));
                } else {
                    assert(ranks_text(all.take(0)) =~= Seq::<char>::empty());
                    assert(out@ =~= start + rank_words(all[0].1));
                    assert(all.take(1)[0] == all[0]);
                }
            }
            i = i + 1;
        }
        Some(string_of(&out))
    }
}

} // verus!
