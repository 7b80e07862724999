//! Peer mode: handshake with a bootstrap node, poll its manifest, discover
//! other peers via peerlists, and pull missing segments from whichever peers
//! have them, several in parallel.
//!
//! Source selection is score-weighted (peer ranking), peers are preferred over
//! the bootstrap once comparable, and eviction requires repeated
//! unresponsiveness so a slow link isn't mistaken for a dead node.
use std::collections::VecDeque;
use vstd::prelude::*;
use crate::endpoint::{is_remote_public, remote_public, Endpoint};
use crate::fault::{mixed, stepped, Rng};
use crate::node::{Node, NodeView};
use crate::peers::PullResult;
use crate::protocol::{Message, MessageView, PEER_PARENT, PEER_SAME_IP};
use crate::registry::{deadlines, is_earliest, RegistryView};
use crate::table::{entered, excluding, has_key, including, lookup, put, removed, Group, Table};
use crate::text::{owned, strings};
use crate::transfer::{
    after, elapsed, is_valid_filename, later, manifest_names, parse_manifest, since,
    valid_filename, MAX_CONCURRENT_TRANSFERS,
};

verus! {

pub const HANDSHAKE_TIMEOUT: u128 = 3_000_000_000;

/// Manifest poll base interval; each poll is staggered so peers don't see new
/// segments in lockstep.
pub const MANIFEST_POLL_INTERVAL: u128 = 2_000_000_000;

pub const POLL_JITTER_MS: u64 = 1000;

pub const MANIFEST_RESPONSE_TIMEOUT: u128 = 3_000_000_000;

pub const PEERLIST_POLL_INTERVAL: u128 = 5_000_000_000;

pub const PEER_TTL: u128 = 600_000_000_000;

/// How long to wait before retrying a segment whose pull failed.
pub const FAIL_RETRY_COOLDOWN: u128 = 5_000_000_000;

/// Concurrent segment downloads.
pub const MAX_PARALLEL_DOWNLOADS: usize = 4;

/// Don't start more than this many concurrent pulls from one peer.
pub const MAX_INFLIGHT_PER_PEER: usize = 2;

/// Unresponsive pulls before a peer is evicted: one timeout can just be a bad
/// moment; three is a pattern.
pub const EVICT_AFTER_UNRESPONSIVE: u32 = 3;

/// Give assigned parents a short opportunity to receive and announce a new
/// segment before using the origin.
pub const PARENT_WAIT: u128 = 5_000_000_000;

/// Keep this many complete segments beyond the player-facing edge.
pub const DEFAULT_PLAYBACK_HOLDBACK_SEGMENTS: usize = 3;

/// An in-flight download: which file from which peer.
pub struct ActiveJob {
    pub filename: String,
    pub peer: Endpoint,
}

/// The model of an [`ActiveJob`].
#[verifier::ext_equal]
pub struct JobView {
    pub filename: Seq<char>,
    pub peer: Endpoint,
}

impl View for ActiveJob {
    type V = JobView;

    open spec fn view(&self) -> JobView {
        JobView { filename: self.filename@, peer: self.peer }
    }
}

/// The state of a peer's protocol timers and of its job scheduler.
pub struct Peer {
    local_addr: Endpoint,
    bootstrap: Endpoint,
    rng: Rng,
    handshake_done: bool,
    next_handshake_retry: u128,
    poll_timeout: Option<u128>,
    pending: Table<Endpoint, u128>,
    next_poll: u128,
    next_peerlist: u128,
    active: Table<u16, ActiveJob>,
    queue: VecDeque<String>,
    queued: Group<String>,
    tried: Table<String, Group<Endpoint>>,
    failed_at: Table<String, u128>,
    retry_after: Table<(String, Endpoint), u128>,
    parents: Group<Endpoint>,
    parent_wait: Table<String, u128>,
    hits: Table<Endpoint, u32>,
}

/// The model of a [`Peer`].
pub struct PeerView {
    pub local_addr: Endpoint,
    pub bootstrap: Endpoint,
    pub rng: u64,
    pub handshake_done: bool,
    pub next_handshake_retry: u128,
    pub poll_timeout: Option<u128>,
    /// handshakes under way and how long they are waited for
    pub pending: Seq<(Endpoint, u128)>,
    pub next_poll: u128,
    pub next_peerlist: u128,
    pub active: Seq<(u16, JobView)>,
    pub queue: Seq<Seq<char>>,
    /// queued or in-flight
    pub queued: Seq<Seq<char>>,
    /// sources already asked, by file
    pub tried: Seq<(Seq<char>, Seq<Endpoint>)>,
    pub failed_at: Seq<(Seq<char>, u128)>,
    /// when a source may be asked again
    pub retry_after: Seq<((Seq<char>, Endpoint), u128)>,
    /// preferred sources
    pub parents: Seq<Endpoint>,
    /// since when a file waits for a parent
    pub parent_wait: Seq<(Seq<char>, u128)>,
    /// unresponsive pulls in a row
    pub hits: Seq<(Endpoint, u32)>,
}

impl View for Peer {
    type V = PeerView;

    closed spec fn view(&self) -> PeerView {
        PeerView {
            local_addr: self.local_addr,
            bootstrap: self.bootstrap,
            rng: self.rng@,
            handshake_done: self.handshake_done,
            next_handshake_retry: self.next_handshake_retry,
            poll_timeout: self.poll_timeout,
            pending: self.pending@,
            next_poll: self.next_poll,
            next_peerlist: self.next_peerlist,
            active: self.active@,
            queue: strings(self.queue@),
            queued: self.queued@,
            tried: self.tried@,
            failed_at: self.failed_at@,
            retry_after: self.retry_after@,
            parents: self.parents@,
            parent_wait: self.parent_wait@,
            hits: self.hits@,
        }
    }
}

/// How many downloads from a peer are under way.
pub open spec fn inflight(active: Seq<(u16, JobView)>, peer: Endpoint) -> nat
    decreases active.len(),
{
    if active.len() == 0 {
        0
    } else {
        inflight(active.drop_last(), peer) + if active.last().1.peer == peer {
            1nat
        } else {
            0nat
        }
    }
}

/// How a pull ended, from what the transfer tells.
pub open spec fn pull_result(ok: bool, unresponsive: bool, retryable: bool, not_found: bool) -> PullResult {
    if ok {
        PullResult::Done
    } else if unresponsive {
        PullResult::Timeout
    } else if retryable {
        PullResult::RetryableNotFound
    } else if not_found {
        PullResult::NotFound
    } else {
        PullResult::Other
    }
}

/// The entries that are not about a file.
pub open spec fn without_file(s: Seq<((Seq<char>, Endpoint), u128)>, file: Seq<char>) -> Seq<
    ((Seq<char>, Endpoint), u128),
>
    decreases s.len(),
{
    if s.len() == 0 {
        Seq::empty()
    } else {
        let rest = without_file(s.drop_last(), file);
        if s.last().0.0 == file {
            rest
        } else {
            rest.push(s.last())
        }
    }
}

/// The handshakes that may still be answered.
pub open spec fn still_pending(s: Seq<(Endpoint, u128)>, now: u128) -> Seq<(Endpoint, u128)>
    decreases s.len(),
{
    if s.len() == 0 {
        Seq::empty()
    } else {
        let rest = still_pending(s.drop_last(), now);
        if now >= s.last().1 {
            rest
        } else {
            rest.push(s.last())
        }
    }
}

/// Those of the sources other than the origin that have the piece.
pub open spec fn advertised(list: Seq<Endpoint>, has: Seq<Option<bool>>, bootstrap: Endpoint) -> Seq<
    Endpoint,
>
    decreases list.len(),
{
    if list.len() == 0 {
        Seq::empty()
    } else {
        let rest = advertised(list.drop_last(), has, bootstrap);
        let p = list.last();
        if p != bootstrap && has[list.len() - 1] == Some(true) {
            rest.push(p)
        } else {
            rest
        }
    }
}

/// The entries of a list that are `p`.
pub open spec fn only(list: Seq<Endpoint>, p: Endpoint) -> Seq<Endpoint>
    decreases list.len(),
{
    if list.len() == 0 {
        Seq::empty()
    } else {
        let rest = only(list.drop_last(), p);
        if list.last() == p {
            rest.push(p)
        } else {
            rest
        }
    }
}

/// The sources to choose from: peers that have the piece come before the
/// origin, the origin that has it comes before peers of which nothing is known.
pub open spec fn preferred(
    list: Seq<Endpoint>,
    bootstrap: Endpoint,
    has: Seq<Option<bool>>,
    origin: Option<bool>,
) -> Seq<Endpoint> {
    let peers = advertised(list, has, bootstrap);
    if peers.len() > 0 {
        peers
    } else if origin == Some(true) {
        only(list, bootstrap)
    } else {
        list
    }
}

/// What a source counts in the draw, in units of a 200000th: its score, shared
/// among the downloads under way and the new one, more for a fresh path and a
/// known copy, a little less for the origin, and never nothing.
pub open spec fn weight(
    score: u32,
    inflight: nat,
    fresh: bool,
    has: Option<bool>,
    origin: bool,
) -> int {
    let share: int = (score + 1) * 2 / (inflight as int + 1);
    let path: int = if fresh {
        125
    } else {
        70
    };
    let copy: int = match has {
        Some(true) => 300,
        Some(false) => 0,
        None => 35,
    };
    let role: int = if origin {
        9
    } else {
        10
    };
    let w = share * path * copy * role;
    if w > 200 {
        w
    } else {
        200
    }
}

/// The sum of the first `n` weights.
pub open spec fn weight_sum(weights: Seq<int>, n: int) -> int
    decreases n,
{
    if n <= 0 {
        0
    } else {
        weight_sum(weights, n - 1) + weights[n - 1]
    }
}

/// Where a draw falls, from position `i` on: at the first weight up to which
/// the sum is at least the drawn part of the total.
pub open spec fn drawn(weights: Seq<int>, draw: u64, i: int) -> int
    decreases weights.len() - i,
{
    if i >= weights.len() - 1 || weight_sum(weights, i + 1) * u64::MAX >= draw * weight_sum(
        weights,
        weights.len() as int,
    ) {
        i
    } else {
        drawn(weights, draw, i + 1)
    }
}

impl PeerView {
    /// A peer that starts at `now`. The very first polls are staggered too.
    pub open spec fn started(local_addr: Endpoint, bootstrap: Endpoint, rng: u64, now: u128) -> Self {
        let first = stepped(rng);
        let second = stepped(first);
        PeerView {
            local_addr,
            bootstrap,
            rng: second,
            handshake_done: false,
            next_handshake_retry: after(now, HANDSHAKE_TIMEOUT as int),
            poll_timeout: None,
            pending: Seq::empty(),
            next_poll: after(now, (mixed(first) % POLL_JITTER_MS) * 1_000_000),
            next_peerlist: after(now, (mixed(second) % 2000) * 1_000_000),
            active: Seq::empty(),
            queue: Seq::empty(),
            queued: Seq::empty(),
            tried: Seq::empty(),
            failed_at: Seq::empty(),
            retry_after: Seq::empty(),
            parents: Seq::empty(),
            parent_wait: Seq::empty(),
            hits: Seq::empty(),
        }
    }

    /// Whether a source was asked for a file already.
    pub open spec fn was_tried(self, file: Seq<char>, p: Endpoint) -> bool {
        lookup(self.tried, file) matches Some(list) && list.contains(p)
    }

    /// Whether a source is not to be asked for a file yet.
    pub open spec fn cooling(self, file: Seq<char>, p: Endpoint, now: u128) -> bool {
        lookup(self.retry_after, (file, p)) matches Some(until) && now < until
    }

    /// Whether a source can be asked for a file.
    pub open spec fn usable(self, node: NodeView, file: Seq<char>, p: Endpoint, now: u128) -> bool {
        &&& p != self.local_addr
        &&& node.peer_availability(p, file, now) != Some(false)
        &&& !self.cooling(file, p, now)
        &&& !self.was_tried(file, p)
        &&& inflight(self.active, p) < MAX_INFLIGHT_PER_PEER
    }

    /// The sources that can be asked for a file, among the first `n` peers,
    /// each by its best address.
    pub open spec fn candidates(self, node: NodeView, file: Seq<char>, n: int, now: u128) -> Seq<
        Endpoint,
    >
        decreases n,
    {
        if n <= 0 {
            Seq::empty()
        } else {
            let rest = self.candidates(node, file, n - 1, now);
            let p = node.effective_addr(node.peers[n - 1].0);
            if self.usable(node, file, p, now) {
                rest.push(p)
            } else {
                rest
            }
        }
    }

    /// Those of a list that are preferred sources and have the piece.
    pub open spec fn parent_sources(
        self,
        node: NodeView,
        file: Seq<char>,
        list: Seq<Endpoint>,
        now: u128,
    ) -> Seq<Endpoint>
        decreases list.len(),
    {
        if list.len() == 0 {
            Seq::empty()
        } else {
            let rest = self.parent_sources(node, file, list.drop_last(), now);
            let p = list.last();
            if self.parents.contains(p) && node.peer_availability(p, file, now) == Some(true) {
                rest.push(p)
            } else {
                rest
            }
        }
    }

    /// Whether a preferred source is known.
    pub open spec fn knows_parent(self, node: NodeView) -> bool {
        exists|i: int|
            0 <= i < self.parents.len() && #[trigger] self.parents[i] != self.local_addr && has_key(
                node.peers,
                self.parents[i],
            )
    }

    /// What each of a list of sources is known to have.
    pub open spec fn holdings(
        self,
        node: NodeView,
        file: Seq<char>,
        list: Seq<Endpoint>,
        now: u128,
    ) -> Seq<Option<bool>> {
        list.map_values(|p: Endpoint| node.peer_availability(p, file, now))
    }

    /// What each of a list of sources counts in the draw.
    pub open spec fn weights(
        self,
        node: NodeView,
        file: Seq<char>,
        list: Seq<Endpoint>,
        now: u128,
    ) -> Seq<int> {
        list.map_values(
            |p: Endpoint|
                weight(
                    match lookup(node.peer_stats, p) {
                        Some(stat) => stat.score,
                        None => 50,
                    },
                    inflight(self.active, p),
                    node.path_fresh(p, now),
                    node.peer_availability(p, file, now),
                    p == self.bootstrap,
                ),
        )
    }

    /// The sources among which the draw is made, and the peer after looking for
    /// them: parents that have the piece come first, and a known parent that
    /// does not is waited for a while.
    pub open spec fn sources(self, node: NodeView, file: Seq<char>, now: u128) -> (
        Self,
        Seq<Endpoint>,
    ) {
        let all = self.candidates(node, file, node.peers.len() as int, now);
        let from_parents = self.parent_sources(node, file, all, now);
        if from_parents.len() > 0 {
            (
                PeerView { parent_wait: removed(self.parent_wait, file), ..self },
                self.preferred_of(node, file, from_parents, now),
            )
        } else if self.knows_parent(node) {
            let start = match lookup(self.parent_wait, file) {
                Some(t) => t,
                None => now,
            };
            let v = PeerView { parent_wait: entered(self.parent_wait, file, now), ..self };
            if since(now, start) < PARENT_WAIT {
                (v, Seq::empty())
            } else {
                (v, self.preferred_of(node, file, all, now))
            }
        } else {
            (self, self.preferred_of(node, file, all, now))
        }
    }

    /// The preferred ones of a list of sources.
    pub open spec fn preferred_of(
        self,
        node: NodeView,
        file: Seq<char>,
        list: Seq<Endpoint>,
        now: u128,
    ) -> Seq<Endpoint> {
        preferred(
            list,
            self.bootstrap,
            self.holdings(node, file, list, now),
            node.peer_availability(self.bootstrap, file, now),
        )
    }

    /// The peer after it has chosen a source for a file, and the choice.
    pub open spec fn picking(self, node: NodeView, file: Seq<char>, now: u128) -> (
        Self,
        Option<Endpoint>,
    ) {
        let (v, list) = self.sources(node, file, now);
        if list.len() == 0 {
            (v, None)
        } else {
            let rng = stepped(v.rng);
            (
                PeerView { rng, ..v },
                Some(list[drawn(self.weights(node, file, list, now), mixed(rng), 0)]),
            )
        }
    }

    /// The peer after a file has begun to come from a source.
    pub open spec fn pulling(self, id: u16, file: Seq<char>, p: Endpoint) -> Self {
        PeerView {
            active: put(self.active, id, JobView { filename: file, peer: p }),
            tried: put(
                self.tried,
                file,
                including(
                    match lookup(self.tried, file) {
                        Some(list) => list,
                        None => Seq::empty(),
                    },
                    p,
                ),
            ),
            queue: self.queue.skip(1),
            ..self
        }
    }

    /// The peer and its node after the free slots have been filled from the
    /// front of the queue.
    pub open spec fn filled(self, node: NodeView, seed: u16, now: u128) -> (Self, NodeView)
        decreases self.queue.len(),
    {
        if self.active.len() >= MAX_PARALLEL_DOWNLOADS || self.queue.len() == 0 {
            (self, node)
        } else {
            let file = self.queue[0];
            let (v, choice) = self.picking(node, file, now);
            match choice {
                None => (v, node),
                Some(p) => if node.registry.active() >= MAX_CONCURRENT_TRANSFERS {
                    (v, node)
                } else {
                    let id = node.registry.fresh(seed);
                    PeerView { queue: self.queue, ..v }.pulling(id, file, p).filled(
                        node.pulling(id, p, file, now),
                        seed,
                        now,
                    )
                },
            }
        }
    }

    /// The peer after a pull has succeeded.
    pub open spec fn pull_done(self, job: JobView) -> Self {
        PeerView {
            queued: excluding(self.queued, job.filename),
            tried: removed(self.tried, job.filename),
            parent_wait: removed(self.parent_wait, job.filename),
            retry_after: without_file(self.retry_after, job.filename),
            hits: removed(self.hits, job.peer),
            ..self
        }
    }

    /// The peer after a source has put it off: the source has answered, and
    /// may be asked again after a while.
    pub open spec fn pull_put_off(self, job: JobView, now: u128) -> Self {
        PeerView {
            retry_after: put(
                self.retry_after,
                (job.filename, job.peer),
                after(now, FAIL_RETRY_COOLDOWN as int),
            ),
            tried: match lookup(self.tried, job.filename) {
                Some(list) => put(self.tried, job.filename, excluding(list, job.peer)),
                None => self.tried,
            },
            queue: self.queue.push(job.filename),
            hits: removed(self.hits, job.peer),
            ..self
        }
    }

    /// The peer and its node after counting whether a source answered: one
    /// that did not for the third time in a row is evicted.
    pub open spec fn answer_counted(self, node: NodeView, job: JobView, unresponsive: bool) -> (
        Self,
        NodeView,
    ) {
        let before = match lookup(self.hits, job.peer) {
            Some(n) => n,
            None => 0,
        };
        if !unresponsive {
            (PeerView { hits: removed(self.hits, job.peer), ..self }, node)
        } else if before + 1 >= EVICT_AFTER_UNRESPONSIVE {
            (
                PeerView { hits: removed(self.hits, job.peer), ..self },
                NodeView { peers: removed(node.peers, job.peer), ..node },
            )
        } else {
            (PeerView { hits: put(self.hits, job.peer, (before + 1) as u32), ..self }, node)
        }
    }

    /// Whether some source has not been asked for a file.
    pub open spec fn has_untried(self, node: NodeView, file: Seq<char>) -> bool {
        exists|i: int|
            0 <= i < node.peers.len() && (#[trigger] node.peers[i]).0 != self.local_addr
                && !self.was_tried(file, node.peers[i].0)
    }

    /// The peer after a pull has failed: another source is tried, or the file
    /// is given up for a while.
    pub open spec fn pull_failed(self, node: NodeView, job: JobView, now: u128) -> Self {
        if self.has_untried(node, job.filename) {
            PeerView { queue: seq![job.filename] + self.queue, ..self }
        } else {
            PeerView {
                queued: excluding(self.queued, job.filename),
                tried: removed(self.tried, job.filename),
                failed_at: put(self.failed_at, job.filename, now),
                ..self
            }
        }
    }

    /// The peer and its node after a download has ended, and the file if it
    /// was saved. One that was saved stays in its grace period.
    pub open spec fn reaped(self, node: NodeView, id: u16, now: u128) -> (
        Self,
        NodeView,
        Option<Seq<char>>,
    ) {
        match (lookup(self.active, id), lookup(node.registry.receivers, id)) {
            (Some(job), Some(r)) => if r.outcome is None {
                (self, node, None)
            } else {
                let v = PeerView { active: removed(self.active, id), ..self };
                let ok = r.outcome->0 is Ok;
                let result = pull_result(
                    ok,
                    r.unresponsive,
                    r.not_found && r.retryable,
                    r.not_found,
                );
                let kept = if ok {
                    node
                } else {
                    NodeView {
                        registry: RegistryView {
                            receivers: removed(node.registry.receivers, id),
                            ..node.registry
                        },
                        ..node
                    }
                };
                let n = kept.pull_recorded(
                    job.peer,
                    result,
                    r.first_packet_latency,
                    match r.saved_bytes {
                        Some(b) => b,
                        None => 0,
                    },
                    now,
                );
                match result {
                    PullResult::Done => (v.pull_done(job), n, Some(job.filename)),
                    PullResult::RetryableNotFound => (v.pull_put_off(job, now), n, None),
                    _ => {
                        let (w, m) = v.answer_counted(n, job, r.unresponsive);
                        (w.pull_failed(m, job, now), m, None)
                    },
                }
            },
            _ => (self, node, None),
        }
    }

    /// The peer and its node after all of a list of downloads have been
    /// looked at, and the files that were saved.
    pub open spec fn all_reaped(self, node: NodeView, ids: Seq<u16>, now: u128) -> (
        Self,
        NodeView,
        Seq<Seq<char>>,
    )
        decreases ids.len(),
    {
        if ids.len() == 0 {
            (self, node, Seq::empty())
        } else {
            let (v, n, saved) = self.all_reaped(node, ids.drop_last(), now);
            let (w, m, file) = v.reaped(n, ids.last(), now);
            (
                w,
                m,
                match file {
                    Some(f) => saved.push(f),
                    None => saved,
                },
            )
        }
    }

    /// The peer, its node and the saved files after finished downloads have
    /// been collected and the free slots filled.
    pub open spec fn scheduled(self, node: NodeView, seed: u16, now: u128) -> (
        Self,
        NodeView,
        Seq<Seq<char>>,
    ) {
        let ids = self.active.map_values(|e: (u16, JobView)| e.0);
        let (v, n, saved) = self.all_reaped(node, ids, now);
        let (w, m) = v.filled(n, seed, now);
        (w, m.with_queue(w.queue.len() as u64, w.active.len() as u64), saved)
    }
}

/// The sources to choose from: `availability` tells for each candidate whether
/// it has the piece, `origin` whether the bootstrap does. Once any non-origin
/// peer proves it has the piece, the origin is kept out of the request
/// entirely; and if the origin has a fresh positive answer, unknown peers are
/// not worth a trial.
pub fn prefer_advertised_peers(
    candidates: Vec<Endpoint>,
    bootstrap: Endpoint,
    availability: &[Option<bool>],
    origin: Option<bool>,
) -> (r: Vec<Endpoint>)
    requires
        availability@.len() == candidates@.len(),
    ensures
        r@ == preferred(candidates@, bootstrap, availability@, origin),
{
    let mut peers: Vec<Endpoint> = Vec::new();
    let mut masters: Vec<Endpoint> = Vec::new();
    let ghost all = candidates@;
    let mut i: usize = 0;
    proof {
        assert(all.take(0).len() == 0);
    }
    while i < candidates.len()
        invariant
            i <= candidates@.len(),
            all == candidates@,
            availability@.len() == all.len(),
            peers@ == advertised(all.take(i as int), availability@, bootstrap),
            masters@ == only(all.take(i as int), bootstrap),
        decreases candidates@.len() - i,
    {
        proof {
            assert(all.take(i + 1).drop_last() =~= all.take(i as int));
            assert(all.take(i + 1).last() == all[i as int]);
        }
        let p = candidates[i];
        if p == bootstrap {
            masters.push(p);
        } else if let Some(true) = availability[i] {
            peers.push(p);
        }
        i = i + 1;
    }
    proof {
        assert(all.take(i as int) =~= all);
    }
    if peers.len() > 0 {
        return peers;
    }
    match origin {
        Some(true) => masters,
        _ => candidates,
    }
}

/// What a source counts in the draw.
pub fn source_weight(score: u32, inflight: usize, fresh: bool, has: Option<bool>, origin: bool) -> (w:
    u64)
    requires
        score <= 100,
    ensures
        w == weight(score, inflight as nat, fresh, has, origin),
        200 <= w <= 75_750_000,
{
    let share: u64 = ((score as u128 + 1) * 2 / (inflight as u128 + 1)) as u64;
    let path: u64 = if fresh {
        125
    } else {
        70
    };
    let copy: u64 = match has {
        Some(true) => 300,
        Some(false) => 0,
        None => 35,
    };
    let role: u64 = if origin {
        9
    } else {
        10
    };
    proof {
        assert(share * path <= 202 * 125) by (nonlinear_arith)
            requires
                share <= 202,
                path <= 125,
        ;
        assert(share * path * copy <= 202 * 125 * 300) by (nonlinear_arith)
            requires
                0 <= share * path <= 202 * 125,
                copy <= 300,
        ;
        assert(share * path * copy * role <= 202 * 125 * 300 * 10) by (nonlinear_arith)
            requires
                0 <= share * path * copy <= 202 * 125 * 300,
                role <= 10,
        ;
        assert(0 <= share * path * copy * role) by (nonlinear_arith)
            requires
                share >= 0,
                path >= 0,
                copy >= 0,
                role >= 0,
        ;
    }
    let w: u64 = share * path * copy * role;
    if w > 200 {
        w
    } else {
        200
    }
}

/// The models of a list of weights.
pub open spec fn ints(v: Seq<u64>) -> Seq<int> {
    v.map_values(|x: u64| x as int)
}

/// Comparing a sum with a part of the total without their products: with the
/// total split as `a * m + b`, the part is at least `a * draw` and a rounded
/// up share of `b`.
proof fn share_compares(sum: int, total: int, draw: int, m: int, a: int, b: int, up: int)
    requires
        m > 0,
        0 <= draw <= m,
        total == a * m + b,
        0 <= b < m,
        a >= 0,
        up * m >= b * draw,
        (up - 1) * m < b * draw,
    ensures
        (sum >= a * draw + up) == (sum * m >= draw * total),
{
    assert(draw * total == (a * draw) * m + b * draw) by (nonlinear_arith)
        requires
            total == a * m + b,
    ;
    let base = a * draw;
    if sum >= base + up {
        assert(sum * m >= (base + up) * m) by (nonlinear_arith)
            requires
                sum >= base + up,
                m > 0,
        ;
        assert((base + up) * m == base * m + up * m) by (nonlinear_arith);
    } else {
        assert(sum * m <= (base + up - 1) * m) by (nonlinear_arith)
            requires
                sum <= base + up - 1,
                m > 0,
        ;
        assert((base + up - 1) * m == base * m + (up - 1) * m) by (nonlinear_arith);
    }
}

/// The place at which a draw falls.
pub fn draw_from(weights: &[u64], draw: u64) -> (i: usize)
    requires
        weights@.len() > 0,
        forall|j: int| 0 <= j < weights@.len() ==> (#[trigger] weights@[j]) <= 75_750_000,
    ensures
        i == drawn(ints(weights@), draw, 0),
        i < weights@.len(),
{
    let ghost ws = ints(weights@);
    let ghost n = ws.len() as int;
    let mut total: u128 = 0;
    let mut k: usize = 0;
    while k < weights.len()
        invariant
            k <= weights@.len(),
            ws == ints(weights@),
            total == weight_sum(ws, k as int),
            total <= k * 75_750_000,
            forall|j: int| 0 <= j < weights@.len() ==> (#[trigger] weights@[j]) <= 75_750_000,
        decreases weights@.len() - k,
    {
        total = total + weights[k] as u128;
        k = k + 1;
    }
    let m: u128 = u64::MAX as u128;
    let a: u128 = total / m;
    let b: u128 = total % m;
    proof {
        assert(a <= 75_750_000 * 2);
        assert(b * draw <= 0xffff_ffff_ffff_ffff * 0xffff_ffff_ffff_ffff) by (nonlinear_arith)
            requires
                b <= 0xffff_ffff_ffff_ffff,
                draw <= 0xffff_ffff_ffff_ffff,
        ;
        assert(a * draw <= 151_500_000 * 0xffff_ffff_ffff_ffff) by (nonlinear_arith)
            requires
                a <= 151_500_000,
                draw <= 0xffff_ffff_ffff_ffff,
        ;
    }
    let part: u128 = b * draw as u128;
    let up: u128 = part / m + if part % m != 0 {
        1
    } else {
        0
    };
    proof {
        assert(total == a * m + b);
        assert(up * m >= part && (up - 1) * m < part);
    }
    let threshold: u128 = a * draw as u128 + up;
    let mut sum: u128 = 0;
    let mut i: usize = 0;
    while i < weights.len() - 1
        invariant
            i < weights@.len(),
            ws == ints(weights@),
            n == ws.len(),
            sum == weight_sum(ws, i as int),
            sum <= i * 75_750_000,
            forall|j: int| 0 <= j < weights@.len() ==> (#[trigger] weights@[j]) <= 75_750_000,
            drawn(ws, draw, 0) == drawn(ws, draw, i as int),
            total == weight_sum(ws, n),
            m == u64::MAX,
            total == a * m + b,
            b < m,
            part == b * draw,
            up * m >= part && (up - 1) * m < part,
            threshold == a * draw + up,
        decreases weights@.len() - i,
    {
        sum = sum + weights[i] as u128;
        proof {
            assert(sum == weight_sum(ws, i + 1));
            share_compares(
                sum as int,
                total as int,
                draw as int,
                m as int,
                a as int,
                b as int,
                up as int,
            );
        }
        if sum >= threshold {
            return i;
        }
        i = i + 1;
    }
    i
}

impl Peer {
    /// A peer that starts at `now`, with a generator for its draws.
    pub fn new(local_addr: Endpoint, bootstrap: Endpoint, rng: Rng, now: u128) -> (p: Peer)
        ensures
            p@ == PeerView::started(local_addr, bootstrap, rng@, now),
    {
        let mut rng = rng;
        let first: u64 = rng.next() % POLL_JITTER_MS;
        let second: u64 = rng.next() % 2000;
        let p = Peer {
            local_addr,
            bootstrap,
            rng,
            handshake_done: false,
            next_handshake_retry: later(now, HANDSHAKE_TIMEOUT),
            poll_timeout: None,
            pending: Table::new(),
            next_poll: later(now, first as u128 * 1_000_000),
            next_peerlist: later(now, second as u128 * 1_000_000),
            active: Table::new(),
            queue: VecDeque::new(),
            queued: Group::new(),
            tried: Table::new(),
            failed_at: Table::new(),
            retry_after: Table::new(),
            parents: Group::new(),
            parent_wait: Table::new(),
            hits: Table::new(),
        };
        proof {
            assert(p@.queue =~= Seq::empty());
        }
        p
    }

    fn inflight(&self, peer: Endpoint) -> (n: usize)
        ensures
            n == inflight(self@.active, peer),
    {
        let mut n: usize = 0;
        let mut i: usize = 0;
        let ghost all = self.active@;
        proof {
            assert(all.take(0).len() == 0);
        }
        while i < self.active.len()
            invariant
                i <= self.active@.len(),
                all == self.active@,
                n == inflight(all.take(i as int), peer),
                n <= i,
            decreases self.active@.len() - i,
        {
            proof {
                assert(all.take(i + 1).drop_last() =~= all.take(i as int));
                assert(all.take(i + 1).last() == all[i as int]);
            }
            if self.active.value_at(i).peer == peer {
                n = n + 1;
            }
            i = i + 1;
        }
        proof {
            assert(all.take(i as int) =~= all);
        }
        n
    }

    fn was_tried(&self, file: &str, p: Endpoint) -> (r: bool)
        ensures
            r == self@.was_tried(file@, p),
    {
        match self.tried.get(&owned(file)) {
            Some(list) => list.contains(&p),
            None => false,
        }
    }

    fn usable(&self, node: &Node, file: &str, p: Endpoint, now: u128) -> (r: bool)
        ensures
            r == self@.usable(node@, file@, p, now),
    {
        if p == self.local_addr || !node.peer_may_have(p, file, now) {
            return false;
        }
        let cooling = match self.retry_after.get(&(owned(file), p)) {
            Some(until) => now < *until,
            None => false,
        };
        !cooling && !self.was_tried(file, p) && self.inflight(p) < MAX_INFLIGHT_PER_PEER
    }

    fn candidates(&self, node: &Node, file: &str, now: u128) -> (list: Vec<Endpoint>)
        ensures
            list@ == self@.candidates(node@, file@, node@.peers.len() as int, now),
    {
        let mut list: Vec<Endpoint> = Vec::new();
        let n: usize = node.peer_count();
        let mut i: usize = 0;
        while i < n
            invariant
                i <= n,
                n == node@.peers.len(),
                list@ == self@.candidates(node@, file@, i as int, now),
            decreases n - i,
        {
            let p = node.effective_addr(node.peer_at(i));
            if self.usable(node, file, p, now) {
                list.push(p);
            }
            i = i + 1;
        }
        list
    }

    fn parent_sources(&self, node: &Node, file: &str, list: &[Endpoint], now: u128) -> (r: Vec<
        Endpoint,
    >)
        ensures
            r@ == self@.parent_sources(node@, file@, list@, now),
    {
        let mut r: Vec<Endpoint> = Vec::new();
        let mut i: usize = 0;
        proof {
            assert(list@.take(0).len() == 0);
        }
        while i < list.len()
            invariant
                i <= list@.len(),
                r@ == self@.parent_sources(node@, file@, list@.take(i as int), now),
            decreases list@.len() - i,
        {
            proof {
                assert(list@.take(i + 1).drop_last() =~= list@.take(i as int));
                assert(list@.take(i + 1).last() == list@[i as int]);
            }
            let p = list[i];
            if self.parents.contains(&p) {
                if let Some(true) = node.peer_availability(p, file, now) {
                    r.push(p);
                }
            }
            i = i + 1;
        }
        proof {
            assert(list@.take(i as int) =~= list@);
        }
        r
    }

    fn knows_parent(&self, node: &Node) -> (r: bool)
        ensures
            r == self@.knows_parent(node@),
    {
        let mut i: usize = 0;
        while i < self.parents.len()
            invariant
                i <= self.parents@.len(),
                forall|j: int|
                    0 <= j < i ==> !(#[trigger] self@.parents[j] != self@.local_addr && has_key(
                        node@.peers,
                        self@.parents[j],
                    )),
            decreases self.parents@.len() - i,
        {
            let p = *self.parents.at(i);
            assert(self@.parents[i as int] == p);
            if p != self.local_addr && node.knows(p) {
                return true;
            }
            i = i + 1;
        }
        false
    }

    fn preferred_of(&self, node: &Node, file: &str, list: Vec<Endpoint>, now: u128) -> (r: Vec<
        Endpoint,
    >)
        ensures
            r@ == self@.preferred_of(node@, file@, list@, now),
    {
        let mut has: Vec<Option<bool>> = Vec::new();
        let mut i: usize = 0;
        while i < list.len()
            invariant
                i <= list@.len(),
                has@.len() == i,
                forall|j: int|
                    0 <= j < i ==> #[trigger] has@[j] == node@.peer_availability(
                        list@[j],
                        file@,
                        now,
                    ),
            decreases list@.len() - i,
        {
            has.push(node.peer_availability(list[i], file, now));
            i = i + 1;
        }
        proof {
            assert(has@ =~= self@.holdings(node@, file@, list@, now));
        }
        let origin = node.peer_availability(self.bootstrap, file, now);
        prefer_advertised_peers(list, self.bootstrap, has.as_slice(), origin)
    }

    fn sources(&mut self, node: &Node, file: &str, now: u128) -> (list: Vec<Endpoint>)
        ensures
            (final(self)@, list@) == old(self)@.sources(node@, file@, now),
    {
        let all = self.candidates(node, file, now);
        let from_parents = self.parent_sources(node, file, all.as_slice(), now);
        if from_parents.len() > 0 {
            let list = self.preferred_of(node, file, from_parents, now);
            let gone = self.parent_wait.remove(&owned(file));
            return list;
        }
        if self.knows_parent(node) {
            let start: u128 = match self.parent_wait.get(&owned(file)) {
                Some(t) => *t,
                None => now,
            };
            let list = self.preferred_of(node, file, all, now);
            self.parent_wait.enter(owned(file), now);
            if elapsed(now, start) < PARENT_WAIT {
                return Vec::new();
            }
            return list;
        }
        self.preferred_of(node, file, all, now)
    }

    /// Choose a peer for the next pull: score-weighted (peer ranking),
    /// least-loaded, not already tried for this file, peers slightly preferred
    /// over the bootstrap once their scores are comparable.
    pub fn pick_peer(&mut self, node: &Node, filename: &str, now: u128) -> (r: Option<Endpoint>)
        requires
            node@.wf(),
        ensures
            (final(self)@, r) == old(self)@.picking(node@, filename@, now),
    {
        let list = self.sources(node, filename, now);
        if list.len() == 0 {
            return None;
        }
        let mut weights: Vec<u64> = Vec::new();
        let mut i: usize = 0;
        while i < list.len()
            invariant
                i <= list@.len(),
                node@.wf(),
                self@ == old(self)@.sources(node@, filename@, now).0,
                weights@.len() == i,
                forall|j: int| 0 <= j < i ==> (#[trigger] weights@[j]) <= 75_750_000,
                forall|j: int|
                    0 <= j < i ==> #[trigger] weights@[j] == old(self)@.weights(
                        node@,
                        filename@,
                        list@,
                        now,
                    )[j],
            decreases list@.len() - i,
        {
            let p = list[i];
            let w = source_weight(
                node.score_of(p),
                self.inflight(p),
                node.path_fresh(p, now),
                node.peer_availability(p, filename, now),
                p == self.bootstrap,
            );
            weights.push(w);
            i = i + 1;
        }
        let draw = self.rng.next();
        proof {
            assert(ints(weights@) =~= old(self)@.weights(node@, filename@, list@, now));
        }
        Some(list[draw_from(weights.as_slice(), draw)])
    }

    /// Fills the free slots from the front of the queue.
    fn fill(&mut self, node: &mut Node, seed: u16, now: u128)
        requires
            old(node)@.wf(),
        ensures
            (final(self)@, final(node)@) == old(self)@.filled(old(node)@, seed, now),
            final(node)@.wf(),
    {
        while self.active.len() < MAX_PARALLEL_DOWNLOADS && self.queue.len() > 0
            invariant
                node@.wf(),
                old(self)@.filled(old(node)@, seed, now) == self@.filled(node@, seed, now),
            decreases self.queue@.len(),
        {
            let ghost v = self@;
            let ghost n = node@;
            let file = owned(self.queue[0].as_str());
            assert(v.queue[0] == file@);
            let choice = self.pick_peer(node, file.as_str(), now);
            let p = match choice {
                Some(p) => p,
                None => {
                    return;
                },
            };
            match node.start_pull(p, file.as_str(), seed, now) {
                Some(id) => {
                    self.begin(id, file, p);
                },
                None => {
                    return;
                },
            }
        }
    }

    fn begin(&mut self, id: u16, file: String, p: Endpoint)
        requires
            old(self)@.queue.len() > 0,
        ensures
            final(self)@ == old(self)@.pulling(id, file@, p),
            final(self).queue@.len() == old(self).queue@.len() - 1,
    {
        let ghost before = self@.queue;
        let ghost raw = self.queue@;
        let first = self.queue.pop_front();
        proof {
            assert forall|j: int| 0 <= j < self@.queue.len() implies #[trigger] self@.queue[j]
                == before.skip(1)[j] by {
                assert(self.queue@[j] == raw[j + 1]);
                assert(before[j + 1] == raw[j + 1]@);
            }
            assert(self@.queue =~= before.skip(1));
        }
        match self.tried.find(&file) {
            Some(i) => {
                self.tried.value_mut(i).add_key(p);
            },
            None => {
                let mut asked: Group<Endpoint> = Group::new();
                asked.add_key(p);
                self.tried.push_last(owned(file.as_str()), asked);
            },
        }
        self.active.insert(id, ActiveJob { filename: file, peer: p });
    }
}

/// The request that opens a handshake.
pub open spec fn handshake(node: NodeView) -> MessageView {
    MessageView::HandshakeRequest {
        claimed: match node.claimed {
            Some(e) => e,
            None => Endpoint::V4 { ip: 0, port: 0 },
        },
        name: node.name,
    }
}

fn handshake_request(node: &Node) -> (m: Message)
    ensures
        m@ == handshake(node@),
{
    Message::HandshakeRequest {
        claimed: match node.claimed() {
            Some(e) => e,
            None => Endpoint::V4 { ip: 0, port: 0 },
        },
        name: owned(node.name()),
    }
}

/// Whether a flag of a peerlist entry says that the peer shares our address.
pub open spec fn says_same_ip(flags: u8) -> bool {
    flags / 2 % 2 == 1
}

/// Whether a flag of a peerlist entry says that the peer is a preferred source.
pub open spec fn says_parent(flags: u8) -> bool {
    flags / 4 % 2 == 1
}

impl PeerView {
    /// The peer after the files of a playlist have been looked at, oldest
    /// first: what is missing, not waiting already and not given up a moment
    /// ago comes to the front of the queue. So the newest comes first.
    pub open spec fn synced(self, names: Seq<Seq<char>>, present: Seq<Seq<char>>, now: u128) -> Self
        decreases names.len(),
    {
        if names.len() == 0 {
            self
        } else {
            let v = self.synced(names.drop_last(), present, now);
            let f = names.last();
            if is_valid_filename(f) && !present.contains(f) && !v.queued.contains(f) && !(lookup(
                v.failed_at,
                f,
            ) matches Some(t) && since(now, t) < FAIL_RETRY_COOLDOWN) {
                PeerView {
                    queued: including(v.queued, f),
                    queue: seq![f] + v.queue,
                    ..v
                }
            } else {
                v
            }
        }
    }

    /// The peer after a manifest has come; an empty one and one that is known
    /// already change nothing but the wait for it.
    pub open spec fn manifest_came(
        self,
        data: Seq<u8>,
        changed: bool,
        present: Seq<Seq<char>>,
        now: u128,
    ) -> Self {
        let v = PeerView { poll_timeout: None, ..self };
        if data.len() > 0 && changed {
            v.synced(manifest_names(data), present, now)
        } else {
            v
        }
    }

    /// The peer after a handshake has been answered.
    pub open spec fn handshake_came(self, src: Endpoint, now: u128) -> Self {
        let v = PeerView { pending: removed(self.pending, src), ..self };
        if src == self.bootstrap && !self.handshake_done {
            PeerView { handshake_done: true, next_poll: now, next_peerlist: now, ..v }
        } else {
            v
        }
    }

    /// The peer and its node after one entry of a peerlist. Entries that
    /// cannot be reached from here, and those behind the same address, which
    /// the LAN beacon finds, are passed over; an unknown one gets a handshake.
    pub open spec fn entry_came(
        self,
        node: NodeView,
        entry: (Endpoint, u8),
        now: u128,
    ) -> (Self, NodeView) {
        let (p, flags) = entry;
        let far = node.my_public matches Some(me) && is_remote_public(me);
        if p == self.local_addr || p.spec_port() == 0 || (far && !is_remote_public(p))
            || says_same_ip(flags) {
            (self, node)
        } else {
            let v = if says_parent(flags) {
                PeerView { parents: including(self.parents, p), ..self }
            } else {
                self
            };
            if has_key(node.peers, p) || has_key(v.pending, p) {
                (v, node)
            } else {
                (
                    PeerView {
                        pending: put(v.pending, p, after(now, HANDSHAKE_TIMEOUT as int)),
                        ..v
                    },
                    node.posted(p, handshake(node), now),
                )
            }
        }
    }

    /// The peer and its node after the entries of a peerlist.
    pub open spec fn entries_came(
        self,
        node: NodeView,
        entries: Seq<(Endpoint, u8)>,
        now: u128,
    ) -> (Self, NodeView)
        decreases entries.len(),
    {
        if entries.len() == 0 {
            (self, node)
        } else {
            let (v, n) = self.entries_came(node, entries.drop_last(), now);
            v.entry_came(n, entries.last(), now)
        }
    }

    /// The peer and its node after a peerlist, which names the preferred
    /// sources anew.
    pub open spec fn peerlist_came(
        self,
        node: NodeView,
        entries: Seq<(Endpoint, u8)>,
        now: u128,
    ) -> (Self, NodeView) {
        (PeerView { parents: Seq::empty(), ..self }).entries_came(node, entries, now)
    }

    /// The peer and its node after the bootstrap handshake has been repeated,
    /// if that was due, and handshakes without an answer have been dropped.
    pub open spec fn handshakes_ticked(self, node: NodeView, now: u128) -> (Self, NodeView) {
        let v = PeerView { pending: still_pending(self.pending, now), ..self };
        if !self.handshake_done && now >= self.next_handshake_retry {
            (
                PeerView { next_handshake_retry: after(now, HANDSHAKE_TIMEOUT as int), ..v },
                node.posted(self.bootstrap, handshake(node), now),
            )
        } else {
            (v, node)
        }
    }

    /// The peer and its node after the manifest has been asked for, if that
    /// was due; a request that was not answered in time is forgotten.
    pub open spec fn poll_ticked(self, node: NodeView, now: u128) -> (Self, NodeView) {
        let (v, n) = if now >= self.next_poll {
            let rng = stepped(self.rng);
            (
                PeerView {
                    rng,
                    next_poll: after(
                        now,
                        MANIFEST_POLL_INTERVAL + (mixed(rng) % POLL_JITTER_MS) * 1_000_000,
                    ),
                    poll_timeout: Some(after(now, MANIFEST_RESPONSE_TIMEOUT as int)),
                    ..self
                },
                node.posted(self.bootstrap, MessageView::ManifestRequest, now),
            )
        } else {
            (self, node)
        };
        if v.poll_timeout matches Some(t) && now >= t {
            (PeerView { poll_timeout: None, ..v }, n)
        } else {
            (v, n)
        }
    }

    /// The peer and its node after the peerlist has been asked for, if that
    /// was due.
    pub open spec fn discovery_ticked(self, node: NodeView, now: u128) -> (Self, NodeView) {
        if now >= self.next_peerlist {
            let rng = stepped(self.rng);
            (
                PeerView {
                    rng,
                    next_peerlist: after(
                        now,
                        PEERLIST_POLL_INTERVAL + (mixed(rng) % 2000) * 1_000_000,
                    ),
                    ..self
                },
                node.posted(self.bootstrap, MessageView::PeerlistRequest, now),
            )
        } else {
            (self, node)
        }
    }

    /// The peer and its node after the timers.
    pub open spec fn ticked(self, node: NodeView, now: u128) -> (Self, NodeView) {
        let (a, n) = self.handshakes_ticked(node, now);
        let (b, m) = a.poll_ticked(n, now);
        b.discovery_ticked(m, now)
    }

    /// The deadlines of the timers.
    pub open spec fn timers(self) -> Seq<u128> {
        self.pending.map_values(|e: (Endpoint, u128)| e.1) + (if self.handshake_done {
            Seq::empty()
        } else {
            seq![self.next_handshake_retry]
        }) + seq![self.next_poll, self.next_peerlist] + match self.poll_timeout {
            Some(t) => seq![t],
            None => Seq::empty(),
        }
    }

    /// All deadlines of a peer and its node.
    pub open spec fn all_deadlines(self, node: NodeView, now: u128) -> Seq<u128> {
        deadlines(node.registry) + (match node.fault.deadline(now) {
            Some(d) => seq![d],
            None => Seq::empty(),
        }) + self.timers()
    }
}

proof fn earliest_with(all: Seq<u128>, best: Option<u128>, t: u128)
    requires
        is_earliest(all, best),
    ensures
        is_earliest(
            all.push(t),
            match best {
                Some(b) => Some(
                    if b <= t {
                        b
                    } else {
                        t
                    },
                ),
                None => Some(t),
            },
        ),
{
    let next = all.push(t);
    assert(next[all.len() as int] == t);
    if let Some(b) = best {
        let i = choose|i: int| 0 <= i < all.len() && all[i] == b;
        assert(next[i] == b);
    }
}

fn earlier(best: Option<u128>, t: u128) -> (r: Option<u128>)
    ensures
        r == match best {
            Some(b) => Some(
                if b <= t {
                    b
                } else {
                    t
                },
            ),
            None => Some(t),
        },
{
    match best {
        Some(b) => Some(
            if b <= t {
                b
            } else {
                t
            },
        ),
        None => Some(t),
    }
}

impl Peer {
    /// Opens the handshake with the bootstrap node.
    pub fn open(&self, node: &mut Node, now: u128)
        ensures
            final(node)@ == old(node)@.posted(self@.bootstrap, handshake(old(node)@), now),
    {
        let m = handshake_request(node);
        node.post(self.bootstrap, &m, now);
    }

    /// How long to wait for a datagram: until the earliest deadline, and at
    /// least a nanosecond.
    pub fn wait_time(&self, node: &Node, now: u128) -> (wait: u128)
        ensures
            exists|t: u128| #[trigger]
                is_earliest(self@.all_deadlines(node@, now), Some(t)) && wait == if t > now {
                    (t - now) as u128
                } else {
                    1
                },
    {
        let mut best = node.next_deadline(now);
        let ghost mut all = deadlines(node@.registry) + match node@.fault.deadline(now) {
            Some(d) => seq![d],
            None => Seq::empty(),
        };
        let ghost start = all;
        let ghost values = self@.pending.map_values(|e: (Endpoint, u128)| e.1);
        let mut i: usize = 0;
        proof {
            assert(start + values.take(0) =~= start);
        }
        while i < self.pending.len()
            invariant
                i <= self.pending@.len(),
                values == self@.pending.map_values(|e: (Endpoint, u128)| e.1),
                all == start + values.take(i as int),
                is_earliest(all, best),
            decreases self.pending@.len() - i,
        {
            let t = *self.pending.value_at(i);
            proof {
                earliest_with(all, best, t);
                assert(start + values.take(i + 1) =~= all.push(t));
                all = all.push(t);
            }
            best = earlier(best, t);
            i = i + 1;
        }
        if !self.handshake_done {
            proof {
                earliest_with(all, best, self.next_handshake_retry);
                all = all.push(self.next_handshake_retry);
            }
            best = earlier(best, self.next_handshake_retry);
        }
        proof {
            earliest_with(all, best, self.next_poll);
            all = all.push(self.next_poll);
        }
        best = earlier(best, self.next_poll);
        proof {
            earliest_with(all, best, self.next_peerlist);
            all = all.push(self.next_peerlist);
        }
        best = earlier(best, self.next_peerlist);
        if let Some(t) = self.poll_timeout {
            proof {
                earliest_with(all, best, t);
                all = all.push(t);
            }
            best = earlier(best, t);
        }
        proof {
            assert(values.take(values.len() as int) =~= values);
            assert(all =~= self@.all_deadlines(node@, now));
        }
        match best {
            Some(t) => {
                assert(is_earliest(self@.all_deadlines(node@, now), Some(t)));
                if t > now {
                    t - now
                } else {
                    1
                }
            },
            None => 1,
        }
    }

    /// Takes note that a handshake has been answered.
    pub fn on_handshake(&mut self, node: &mut Node, src: Endpoint, name: &str, now: u128)
        requires
            old(node)@.wf(),
        ensures
            final(self)@ == old(self)@.handshake_came(src, now),
            final(node)@ == old(node)@.registered(src, name@, now),
            final(node)@.wf(),
    {
        node.register_peer(src, name, now);
        if src == self.bootstrap && !self.handshake_done {
            self.handshake_done = true;
            self.next_poll = now;
            self.next_peerlist = now;
        }
        let answered = self.pending.remove(&src);
    }

    /// Takes in a manifest; `changed` tells whether it differs from the stored
    /// one, `present` which files are there.
    pub fn on_manifest(&mut self, data: &[u8], changed: bool, present: &Group<String>, now: u128)
        ensures
            final(self)@ == old(self)@.manifest_came(data@, changed, present@, now),
    {
        self.poll_timeout = None;
        if data.len() > 0 && changed {
            let names = parse_manifest(data);
            self.sync_queue(names.as_slice(), present, now);
        }
    }

    /// Enqueue manifest segments that are missing locally and not already
    /// queued/in-flight and not in the failure cooldown. Newest first: live
    /// players want the edge, and older playlist segments roll off anyway.
    pub fn sync_queue(&mut self, names: &[String], present: &Group<String>, now: u128)
        ensures
            final(self)@ == old(self)@.synced(strings(names@), present@, now),
    {
        let ghost all = strings(names@);
        let mut i: usize = 0;
        proof {
            assert(all.take(0).len() == 0);
        }
        while i < names.len()
            invariant
                i <= names@.len(),
                all == strings(names@),
                self@ == old(self)@.synced(all.take(i as int), present@, now),
            decreases names@.len() - i,
        {
            let ghost v = self@;
            let f: &String = &names[i];
            proof {
                assert(all.take(i + 1).drop_last() =~= all.take(i as int));
                assert(all.take(i + 1).last() == f@);
            }
            let given_up = match self.failed_at.get(f) {
                Some(t) => elapsed(now, *t) < FAIL_RETRY_COOLDOWN,
                None => false,
            };
            if valid_filename(f.as_str()) && !present.contains(f) && !self.queued.contains(f)
                && !given_up {
                self.queued.add_key(owned(f.as_str()));
                self.push_front(owned(f.as_str()));
            }
            i = i + 1;
        }
        proof {
            assert(all.take(i as int) =~= all);
        }
    }

    fn push_front(&mut self, file: String)
        ensures
            final(self)@ == (PeerView { queue: seq![file@] + old(self)@.queue, ..old(self)@ }),
    {
        let ghost before = self@.queue;
        let ghost raw = self.queue@;
        self.queue.push_front(file);
        proof {
            assert(self.queue@ =~= seq![file] + raw);
            assert(self@.queue =~= seq![file@] + before);
        }
    }

    /// Takes in a peerlist.
    pub fn on_peerlist(&mut self, node: &mut Node, peers: &[(Endpoint, u8)], now: u128)
        requires
            old(node)@.wf(),
        ensures
            (final(self)@, final(node)@) == old(self)@.peerlist_came(old(node)@, peers@, now),
            final(node)@.wf(),
    {
        self.parents.clear();
        let ghost v = self@;
        let ghost n = node@;
        let mut i: usize = 0;
        proof {
            assert(peers@.take(0).len() == 0);
        }
        while i < peers.len()
            invariant
                i <= peers@.len(),
                (self@, node@) == v.entries_came(n, peers@.take(i as int), now),
                node@.wf(),
            decreases peers@.len() - i,
        {
            proof {
                assert(peers@.take(i + 1).drop_last() =~= peers@.take(i as int));
                assert(peers@.take(i + 1).last() == peers@[i as int]);
            }
            self.on_entry(node, peers[i], now);
            i = i + 1;
        }
        proof {
            assert(peers@.take(i as int) =~= peers@);
        }
    }

    fn on_entry(&mut self, node: &mut Node, entry: (Endpoint, u8), now: u128)
        requires
            old(node)@.wf(),
        ensures
            (final(self)@, final(node)@) == old(self)@.entry_came(old(node)@, entry, now),
            final(node)@.wf(),
    {
        let (p, flags) = entry;
        proof {
            assert((flags & 2 != 0) == (flags / 2 % 2 == 1)) by (bit_vector);
            assert((flags & 4 != 0) == (flags / 4 % 2 == 1)) by (bit_vector);
        }
        let far = match node.my_public() {
            Some(me) => remote_public(me),
            None => false,
        };
        if p == self.local_addr || p.port() == 0 || (far && !remote_public(p)) || flags
            & PEER_SAME_IP != 0 {
            return;
        }
        if flags & PEER_PARENT != 0 {
            self.parents.add_key(p);
        }
        if node.knows(p) || self.pending.contains(&p) {
            return;
        }
        self.pending.insert(p, later(now, HANDSHAKE_TIMEOUT));
        let m = handshake_request(node);
        node.post(p, &m, now);
    }

    /// Runs the timers: handshakes, the manifest poll and discovery.
    pub fn tick(&mut self, node: &mut Node, now: u128)
        requires
            old(node)@.wf(),
        ensures
            (final(self)@, final(node)@) == old(self)@.ticked(old(node)@, now),
            final(node)@.wf(),
    {
        self.tick_handshakes(node, now);
        self.tick_poll(node, now);
        if now >= self.next_peerlist {
            node.post(self.bootstrap, &Message::PeerlistRequest, now);
            let jitter: u64 = self.rng.next() % 2000;
            self.next_peerlist = later(now, PEERLIST_POLL_INTERVAL + jitter as u128 * 1_000_000);
        }
    }

    fn tick_handshakes(&mut self, node: &mut Node, now: u128)
        requires
            old(node)@.wf(),
        ensures
            (final(self)@, final(node)@) == old(self)@.handshakes_ticked(old(node)@, now),
            final(node)@.wf(),
    {
        if !self.handshake_done && now >= self.next_handshake_retry {
            let m = handshake_request(node);
            node.post(self.bootstrap, &m, now);
            self.next_handshake_retry = later(now, HANDSHAKE_TIMEOUT);
        }
        let ghost v = self@;
        let ghost all = self@.pending;
        let mut kept: Table<Endpoint, u128> = Table::new();
        let ghost mut i: int = 0;
        proof {
            assert(all.skip(0) =~= all);
            assert(all.take(0).len() == 0);
        }
        while self.pending.len() > 0
            invariant
                0 <= i <= all.len(),
                self@ == (PeerView { pending: self@.pending, ..v }),
                self@.pending == all.skip(i),
                kept@ == still_pending(all.take(i), now),
            decreases self.pending@.len(),
        {
            proof {
                assert(all.take(i + 1).drop_last() =~= all.take(i));
                assert(all.take(i + 1).last() == all[i]);
                assert(all.skip(i)[0] == all[i]);
                assert(all.skip(i).skip(1) =~= all.skip(i + 1));
            }
            if let Some((p, deadline)) = self.pending.pop_first() {
                if now < deadline {
                    kept.push_last(p, deadline);
                }
            }
            proof {
                i = i + 1;
            }
        }
        proof {
            assert(all.take(i) =~= all);
        }
        self.pending = kept;
    }

    fn tick_poll(&mut self, node: &mut Node, now: u128)
        requires
            old(node)@.wf(),
        ensures
            (final(self)@, final(node)@) == old(self)@.poll_ticked(old(node)@, now),
            final(node)@.wf(),
    {
        if now >= self.next_poll {
            node.post(self.bootstrap, &Message::ManifestRequest, now);
            let jitter: u64 = self.rng.next() % POLL_JITTER_MS;
            self.next_poll = later(now, MANIFEST_POLL_INTERVAL + jitter as u128 * 1_000_000);
            self.poll_timeout = Some(later(now, MANIFEST_RESPONSE_TIMEOUT));
        }
        if let Some(t) = self.poll_timeout {
            if now >= t {
                self.poll_timeout = None;
            }
        }
    }

    fn drop_retries(&mut self, file: &str)
        ensures
            final(self)@ == (PeerView {
                retry_after: without_file(old(self)@.retry_after, file@),
                ..old(self)@
            }),
    {
        let ghost all = self@.retry_after;
        let mut kept: Table<(String, Endpoint), u128> = Table::new();
        let ghost mut i: int = 0;
        proof {
            assert(all.skip(0) =~= all);
            assert(all.take(0).len() == 0);
        }
        while self.retry_after.len() > 0
            invariant
                0 <= i <= all.len(),
                self@ == (PeerView { retry_after: self@.retry_after, ..old(self)@ }),
                self@.retry_after == all.skip(i),
                kept@ == without_file(all.take(i), file@),
            decreases self.retry_after@.len(),
        {
            proof {
                assert(all.take(i + 1).drop_last() =~= all.take(i));
                assert(all.take(i + 1).last() == all[i]);
                assert(all.skip(i)[0] == all[i]);
                assert(all.skip(i).skip(1) =~= all.skip(i + 1));
            }
            if let Some((k, until)) = self.retry_after.pop_first() {
                if !crate::text::same_text(k.0.as_str(), file) {
                    kept.push_last(k, until);
                }
            }
            proof {
                i = i + 1;
            }
        }
        proof {
            assert(all.take(i) =~= all);
        }
        self.retry_after = kept;
    }

    fn on_pull_done(&mut self, file: &String, peer: Endpoint)
        ensures
            final(self)@ == old(self)@.pull_done(JobView { filename: file@, peer }),
    {
        self.queued.drop_key(file);
        let tried = self.tried.remove(file);
        let waited = self.parent_wait.remove(file);
        let hits = self.hits.remove(&peer);
        self.drop_retries(file.as_str());
    }

    fn on_pull_put_off(&mut self, file: &String, peer: Endpoint, now: u128)
        ensures
            final(self)@ == old(self)@.pull_put_off(JobView { filename: file@, peer }, now),
    {
        self.retry_after.insert((owned(file.as_str()), peer), later(now, FAIL_RETRY_COOLDOWN));
        if let Some(i) = self.tried.find(file) {
            self.tried.value_mut(i).drop_key(&peer);
        }
        let answered = self.hits.remove(&peer);
        let ghost before = self@.queue;
        self.queue.push_back(owned(file.as_str()));
        proof {
            assert(self@.queue =~= before.push(file@));
        }
    }

    fn count_answer(&mut self, node: &mut Node, file: &String, peer: Endpoint, unresponsive: bool)
        requires
            old(node)@.wf(),
        ensures
            (final(self)@, final(node)@) == old(self)@.answer_counted(
                old(node)@,
                JobView { filename: file@, peer },
                unresponsive,
            ),
            final(node)@.wf(),
    {
        if !unresponsive {
            let forgiven = self.hits.remove(&peer);
            return;
        }
        let before: u32 = match self.hits.get(&peer) {
            Some(n) => *n,
            None => 0,
        };
        if before >= EVICT_AFTER_UNRESPONSIVE - 1 {
            node.remove_peer(peer);
            let evicted = self.hits.remove(&peer);
        } else {
            self.hits.insert(peer, before + 1);
        }
    }

    fn has_untried(&self, node: &Node, file: &str) -> (r: bool)
        ensures
            r == self@.has_untried(node@, file@),
    {
        let n: usize = node.peer_count();
        let mut i: usize = 0;
        while i < n
            invariant
                i <= n,
                n == node@.peers.len(),
                forall|j: int|
                    0 <= j < i ==> !((#[trigger] node@.peers[j]).0 != self@.local_addr
                        && !self@.was_tried(file@, node@.peers[j].0)),
            decreases n - i,
        {
            let p = node.peer_at(i);
            assert(node@.peers[i as int].0 == p);
            if p != self.local_addr && !self.was_tried(file, p) {
                return true;
            }
            i = i + 1;
        }
        false
    }

    fn on_pull_failed(&mut self, node: &Node, file: &String, peer: Endpoint, now: u128)
        ensures
            final(self)@ == old(self)@.pull_failed(node@, JobView { filename: file@, peer }, now),
    {
        if self.has_untried(node, file.as_str()) {
            self.push_front(owned(file.as_str()));
        } else {
            self.queued.drop_key(file);
            let tried = self.tried.remove(file);
            self.failed_at.insert(owned(file.as_str()), now);
        }
    }

    /// Looks at a download; gives the file if it was saved.
    fn reap(&mut self, node: &mut Node, id: u16, now: u128) -> (saved: Option<String>)
        requires
            old(node)@.wf(),
        ensures
            ({
                let (v, n, file) = old(self)@.reaped(old(node)@, id, now);
                &&& final(self)@ == v
                &&& final(node)@ == n
                &&& file == match saved {
                    Some(f) => Some(f@),
                    None => None,
                }
            }),
            final(node)@.wf(),
    {
        let (file, peer) = match self.active.get(&id) {
            Some(job) => (owned(job.filename.as_str()), job.peer),
            None => {
                return None;
            },
        };
        let ok = match node.registry().receiver_outcome(id) {
            Some(Ok(())) => true,
            Some(Err(_)) => false,
            None => {
                return None;
            },
        };
        let unresponsive = node.registry().receiver_unresponsive(id);
        let retryable = node.registry().receiver_retryable_not_found(id);
        let not_found = node.registry().receiver_not_found(id);
        let latency = node.registry().receiver_first_packet_ms(id);
        let bytes: u64 = match node.registry().receiver_saved_bytes(id) {
            Some(b) => b,
            None => 0,
        };
        let job = self.active.remove(&id);
        if !ok {
            node.forget_pull(id);
        }
        let result = if ok {
            PullResult::Done
        } else if unresponsive {
            PullResult::Timeout
        } else if retryable {
            PullResult::RetryableNotFound
        } else if not_found {
            PullResult::NotFound
        } else {
            PullResult::Other
        };
        node.record_pull(peer, result, latency, bytes, now);
        match result {
            PullResult::Done => {
                self.on_pull_done(&file, peer);
                Some(file)
            },
            PullResult::RetryableNotFound => {
                self.on_pull_put_off(&file, peer, now);
                None
            },
            _ => {
                self.count_answer(node, &file, peer, unresponsive);
                self.on_pull_failed(node, &file, peer, now);
                None
            },
        }
    }

    /// Collect finished downloads, then fill the free slots; gives the files
    /// that were saved. `seed` is a number for new transfers.
    pub fn schedule_jobs(&mut self, node: &mut Node, seed: u16, now: u128) -> (saved: Vec<String>)
        requires
            old(node)@.wf(),
        ensures
            (final(self)@, final(node)@, strings(saved@)) == old(self)@.scheduled(
                old(node)@,
                seed,
                now,
            ),
            final(node)@.wf(),
    {
        let ghost v = self@;
        let ghost n = node@;
        let ghost all = v.active.map_values(|e: (u16, JobView)| e.0);
        let mut ids: Vec<u16> = Vec::new();
        let mut i: usize = 0;
        while i < self.active.len()
            invariant
                i <= self.active@.len(),
                self@ == v,
                ids@.len() == i,
                forall|j: int| 0 <= j < i ==> #[trigger] ids@[j] == v.active[j].0,
            decreases self.active@.len() - i,
        {
            ids.push(*self.active.key_at(i));
            i = i + 1;
        }
        let mut saved: Vec<String> = Vec::new();
        let mut k: usize = 0;
        proof {
            assert(ids@ =~= all);
            assert(all.take(0).len() == 0);
            assert(strings(saved@) =~= Seq::<Seq<char>>::empty());
        }
        while k < ids.len()
            invariant
                k <= ids@.len(),
                ids@ == all,
                (self@, node@, strings(saved@)) == v.all_reaped(n, all.take(k as int), now),
                node@.wf(),
            decreases ids@.len() - k,
        {
            proof {
                assert(all.take(k + 1).drop_last() =~= all.take(k as int));
                assert(all.take(k + 1).last() == all[k as int]);
            }
            let ghost before = strings(saved@);
            if let Some(f) = self.reap(node, ids[k], now) {
                saved.push(f);
                proof {
                    assert(strings(saved@) =~= before.push(f@));
                }
            }
            k = k + 1;
        }
        proof {
            assert(all.take(k as int) =~= all);
        }
        self.fill(node, seed, now);
        node.set_queue(self.queue.len() as u64, self.active.len() as u64);
        saved
    }
}

} // verus!
