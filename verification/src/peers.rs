//! What a node knows of its peers: names, reachability, quality.
use vstd::prelude::*;
use crate::endpoint::{endpoint_before, Endpoint};
use crate::protocol::{inventory_says, SegmentAvailability};
use crate::table::Table;
use crate::transfer::{elapsed, larger, since, smaller};

verus! {

/// A path counts as fresh while a PONG was received within this window, in
/// nanoseconds.
pub const PATH_FRESH: u128 = 30_000_000_000;

/// How long an inventory or a refusal counts, in nanoseconds.
pub const AVAILABILITY_TTL: u128 = 15_000_000_000;

/// A known peer and when we last heard from it.
#[derive(Debug)]
pub struct PeerInfo {
    pub name: String,
    pub last_seen: u128,
}

/// The model of a [`PeerInfo`].
#[verifier::ext_equal]
pub struct PeerInfoView {
    pub name: Seq<char>,
    pub last_seen: u128,
}

impl View for PeerInfo {
    type V = PeerInfoView;

    open spec fn view(&self) -> PeerInfoView {
        PeerInfoView { name: self.name@, last_seen: self.last_seen }
    }
}

/// How a pull from a peer ended (requester-side view).
#[derive(Clone, Copy, Debug, PartialEq, Eq, Structural)]
pub enum PullResult {
    Done,
    NotFound,
    /// The source refused for the moment only.
    RetryableNotFound,
    Timeout,
    Other,
}

/// How a serve to a peer ended (server-side view).
#[derive(Clone, Copy, Debug, PartialEq, Eq, Structural)]
pub enum ServeResult {
    Served,
    NotFound,
    SenderFailed,
}

/// Per-peer quality bookkeeping: both sides of every interaction feed a
/// single score per peer.
#[derive(Debug)]
pub struct PeerStat {
    pub name: String,
    pub pulls: u32,
    pub nf_pulls: u32,
    pub timeouts: u32,
    pub other_fails: u32,
    pub served: u32,
    pub nf_served: u32,
    pub sender_fails: u32,
    /// moving average of first-packet latency
    pub latency_ms: u32,
    pub score: u32,
    pub downloaded_bytes: u64,
    pub uploaded_bytes: u64,
    pub last_seen: u128,
}

/// The model of a [`PeerStat`].
#[verifier::ext_equal]
pub struct PeerStatView {
    pub name: Seq<char>,
    pub pulls: u32,
    pub nf_pulls: u32,
    pub timeouts: u32,
    pub other_fails: u32,
    pub served: u32,
    pub nf_served: u32,
    pub sender_fails: u32,
    pub latency_ms: u32,
    pub score: u32,
    pub downloaded_bytes: u64,
    pub uploaded_bytes: u64,
    pub last_seen: u128,
}

impl View for PeerStat {
    type V = PeerStatView;

    open spec fn view(&self) -> PeerStatView {
        PeerStatView {
            name: self.name@,
            pulls: self.pulls,
            nf_pulls: self.nf_pulls,
            timeouts: self.timeouts,
            other_fails: self.other_fails,
            served: self.served,
            nf_served: self.nf_served,
            sender_fails: self.sender_fails,
            latency_ms: self.latency_ms,
            score: self.score,
            downloaded_bytes: self.downloaded_bytes,
            uploaded_bytes: self.uploaded_bytes,
            last_seen: self.last_seen,
        }
    }
}

/// A 32-bit counter after one more, modulo 2^32.
pub open spec fn plus_one(n: u32) -> u32 {
    ((n + 1) % 0x1_0000_0000) as u32
}

/// A 64-bit total after `d` more, modulo 2^64.
pub open spec fn plus(n: u64, d: u64) -> u64 {
    ((n + d) % 0x1_0000_0000_0000_0000) as u64
}

/// A score after a change, between 0 and 100.
pub open spec fn adjusted(score: u32, delta: int) -> u32 {
    smaller(larger(score + delta, 0), 100) as u32
}

/// The latency estimate after a sample; the first sample stands for itself.
pub open spec fn latency_after(estimate: u32, ms: u64) -> u32 {
    let sample = (ms % 0x1_0000_0000) as u32;
    if estimate == 0 {
        sample
    } else {
        ((estimate * 3 + sample) / 4) as u32
    }
}

impl PeerStatView {
    /// A peer that has just become known.
    pub open spec fn fresh(name: Seq<char>, now: u128) -> Self {
        PeerStatView {
            name,
            pulls: 0,
            nf_pulls: 0,
            timeouts: 0,
            other_fails: 0,
            served: 0,
            nf_served: 0,
            sender_fails: 0,
            latency_ms: 0,
            score: 50,
            downloaded_bytes: 0,
            uploaded_bytes: 0,
            last_seen: now,
        }
    }

    /// The score is one.
    pub open spec fn wf(self) -> bool {
        self.score <= 100
    }

    /// The bookkeeping after a pull from the peer. "Doesn't have it" is
    /// availability churn, not bad service: it is counted without a penalty.
    /// A refusal for the moment is not counted at all.
    pub open spec fn pulled(
        self,
        result: PullResult,
        latency_ms: Option<u64>,
        bytes: u64,
        now: u128,
    ) -> Self {
        let v = PeerStatView { last_seen: now, ..self };
        match result {
            PullResult::Done => PeerStatView {
                pulls: plus_one(v.pulls),
                score: adjusted(v.score, 2),
                latency_ms: match latency_ms {
                    Some(ms) => latency_after(v.latency_ms, ms),
                    None => v.latency_ms,
                },
                downloaded_bytes: plus(v.downloaded_bytes, bytes),
                ..v
            },
            PullResult::NotFound => PeerStatView { nf_pulls: plus_one(v.nf_pulls), ..v },
            PullResult::RetryableNotFound => v,
            PullResult::Timeout => PeerStatView {
                timeouts: plus_one(v.timeouts),
                score: adjusted(v.score, -10),
                ..v
            },
            PullResult::Other => PeerStatView {
                other_fails: plus_one(v.other_fails),
                score: adjusted(v.score, -3),
                ..v
            },
        }
    }

    /// The bookkeeping after a file has been served to the peer, or not.
    pub open spec fn served_to(self, result: ServeResult, bytes: u64) -> Self {
        match result {
            ServeResult::Served => PeerStatView {
                served: plus_one(self.served),
                score: adjusted(self.score, 2),
                uploaded_bytes: plus(self.uploaded_bytes, bytes),
                ..self
            },
            ServeResult::NotFound => PeerStatView { nf_served: plus_one(self.nf_served), ..self },
            ServeResult::SenderFailed => PeerStatView {
                sender_fails: plus_one(self.sender_fails),
                score: adjusted(self.score, -5),
                ..self
            },
        }
    }
}

/// Whatever happens, a score stays between 0 and 100, and what is neither
/// good nor bad service leaves it alone.
pub proof fn score_is_bounded(
    v: PeerStatView,
    pull: PullResult,
    serve: ServeResult,
    latency_ms: Option<u64>,
    bytes: u64,
    now: u128,
)
    requires
        v.wf(),
    ensures
        v.pulled(pull, latency_ms, bytes, now).wf(),
        v.served_to(serve, bytes).wf(),
        PeerStatView::fresh(v.name, now).wf(),
        pull == PullResult::NotFound || pull == PullResult::RetryableNotFound ==> v.pulled(
            pull,
            latency_ms,
            bytes,
            now,
        ).score == v.score,
        serve == ServeResult::NotFound ==> v.served_to(serve, bytes).score == v.score,
{
}

impl PeerStat {
    /// A peer that has just become known.
    pub fn new(name: String, now: u128) -> (s: Self)
        ensures
            s@ == PeerStatView::fresh(name@, now),
    {
        PeerStat {
            name,
            pulls: 0,
            nf_pulls: 0,
            timeouts: 0,
            other_fails: 0,
            served: 0,
            nf_served: 0,
            sender_fails: 0,
            latency_ms: 0,
            score: 50,
            downloaded_bytes: 0,
            uploaded_bytes: 0,
            last_seen: now,
        }
    }

    fn adjust(&mut self, delta: i32)
        requires
            old(self)@.wf(),
            -100 <= delta <= 100,
        ensures
            final(self)@ == (PeerStatView {
                score: adjusted(old(self)@.score, delta as int),
                ..old(self)@
            }),
    {
        let score: i32 = self.score as i32 + delta;
        self.score = if score < 0 {
            0
        } else if score > 100 {
            100
        } else {
            score as u32
        };
    }

    /// Takes note of a pull from the peer.
    pub fn on_pull(&mut self, result: PullResult, latency_ms: Option<u64>, bytes: u64, now: u128)
        requires
            old(self)@.wf(),
        ensures
            final(self)@ == old(self)@.pulled(result, latency_ms, bytes, now),
            final(self)@.wf(),
    {
        self.last_seen = now;
        match result {
            PullResult::Done => {
                self.pulls = self.pulls.wrapping_add(1);
                self.adjust(2);
                if let Some(ms) = latency_ms {
                    let sample: u32 = (ms % 0x1_0000_0000) as u32;
                    if self.latency_ms == 0 {
                        self.latency_ms = sample;
                    } else {
                        self.latency_ms = ((self.latency_ms as u64 * 3 + sample as u64) / 4) as u32;
                    }
                }
                self.downloaded_bytes = self.downloaded_bytes.wrapping_add(bytes);
            },
            PullResult::NotFound => {
                self.nf_pulls = self.nf_pulls.wrapping_add(1);
            },
            PullResult::RetryableNotFound => {},
            PullResult::Timeout => {
                self.timeouts = self.timeouts.wrapping_add(1);
                self.adjust(-10);
            },
            PullResult::Other => {
                self.other_fails = self.other_fails.wrapping_add(1);
                self.adjust(-3);
            },
        }
    }

    /// Takes note of a file served to the peer, or not.
    pub fn on_serve(&mut self, result: ServeResult, bytes: u64)
        requires
            old(self)@.wf(),
        ensures
            final(self)@ == old(self)@.served_to(result, bytes),
            final(self)@.wf(),
    {
        match result {
            ServeResult::Served => {
                self.served = self.served.wrapping_add(1);
                self.adjust(2);
                self.uploaded_bytes = self.uploaded_bytes.wrapping_add(bytes);
            },
            ServeResult::NotFound => {
                self.nf_served = self.nf_served.wrapping_add(1);
            },
            ServeResult::SenderFailed => {
                self.sender_fails = self.sender_fails.wrapping_add(1);
                self.adjust(-5);
            },
        }
    }
}

/// Reachability state for one peer address: when did we last ping it and get
/// a PONG, and was the path discovered on the LAN (beacon)?
#[derive(Clone, Copy, Debug, PartialEq, Eq, Structural)]
pub struct PathState {
    pub last_ping: u128,
    pub last_pong: Option<u128>,
    pub lan: bool,
}

impl View for PathState {
    type V = PathState;

    open spec fn view(&self) -> PathState {
        *self
    }
}

/// Whether the direct path is fresh.
pub open spec fn path_is_fresh(p: PathState, now: u128) -> bool {
    p.last_pong matches Some(t) && since(now, t) < PATH_FRESH
}

/// A path on which nothing has come back yet.
pub open spec fn untried_path(now: u128) -> PathState {
    PathState { last_ping: now, last_pong: None, lan: false }
}

impl PathState {
    /// A path on which nothing has come back yet.
    pub fn new(now: u128) -> (p: PathState)
        ensures
            p == untried_path(now),
    {
        PathState { last_ping: now, last_pong: None, lan: false }
    }

    /// Whether the direct path is fresh (PONG within the window).
    pub fn fresh(&self, now: u128) -> (r: bool)
        ensures
            r == path_is_fresh(*self, now),
    {
        match self.last_pong {
            Some(t) => elapsed(now, t) < PATH_FRESH,
            None => false,
        }
    }
}

/// A peer's compact recent segment inventory, and when it came.
#[derive(Clone, Copy, Debug, PartialEq, Eq, Structural)]
pub struct Inventory {
    pub availability: SegmentAvailability,
    pub observed_at: u128,
}

impl View for Inventory {
    type V = Inventory;

    open spec fn view(&self) -> Inventory {
        *self
    }
}

/// Whether what came at `t` still counts.
pub open spec fn still_counts(t: u128, now: u128) -> bool {
    since(now, t) <= AVAILABILITY_TTL
}

/// Whether what came at `t` still counts.
pub fn counts(t: u128, now: u128) -> (r: bool)
    ensures
        r == still_counts(t, now),
{
    elapsed(now, t) <= AVAILABILITY_TTL
}

/// Whether a peer has a segment, as far as its last inventory and its standing
/// refusal of this very file tell: both count for a while only, and the refusal
/// comes first.
pub open spec fn known_copy(
    inventory: Option<Inventory>,
    refused_at: Option<u128>,
    number: Option<u64>,
    now: u128,
) -> Option<bool> {
    let said = match (inventory, number) {
        (Some(i), Some(n)) => if still_counts(i.observed_at, now) {
            inventory_says(i.availability, n)
        } else {
            None
        },
        _ => None,
    };
    match refused_at {
        Some(t) => if still_counts(t, now) {
            Some(false)
        } else {
            said
        },
        None => said,
    }
}

/// Whether a peer has a segment.
pub fn copy_known(
    inventory: Option<&Inventory>,
    refused_at: Option<u128>,
    number: Option<u64>,
    now: u128,
) -> (r: Option<bool>)
    ensures
        r == known_copy(
            match inventory {
                Some(i) => Some(*i),
                None => None,
            },
            refused_at,
            number,
            now,
        ),
{
    if let Some(t) = refused_at {
        if counts(t, now) {
            return Some(false);
        }
    }
    let mut said: Option<bool> = None;
    if let Some(i) = inventory {
        if let Some(n) = number {
            if counts(i.observed_at, now) {
                said = i.availability.contains(n);
            }
        }
    }
    said
}

/// A peer with its bookkeeping.
pub type Ranked = (Endpoint, PeerStatView);

/// Whether `a` ranks before `b`: the better score first, then the address.
pub open spec fn ranks_before(a: Ranked, b: Ranked) -> bool {
    a.1.score > b.1.score || (a.1.score == b.1.score && endpoint_before(a.0, b.0))
}

/// Where `e` belongs in a ranking: behind all that rank before it.
pub open spec fn rank_place(ranking: Seq<Ranked>, e: Ranked) -> int
    decreases ranking.len(),
{
    if ranking.len() == 0 || !ranks_before(ranking[0], e) {
        0
    } else {
        1 + rank_place(ranking.skip(1), e)
    }
}

/// The peers from best to worst.
pub open spec fn ranking(stats: Seq<Ranked>) -> Seq<Ranked>
    decreases stats.len(),
{
    if stats.len() == 0 {
        Seq::empty()
    } else {
        let rest = ranking(stats.drop_last());
        rest.insert(rank_place(rest, stats.last()), stats.last())
    }
}

/// Whether nothing stands behind what it ranks before.
pub open spec fn is_ranked(s: Seq<Ranked>) -> bool {
    forall|i: int, j: int| 0 <= i < j < s.len() ==> !ranks_before(#[trigger] s[j], #[trigger] s[i])
}

proof fn place_bounds(r: Seq<Ranked>, e: Ranked)
    ensures
        0 <= rank_place(r, e) <= r.len(),
        forall|i: int| 0 <= i < rank_place(r, e) ==> ranks_before(#[trigger] r[i], e),
        rank_place(r, e) < r.len() ==> !ranks_before(r[rank_place(r, e)], e),
    decreases r.len(),
{
    if r.len() > 0 && ranks_before(r[0], e) {
        place_bounds(r.skip(1), e);
        assert forall|i: int| 0 <= i < rank_place(r, e) implies ranks_before(#[trigger] r[i], e) by {
            if i > 0 {
                assert(r.skip(1)[i - 1] == r[i]);
            }
        }
        if rank_place(r, e) < r.len() {
            assert(r.skip(1)[rank_place(r, e) - 1] == r[rank_place(r, e)]);
        }
    }
}

/// The order of addresses decides between any two that differ, one way.
proof fn endpoint_order(a: Endpoint, b: Endpoint, c: Endpoint)
    ensures
        !(endpoint_before(a, b) && endpoint_before(b, a)),
        a != b ==> endpoint_before(a, b) || endpoint_before(b, a),
        endpoint_before(a, b) && endpoint_before(b, c) ==> endpoint_before(a, c),
{
}

/// A ranking holds the peers that it was made of, in the order of rank.
pub proof fn ranking_is_ranked(stats: Seq<Ranked>)
    ensures
        is_ranked(ranking(stats)),
        ranking(stats).to_multiset() == stats.to_multiset(),
        ranking(stats).len() == stats.len(),
    decreases stats.len(),
{
    if stats.len() > 0 {
        let rest = stats.drop_last();
        let e = stats.last();
        ranking_is_ranked(rest);
        let r = ranking(rest);
        let p = rank_place(r, e);
        place_bounds(r, e);
        let s = ranking(stats);
        assert(s =~= r.insert(p, e));
        assert forall|i: int, j: int| 0 <= i < j < s.len() implies !ranks_before(
            #[trigger] s[j],
            #[trigger] s[i],
        ) by {
            let a = if i < p {
                i
            } else {
                i - 1
            };
            let b = if j < p {
                j
            } else {
                j - 1
            };
            if i == p {
                assert(s[j] == r[b]);
                endpoint_order(r[p].0, e.0, r[b].0);
                endpoint_order(r[b].0, e.0, r[p].0);
                if ranks_before(r[b], e) {
                    if p < b {
                        assert(!ranks_before(r[b], r[p]));
                        endpoint_order(e.0, r[p].0, r[b].0);
                    }
                }
            } else if j == p {
                assert(s[i] == r[i]);
                assert(ranks_before(r[i], e));
                endpoint_order(r[i].0, e.0, e.0);
            } else {
                assert(s[i] == r[a] && s[j] == r[b]);
                assert(!ranks_before(r[b], r[a]));
            }
        }
        vstd::seq_lib::to_multiset_insert(r, p, e);
        assert(stats =~= rest.push(e));
        vstd::seq_lib::to_multiset_build(rest, e);
    } else {
        assert(ranking(stats) =~= stats);
    }
}

/// The positions of the peers of a table from best to worst.
pub fn ranked(stats: &Table<Endpoint, PeerStat>) -> (order: Vec<usize>)
    ensures
        order@.len() == stats@.len(),
        forall|i: int| 0 <= i < order@.len() ==> (#[trigger] order@[i]) < stats@.len(),
        order@.map_values(|i: usize| stats@[i as int]) == ranking(stats@),
{
    let mut order: Vec<usize> = Vec::new();
    let ghost at = |i: usize| stats@[i as int];
    let n: usize = stats.len();
    let mut k: usize = 0;
    proof {
        assert(order@.map_values(at) =~= ranking(stats@.take(0)));
    }
    while k < n
        invariant
            k <= n,
            n == stats@.len(),
            order@.len() == k,
            at == |i: usize| stats@[i as int],
            forall|i: int| 0 <= i < k ==> (#[trigger] order@[i]) < n,
            order@.map_values(at) == ranking(stats@.take(k as int)),
        decreases n - k,
    {
        let ghost r = order@.map_values(at);
        let ghost e = stats@[k as int];
        let mut p: usize = 0;
        proof {
            assert(r.skip(0) =~= r);
        }
        while p < order.len() && before(stats, order[p], k)
            invariant
                p <= order@.len(),
                k < n,
                n == stats@.len(),
                order@.len() == k,
                at == |i: usize| stats@[i as int],
                forall|i: int| 0 <= i < k ==> (#[trigger] order@[i]) < n,
                r == order@.map_values(at),
                e == stats@[k as int],
                rank_place(r, e) == p + rank_place(r.skip(p as int), e),
            decreases order@.len() - p,
        {
            proof {
                assert(r.skip(p as int)[0] == r[p as int]);
                assert(r.skip(p as int).skip(1) =~= r.skip(p + 1));
            }
            p = p + 1;
        }
        proof {
            if p < order@.len() {
                assert(r.skip(p as int)[0] == r[p as int]);
            }
            assert(rank_place(r, e) == p);
        }
        order.insert(p, k);
        proof {
            assert(stats@.take(k + 1).drop_last() =~= stats@.take(k as int));
            assert(stats@.take(k + 1).last() == e);
            assert(order@.map_values(at) =~= r.insert(p as int, e));
        }
        k = k + 1;
    }
    proof {
        assert(stats@.take(n as int) =~= stats@);
    }
    order
}

fn before(stats: &Table<Endpoint, PeerStat>, i: usize, j: usize) -> (r: bool)
    requires
        i < stats@.len(),
        j < stats@.len(),
    ensures
        r == ranks_before(stats@[i as int], stats@[j as int]),
{
    let a: u32 = stats.value_at(i).score;
    let b: u32 = stats.value_at(j).score;
    a > b || (a == b && stats.key_at(i).before(stats.key_at(j)))
}

} // verus!
