//! What holds of whole calls of the job scheduler.
use vstd::prelude::*;
use crate::endpoint::Endpoint;
use crate::fault::{no_fault_is_transparent, DatagramView};
use crate::laws::{schedule_keeps_limits, silences_stay_distinct, within_limits};
use crate::node::NodeView;
use crate::peer::{
    without_file, JobView, PeerView, EVICT_AFTER_UNRESPONSIVE, MAX_PARALLEL_DOWNLOADS,
};
use crate::protocol::{datagram_of, MessageView};
use crate::source_laws::picked_source_may_be_asked;
use crate::table::{
    distinct, excluding, excluding_excludes, has_key, including, lookup, lookup_after_put,
    lookup_after_removed, position, position_is_first, put_keeps_distinct, removed,
};
use crate::transfer::{
    after, is_valid_filename, manifest_names, since, MAX_CONCURRENT_TRANSFERS,
};

verus! {

/// How many silences of a peer in a row are counted.
pub open spec fn silences(v: PeerView, p: Endpoint) -> int {
    match lookup(v.hits, p) {
        Some(n) => n as int,
        None => 0,
    }
}

/// Whether a download from a peer has ended because the peer did not answer.
pub open spec fn is_silent(v: PeerView, node: NodeView, id: u16, p: Endpoint) -> bool {
    &&& lookup(v.active, id) matches Some(job) && job.peer == p
    &&& lookup(node.registry.receivers, id) matches Some(r) && r.outcome matches Some(Err(_))
        && r.unresponsive
}

/// Whether a download from a peer has ended in any other way: the peer has
/// answered.
pub open spec fn is_answered(v: PeerView, node: NodeView, id: u16, p: Endpoint) -> bool {
    &&& lookup(v.active, id) matches Some(job) && job.peer == p
    &&& lookup(node.registry.receivers, id) matches Some(r) && r.outcome is Some
    &&& !is_silent(v, node, id, p)
}

/// How many of the downloads have ended because the peer did not answer.
pub open spec fn silent_count(v: PeerView, node: NodeView, ids: Seq<u16>, p: Endpoint) -> nat
    decreases ids.len(),
{
    if ids.len() == 0 {
        0
    } else {
        silent_count(v, node, ids.drop_last(), p) + if is_silent(v, node, ids.last(), p) {
            1nat
        } else {
            0nat
        }
    }
}

/// Whether one of the downloads has ended with an answer of the peer.
pub open spec fn some_answered(v: PeerView, node: NodeView, ids: Seq<u16>, p: Endpoint) -> bool {
    exists|i: int| 0 <= i < ids.len() && is_answered(v, node, #[trigger] ids[i], p)
}

/// The silences of a peer in a row after a list of downloads has been looked at
/// in order: a silence adds one, an answer starts over. Three stay three, for
/// the peer is then evicted.
pub open spec fn silent_row(v: PeerView, node: NodeView, ids: Seq<u16>, p: Endpoint) -> int
    decreases ids.len(),
{
    if ids.len() == 0 {
        silences(v, p)
    } else {
        let row = silent_row(v, node, ids.drop_last(), p);
        if row >= EVICT_AFTER_UNRESPONSIVE {
            row
        } else if is_silent(v, node, ids.last(), p) {
            row + 1
        } else if is_answered(v, node, ids.last(), p) {
            0
        } else {
            row
        }
    }
}

/// The numbers of the downloads under way.
pub open spec fn job_ids(v: PeerView) -> Seq<u16> {
    v.active.map_values(|e: (u16, JobView)| e.0)
}

/// Everything is told apart by its key.
spec fn keyed(v: PeerView, node: NodeView) -> bool {
    &&& distinct(v.active)
    &&& distinct(v.hits)
    &&& distinct(node.registry.receivers)
    &&& distinct(node.peers)
}

proof fn one_reaped(v: PeerView, node: NodeView, id: u16, p: Endpoint, other: u16, now: u128)
    requires
        keyed(v, node),
    ensures
        ({
            let (w, n, _) = v.reaped(node, id, now);
            &&& keyed(w, n)
            &&& other != id ==> lookup(w.active, other) == lookup(v.active, other)
            &&& other != id ==> lookup(n.registry.receivers, other) == lookup(
                node.registry.receivers,
                other,
            )
            &&& silences(v, p) < 3 ==> silences(w, p) < 3
            &&& is_silent(v, node, id, p) && silences(v, p) < 2 ==> silences(w, p) == silences(
                v,
                p,
            ) + 1
            &&& is_answered(v, node, id, p) ==> silences(w, p) == 0
            &&& !is_silent(v, node, id, p) && !is_answered(v, node, id, p) ==> silences(w, p)
                == silences(v, p)
            &&& has_key(n.peers, p) == (has_key(node.peers, p) && !(is_silent(v, node, id, p)
                && silences(v, p) >= 2))
        }),
{
    lookup_after_removed(v.active, id, other);
    lookup_after_removed(node.registry.receivers, id, other);
    if let Some(job) = lookup(v.active, id) {
        lookup_after_removed(v.hits, job.peer, p);
        lookup_after_removed(node.peers, job.peer, p);
        lookup_after_put(v.hits, job.peer, 1u32, p);
        lookup_after_put(v.hits, job.peer, 2u32, p);
        put_keeps_distinct(v.hits, job.peer, 1u32);
        put_keeps_distinct(v.hits, job.peer, 2u32);
        position_is_first(v.hits, p, 0);
        position_is_first(node.peers, p, 0);
    }
}

proof fn jobs_reaped(v: PeerView, node: NodeView, ids: Seq<u16>, p: Endpoint, now: u128)
    requires
        keyed(v, node),
        silences(v, p) < 3,
        forall|i: int, j: int| 0 <= i < j < ids.len() ==> ids[i] != ids[j],
    ensures
        ({
            let (w, n, _) = v.all_reaped(node, ids, now);
            &&& keyed(w, n)
            &&& forall|other: u16|
                !ids.contains(other) ==> #[trigger] lookup(w.active, other) == lookup(
                    v.active,
                    other,
                ) && lookup(n.registry.receivers, other) == lookup(node.registry.receivers, other)
            &&& silences(w, p) < 3
            &&& silent_row(v, node, ids, p) < 3 ==> silences(w, p) == silent_row(v, node, ids, p)
            &&& has_key(n.peers, p) == (has_key(node.peers, p) && silent_row(v, node, ids, p) < 3)
        }),
    decreases ids.len(),
{
    if ids.len() > 0 {
        let front = ids.drop_last();
        let id = ids.last();
        assert forall|i: int, j: int| 0 <= i < j < front.len() implies front[i] != front[j] by {
            assert(front[i] == ids[i] && front[j] == ids[j]);
        }
        jobs_reaped(v, node, front, p, now);
        let (w, n, _) = v.all_reaped(node, front, now);
        let (x, m, _) = v.all_reaped(node, ids, now);
        assert(!front.contains(id)) by {
            if front.contains(id) {
                let i = choose|i: int| 0 <= i < front.len() && front[i] == id;
                assert(ids[i] == ids[ids.len() - 1]);
            }
        }
        assert(lookup(w.active, id) == lookup(v.active, id));
        one_reaped(w, n, id, p, id, now);
        assert forall|other: u16| !ids.contains(other) implies #[trigger] lookup(x.active, other)
            == lookup(v.active, other) && lookup(m.registry.receivers, other) == lookup(
            node.registry.receivers,
            other,
        ) by {
            assert(ids[ids.len() - 1] == id);
            assert(!front.contains(other)) by {
                if front.contains(other) {
                    let i = choose|i: int| 0 <= i < front.len() && front[i] == other;
                    assert(ids[i] == other);
                }
            }
            assert(lookup(w.active, other) == lookup(v.active, other));
            one_reaped(w, n, id, p, other, now);
        }
    }
}

proof fn filling_keeps_peers(v: PeerView, node: NodeView, seed: u16, now: u128)
    ensures
        v.filled(node, seed, now).1.peers == node.peers,
        v.filled(node, seed, now).0.hits == v.hits,
    decreases v.queue.len(),
{
    if v.active.len() < MAX_PARALLEL_DOWNLOADS && v.queue.len() > 0 {
        let file = v.queue[0];
        let (w, choice) = v.picking(node, file, now);
        if let Some(p) = choice {
            if node.registry.active() < MAX_CONCURRENT_TRANSFERS {
                let id = node.registry.fresh(seed);
                let x = (PeerView { queue: v.queue, ..w }).pulling(id, file, p);
                filling_keeps_peers(x, node.pulling(id, p, file, now), seed, now);
            }
        }
    }
}

proof fn ids_differ(v: PeerView)
    requires
        distinct(v.active),
    ensures
        forall|i: int, j: int| 0 <= i < j < job_ids(v).len() ==> job_ids(v)[i] != job_ids(v)[j],
{
    assert forall|i: int, j: int| 0 <= i < j < job_ids(v).len() implies job_ids(v)[i]
        != job_ids(v)[j] by {
        assert(v.active[i].0 != v.active[j].0);
    }
}

/// At the start no silence is counted.
pub proof fn start_counts_no_silence(
    local: Endpoint,
    bootstrap: Endpoint,
    rng: u64,
    now: u128,
    p: Endpoint,
)
    ensures
        distinct(PeerView::started(local, bootstrap, rng, now).hits),
        silences(PeerView::started(local, bootstrap, rng, now), p) == 0,
{
}

/// A call of the scheduler evicts exactly the peers whose silences reach three
/// in a row, and counts the others on: a peer is known after the call if and
/// only if it was known before and its row stays below three.
pub proof fn evicted_after_three_in_a_row(
    v: PeerView,
    node: NodeView,
    p: Endpoint,
    seed: u16,
    now: u128,
)
    requires
        node.wf(),
        within_limits(v),
        distinct(v.hits),
        silences(v, p) < 3,
    ensures
        ({
            let (w, n, _) = v.scheduled(node, seed, now);
            let row = silent_row(v, node, job_ids(v), p);
            &&& has_key(n.peers, p) == (has_key(node.peers, p) && row < 3)
            &&& row < 3 ==> silences(w, p) == row
            &&& silences(w, p) < 3
        }),
{
    let ids = job_ids(v);
    ids_differ(v);
    jobs_reaped(v, node, ids, p, now);
    let (w, n, _) = v.all_reaped(node, ids, now);
    filling_keeps_peers(w, n, seed, now);
}

proof fn row_is_bounded(v: PeerView, node: NodeView, ids: Seq<u16>, p: Endpoint)
    ensures
        silent_row(v, node, ids, p) <= silences(v, p) + silent_count(v, node, ids, p),
        silent_count(v, node, ids, p) == 0 && some_answered(v, node, ids, p) && silences(v, p) < 3
            ==> silent_row(v, node, ids, p) == 0,
    decreases ids.len(),
{
    if ids.len() > 0 {
        let front = ids.drop_last();
        row_is_bounded(v, node, front, p);
        if some_answered(v, node, ids, p) && !is_answered(v, node, ids.last(), p) {
            let i = choose|i: int|
                0 <= i < ids.len() && is_answered(v, node, #[trigger] ids[i], p);
            assert(front[i] == ids[i]);
        }
    }
}

/// A known peer stays known over a call of the scheduler as long as its
/// silences, those counted before and those that end now, are fewer than
/// three.
pub proof fn few_silences_keep_peer(
    v: PeerView,
    node: NodeView,
    p: Endpoint,
    seed: u16,
    now: u128,
)
    requires
        node.wf(),
        within_limits(v),
        distinct(v.hits),
        has_key(node.peers, p),
        silences(v, p) + silent_count(v, node, job_ids(v), p) < 3,
    ensures
        has_key(v.scheduled(node, seed, now).1.peers, p),
{
    row_is_bounded(v, node, job_ids(v), p);
    evicted_after_three_in_a_row(v, node, p, seed, now);
}

/// An answer that is collected in a call of the scheduler, whatever it says,
/// ends the row of silences, where no silence of the peer is collected with it.
pub proof fn answer_ends_silences(
    v: PeerView,
    node: NodeView,
    p: Endpoint,
    seed: u16,
    now: u128,
)
    requires
        node.wf(),
        within_limits(v),
        distinct(v.hits),
        silences(v, p) < 3,
        silent_count(v, node, job_ids(v), p) == 0,
        some_answered(v, node, job_ids(v), p),
    ensures
        silences(v.scheduled(node, seed, now).0, p) == 0,
{
    row_is_bounded(v, node, job_ids(v), p);
    evicted_after_three_in_a_row(v, node, p, seed, now);
}

/// A peer that has answered is not evicted by the next two silences, however
/// many there were before the answer.
pub proof fn answered_peer_stays(
    v: PeerView,
    node: NodeView,
    later: NodeView,
    p: Endpoint,
    seed: u16,
    next_seed: u16,
    now: u128,
    then: u128,
)
    requires
        node.wf(),
        later.wf(),
        within_limits(v),
        distinct(v.hits),
        silences(v, p) < 3,
        silent_count(v, node, job_ids(v), p) == 0,
        some_answered(v, node, job_ids(v), p),
        has_key(later.peers, p),
        ({
            let w = v.scheduled(node, seed, now).0;
            silent_count(w, later, job_ids(w), p) <= 2
        }),
    ensures
        has_key(v.scheduled(node, seed, now).0.scheduled(later, next_seed, then).1.peers, p),
{
    let w = v.scheduled(node, seed, now).0;
    answer_ends_silences(v, node, p, seed, now);
    schedule_keeps_limits(v, node, seed, now);
    silences_stay_distinct(v, node, seed, now);
    few_silences_keep_peer(w, later, p, next_seed, then);
}

/// Every file that waits in the queue or is being downloaded is there once, and
/// is marked as asked for.
pub open spec fn asked_once(v: PeerView) -> bool {
    &&& v.queue.no_duplicates()
    &&& forall|i: int, j: int|
        0 <= i < j < v.active.len() ==> (#[trigger] v.active[i]).1.filename != (
        #[trigger] v.active[j]).1.filename
    &&& forall|i: int|
        0 <= i < v.active.len() ==> !v.queue.contains((#[trigger] v.active[i]).1.filename)
            && v.queued.contains(v.active[i].1.filename)
    &&& forall|k: int| 0 <= k < v.queue.len() ==> v.queued.contains(#[trigger] v.queue[k])
}

/// At the start nothing is asked for.
pub proof fn start_asks_nothing(local: Endpoint, bootstrap: Endpoint, rng: u64, now: u128)
    ensures
        asked_once(PeerView::started(local, bootstrap, rng, now)),
{
}

/// Taking in a playlist queues no file that waits or is being downloaded.
pub proof fn syncing_asks_once(
    v: PeerView,
    names: Seq<Seq<char>>,
    present: Seq<Seq<char>>,
    now: u128,
)
    requires
        asked_once(v),
    ensures
        asked_once(v.synced(names, present, now)),
    decreases names.len(),
{
    if names.len() > 0 {
        syncing_asks_once(v, names.drop_last(), present, now);
        let w = v.synced(names.drop_last(), present, now);
        let x = v.synced(names, present, now);
        let f = names.last();
        if x.queue != w.queue {
            marking_more(w.queued, f);
            queueing_first(PeerView { queued: x.queued, ..w }, f);
        }
    }
}

proof fn marking_more(queued: Seq<Seq<char>>, f: Seq<char>)
    ensures
        including(queued, f).contains(f),
        forall|g: Seq<char>| queued.contains(g) ==> #[trigger] including(queued, f).contains(g),
{
    let more = including(queued, f);
    if !queued.contains(f) {
        assert(more[queued.len() as int] == f);
    }
    assert forall|g: Seq<char>| queued.contains(g) implies #[trigger] more.contains(g) by {
        let i = choose|i: int| 0 <= i < queued.len() && queued[i] == g;
        assert(more[i] == g);
    }
}

proof fn queueing_first(v: PeerView, f: Seq<char>)
    requires
        asked_once(v),
        v.queued.contains(f),
        !v.queue.contains(f),
        forall|i: int| 0 <= i < v.active.len() ==> (#[trigger] v.active[i]).1.filename != f,
    ensures
        asked_once(PeerView { queue: seq![f] + v.queue, ..v }),
{
    let queue = seq![f] + v.queue;
    assert forall|k: int| 0 <= k < queue.len() implies #[trigger] queue[k] == f || (k > 0
        && queue[k] == v.queue[k - 1]) by {}
    assert forall|g: Seq<char>| queue.contains(g) implies g == f || #[trigger] v.queue.contains(
        g,
    ) by {}
}

proof fn queueing_last(v: PeerView, f: Seq<char>)
    requires
        asked_once(v),
        v.queued.contains(f),
        !v.queue.contains(f),
        forall|i: int| 0 <= i < v.active.len() ==> (#[trigger] v.active[i]).1.filename != f,
    ensures
        asked_once(PeerView { queue: v.queue.push(f), ..v }),
{
    let queue = v.queue.push(f);
    assert forall|g: Seq<char>| queue.contains(g) implies g == f || #[trigger] v.queue.contains(
        g,
    ) by {
        let k = choose|k: int| 0 <= k < queue.len() && queue[k] == g;
        if k < v.queue.len() {
            assert(v.queue[k] == g);
        }
    }
}

proof fn ending_frees(v: PeerView, id: u16)
    requires
        asked_once(v),
        has_key(v.active, id),
    ensures
        ({
            let w = PeerView { active: removed(v.active, id), ..v };
            let f = lookup(v.active, id)->0.filename;
            &&& asked_once(w)
            &&& v.queued.contains(f)
            &&& !v.queue.contains(f)
            &&& forall|i: int| 0 <= i < w.active.len() ==> (#[trigger] w.active[i]).1.filename != f
        }),
{
    position_is_first(v.active, id, 0);
    let at = position(v.active, id)->0;
    let rest = removed(v.active, id);
    assert(v.active[at].1 == lookup(v.active, id)->0);
    assert forall|i: int| 0 <= i < rest.len() implies #[trigger] rest[i] == v.active[if i < at {
        i
    } else {
        i + 1
    }] by {}
}

proof fn unmarking(v: PeerView, f: Seq<char>)
    requires
        asked_once(v),
        !v.queue.contains(f),
        forall|i: int| 0 <= i < v.active.len() ==> (#[trigger] v.active[i]).1.filename != f,
    ensures
        asked_once(PeerView { queued: excluding(v.queued, f), ..v }),
{
    let fewer = excluding(v.queued, f);
    assert forall|i: int| 0 <= i < v.active.len() implies fewer.contains(
        (#[trigger] v.active[i]).1.filename,
    ) by {
        excluding_excludes(v.queued, f, v.active[i].1.filename);
    }
    assert forall|k: int| 0 <= k < v.queue.len() implies fewer.contains(#[trigger] v.queue[k]) by {
        excluding_excludes(v.queued, f, v.queue[k]);
    }
}

proof fn reaping_asks_once(v: PeerView, node: NodeView, ids: Seq<u16>, now: u128)
    requires
        asked_once(v),
    ensures
        asked_once(v.all_reaped(node, ids, now).0),
    decreases ids.len(),
{
    if ids.len() > 0 {
        reaping_asks_once(v, node, ids.drop_last(), now);
        let (w, n, _) = v.all_reaped(node, ids.drop_last(), now);
        let id = ids.last();
        let x = w.reaped(n, id, now).0;
        if has_key(w.active, id) {
            let f = lookup(w.active, id)->0.filename;
            let rest = PeerView { active: removed(w.active, id), ..w };
            ending_frees(w, id);
            unmarking(rest, f);
            queueing_first(rest, f);
            queueing_last(rest, f);
        }
    }
}

proof fn filling_asks_once(v: PeerView, node: NodeView, seed: u16, now: u128)
    requires
        asked_once(v),
    ensures
        asked_once(v.filled(node, seed, now).0),
    decreases v.queue.len(),
{
    if v.active.len() < MAX_PARALLEL_DOWNLOADS && v.queue.len() > 0 {
        let file = v.queue[0];
        let (w, choice) = v.picking(node, file, now);
        if let Some(p) = choice {
            if node.registry.active() < MAX_CONCURRENT_TRANSFERS {
                let id = node.registry.fresh(seed);
                let x = (PeerView { queue: v.queue, ..w }).pulling(id, file, p);
                position_is_first(v.active, id, 0);
                assert(v.queue.contains(file));
                assert forall|k: int| 0 <= k < x.queue.len() implies #[trigger] x.queue[k]
                    == v.queue[k + 1] by {}
                assert forall|g: Seq<char>| x.queue.contains(g) implies g != file
                    && #[trigger] v.queue.contains(g) by {
                    let k = choose|k: int| 0 <= k < x.queue.len() && x.queue[k] == g;
                    assert(v.queue[k + 1] == g);
                }
                assert(asked_once(x));
                filling_asks_once(x, node.pulling(id, p, file, now), seed, now);
            }
        }
    }
}

/// Collecting finished downloads and starting others keeps every file from
/// standing twice among what waits and what is being downloaded.
pub proof fn scheduling_asks_once(v: PeerView, node: NodeView, seed: u16, now: u128)
    requires
        asked_once(v),
    ensures
        asked_once(v.scheduled(node, seed, now).0),
{
    let ids = job_ids(v);
    reaping_asks_once(v, node, ids, now);
    let (w, n, _) = v.all_reaped(node, ids, now);
    filling_asks_once(w, n, seed, now);
}

/// Every download under way is from a source that is noted as asked for its
/// file.
pub open spec fn sources_noted(v: PeerView) -> bool {
    &&& distinct(v.active)
    &&& distinct(v.tried)
    &&& forall|i: int|
        0 <= i < v.active.len() ==> (lookup(v.tried, (#[trigger] v.active[i]).1.filename) matches
            Some(list) && list.contains(v.active[i].1.peer))
}

/// At the start nothing is under way.
pub proof fn start_notes_sources(local: Endpoint, bootstrap: Endpoint, rng: u64, now: u128)
    ensures
        sources_noted(PeerView::started(local, bootstrap, rng, now)),
{
}

/// Taking in a playlist forgets no source that was asked.
pub proof fn syncing_notes_sources(
    v: PeerView,
    names: Seq<Seq<char>>,
    present: Seq<Seq<char>>,
    now: u128,
)
    requires
        sources_noted(v),
    ensures
        sources_noted(v.synced(names, present, now)),
        v.synced(names, present, now).tried == v.tried,
        v.synced(names, present, now).active == v.active,
    decreases names.len(),
{
    if names.len() > 0 {
        syncing_notes_sources(v, names.drop_last(), present, now);
    }
}

/// What one download leaves behind when it is collected: it is no longer under
/// way; others are untouched. A file that was saved is done with: nothing of it
/// is kept. One that the source put off goes to the end of the queue, and the
/// source may be asked again after five seconds. One that failed otherwise goes
/// to the front of the queue, with the source noted as asked, as long as a known
/// peer was not asked yet; else it is given up for the moment, and the time is
/// noted.
pub proof fn collected_download(v: PeerView, node: NodeView, id: u16, now: u128)
    requires
        asked_once(v),
        sources_noted(v),
        now <= u128::MAX - 5_000_000_000,
        lookup(v.active, id) is Some,
        lookup(node.registry.receivers, id) is Some,
        lookup(node.registry.receivers, id)->0.outcome is Some,
    ensures
        ({
            let job = lookup(v.active, id)->0;
            let r = lookup(node.registry.receivers, id)->0;
            let f = job.filename;
            let p = job.peer;
            let (w, n, file) = v.reaped(node, id, now);
            &&& !has_key(w.active, id)
            &&& forall|other: u16| other != id ==> #[trigger] lookup(w.active, other) == lookup(
                v.active,
                other,
            )
            &&& if r.outcome->0 is Ok {
                &&& file == Some(f)
                &&& !w.queued.contains(f)
                &&& w.queue == v.queue
                &&& lookup(w.tried, f) is None
                &&& distinct(v.parent_wait) ==> lookup(w.parent_wait, f) is None
                &&& forall|q: Endpoint| #[trigger] lookup(w.retry_after, (f, q)) is None
                &&& n.registry == node.registry
            } else {
                &&& file is None
                &&& n.registry.receivers == removed(node.registry.receivers, id)
                &&& if !r.unresponsive && r.not_found && r.retryable {
                    &&& w.queue == v.queue.push(f)
                    &&& w.queued == v.queued
                    &&& lookup(w.retry_after, (f, p)) == Some((now + 5_000_000_000) as u128)
                    &&& !(lookup(w.tried, f) matches Some(list) && list.contains(p))
                } else if exists|q: Endpoint| #[trigger]
                    has_key(n.peers, q) && q != v.local_addr && !(lookup(
                        v.tried,
                        f,
                    ) matches Some(list) && list.contains(q)) {
                    &&& w.queue == seq![f] + v.queue
                    &&& w.queued == v.queued
                    &&& w.tried == v.tried
                    &&& lookup(w.tried, f) matches Some(list) && list.contains(p)
                } else {
                    &&& w.queue == v.queue
                    &&& !w.queued.contains(f)
                    &&& lookup(w.tried, f) is None
                    &&& lookup(w.failed_at, f) == Some(now)
                }
            }
        }),
{
    let job = lookup(v.active, id)->0;
    let r = lookup(node.registry.receivers, id)->0;
    let f = job.filename;
    let p = job.peer;
    let (w, n, file) = v.reaped(node, id, now);
    position_is_first(v.active, id, 0);
    assert(v.active[position(v.active, id)->0].1 == job);
    assert forall|other: u16| other != id implies #[trigger] lookup(w.active, other) == lookup(
        v.active,
        other,
    ) by {
        lookup_after_removed(v.active, id, other);
    }
    lookup_after_removed(v.active, id, id);
    lookup_after_removed(v.tried, f, f);
    if distinct(v.parent_wait) {
        lookup_after_removed(v.parent_wait, f, f);
    }
    assert forall|q: Endpoint| #[trigger] lookup(without_file(v.retry_after, f), (f, q)) is None by {
        file_gone(v.retry_after, f, q);
    }
    excluding_excludes(v.queued, f, f);
    lookup_after_put(v.retry_after, (f, p), (now + 5_000_000_000) as u128, (f, p));
    lookup_after_put(v.failed_at, f, now, f);
    if let Some(list) = lookup(v.tried, f) {
        lookup_after_put(v.tried, f, excluding(list, p), f);
        excluding_excludes(list, p, p);
    }
    let some = exists|q: Endpoint| #[trigger]
        has_key(n.peers, q) && q != v.local_addr && !(lookup(v.tried, f) matches Some(list)
            && list.contains(q));
    assert(v.has_untried(n, f) == some) by {
        if some {
            let q = choose|q: Endpoint| #[trigger]
                has_key(n.peers, q) && q != v.local_addr && !(lookup(v.tried, f) matches Some(
                    list,
                ) && list.contains(q));
            position_is_first(n.peers, q, 0);
            let i = position(n.peers, q)->0;
            assert(n.peers[i].0 == q);
            assert(!v.was_tried(f, n.peers[i].0));
        }
        if v.has_untried(n, f) {
            let i = choose|i: int|
                0 <= i < n.peers.len() && (#[trigger] n.peers[i]).0 != v.local_addr
                    && !v.was_tried(f, n.peers[i].0);
            position_is_first(n.peers, n.peers[i].0, 0);
            assert(has_key(n.peers, n.peers[i].0));
        }
    }
}

/// Whether a source is kept from being asked for a file: by being noted as
/// asked, by having put it off, or because the file is not wanted.
spec fn kept_from(v: PeerView, f: Seq<char>, p: Endpoint, now: u128) -> bool {
    ||| lookup(v.tried, f) matches Some(list) && list.contains(p)
    ||| lookup(v.retry_after, (f, p)) matches Some(until) && now < until
    ||| !v.queue.contains(f)
}

proof fn reaping_notes_sources(v: PeerView, node: NodeView, id: u16, now: u128)
    requires
        asked_once(v),
        sources_noted(v),
    ensures
        sources_noted(v.reaped(node, id, now).0),
        asked_once(v.reaped(node, id, now).0),
{
    reaping_asks_once(v, node, seq![id], now);
    assert(seq![id].drop_last() =~= Seq::<u16>::empty());
    assert(v.all_reaped(node, seq![id].drop_last(), now).0 == v);
    assert(v.all_reaped(node, seq![id].drop_last(), now).1 == node);
    let w = v.reaped(node, id, now).0;
    assert(v.all_reaped(node, seq![id], now).0 == w);
    if has_key(v.active, id) {
        let job = lookup(v.active, id)->0;
        let f = job.filename;
        position_is_first(v.active, id, 0);
        let at = position(v.active, id)->0;
        lookup_after_removed(v.active, id, id);
        ending_frees(v, id);
        lookup_after_removed(v.tried, f, f);
        if let Some(list) = lookup(v.tried, f) {
            put_keeps_distinct(v.tried, f, excluding(list, job.peer));
        }
        assert forall|i: int| 0 <= i < w.active.len() implies (lookup(
            w.tried,
            (#[trigger] w.active[i]).1.filename,
        ) matches Some(list) && list.contains(w.active[i].1.peer)) by {
            if w.active == removed(v.active, id) {
                let j = if i < at {
                    i
                } else {
                    i + 1
                };
                assert(w.active[i] == v.active[j]);
                let g = w.active[i].1.filename;
                assert(g != f);
                lookup_after_removed(v.tried, f, g);
                if let Some(list) = lookup(v.tried, f) {
                    lookup_after_put(v.tried, f, excluding(list, job.peer), g);
                }
            } else {
                assert(w.active == v.active);
                assert(w.tried == v.tried);
                assert(w.active[i] == v.active[i]);
            }
        }
    }
}

/// Whether a file is being downloaded from a source.
pub open spec fn comes_from(v: PeerView, f: Seq<char>, p: Endpoint) -> bool {
    exists|i: int|
        0 <= i < v.active.len() && (#[trigger] v.active[i]).1.filename == f && v.active[i].1.peer
            == p
}

spec fn barred(v: PeerView, f: Seq<char>, p: Endpoint, now: u128) -> bool {
    !comes_from(v, f, p) && kept_from(v, f, p, now)
}

proof fn file_gone(s: Seq<((Seq<char>, Endpoint), u128)>, f: Seq<char>, p: Endpoint)
    ensures
        lookup(without_file(s, f), (f, p)) is None,
    decreases s.len(),
{
    if s.len() > 0 {
        file_gone(s.drop_last(), f, p);
        crate::laws::lookup_of_longer(without_file(s.drop_last(), f), s.last(), (f, p));
    }
}

proof fn file_kept(s: Seq<((Seq<char>, Endpoint), u128)>, g: Seq<char>, f: Seq<char>, p: Endpoint)
    requires
        f != g,
    ensures
        lookup(without_file(s, g), (f, p)) == lookup(s, (f, p)),
    decreases s.len(),
{
    if s.len() > 0 {
        file_kept(s.drop_last(), g, f, p);
        crate::laws::lookup_of_longer(s.drop_last(), s.last(), (f, p));
        crate::laws::lookup_of_longer(without_file(s.drop_last(), g), s.last(), (f, p));
        assert(s.drop_last().push(s.last()) =~= s);
    }
}

proof fn other_reaped_bars(
    v: PeerView,
    node: NodeView,
    id: u16,
    f: Seq<char>,
    p: Endpoint,
    now: u128,
)
    requires
        asked_once(v),
        sources_noted(v),
        barred(v, f, p, now),
        lookup(v.active, id) matches Some(job) ==> job.filename != f,
    ensures
        barred(v.reaped(node, id, now).0, f, p, now),
{
    let w = v.reaped(node, id, now).0;
    if let Some(job) = lookup(v.active, id) {
        let g = job.filename;
        position_is_first(v.active, id, 0);
        let at = position(v.active, id)->0;
        lookup_after_removed(v.tried, g, f);
        if let Some(list) = lookup(v.tried, g) {
            lookup_after_put(v.tried, g, excluding(list, job.peer), f);
        }
        file_kept(v.retry_after, g, f, p);
        lookup_after_put(
            v.retry_after,
            (g, job.peer),
            after(now, 5_000_000_000),
            (f, p),
        );
        if comes_from(w, f, p) {
            let i = choose|i: int|
                0 <= i < w.active.len() && (#[trigger] w.active[i]).1.filename == f
                    && w.active[i].1.peer == p;
            if w.active == removed(v.active, id) {
                let j = if i < at {
                    i
                } else {
                    i + 1
                };
                assert(w.active[i] == v.active[j]);
            }
        }
        if w.queue.contains(f) && !v.queue.contains(f) {
            let k = choose|k: int| 0 <= k < w.queue.len() && w.queue[k] == f;
            if w.queue == v.queue.push(g) {
                if k < v.queue.len() {
                    assert(v.queue[k] == f);
                }
            } else if w.queue == seq![g] + v.queue {
                if k > 0 {
                    assert(v.queue[k - 1] == f);
                }
            }
        }
    }
}

proof fn own_reaped_bars(v: PeerView, node: NodeView, id: u16, now: u128)
    requires
        asked_once(v),
        sources_noted(v),
        now <= u128::MAX - 5_000_000_000,
        lookup(v.active, id) is Some,
        lookup(node.registry.receivers, id) matches Some(r) && r.outcome is Some,
    ensures
        ({
            let job = lookup(v.active, id)->0;
            barred(v.reaped(node, id, now).0, job.filename, job.peer, now)
        }),
{
    let job = lookup(v.active, id)->0;
    collected_download(v, node, id, now);
    ending_frees(v, id);
    let w = v.reaped(node, id, now).0;
    assert(w.active == removed(v.active, id));
}

proof fn reaped_are_barred(
    v: PeerView,
    node: NodeView,
    ids: Seq<u16>,
    k: int,
    now: u128,
)
    requires
        asked_once(v),
        sources_noted(v),
        keyed(v, node),
        now <= u128::MAX - 5_000_000_000,
        forall|i: int, j: int| 0 <= i < j < ids.len() ==> ids[i] != ids[j],
        0 <= k < ids.len(),
        lookup(v.active, ids[k]) is Some,
        lookup(node.registry.receivers, ids[k]) matches Some(r) && r.outcome is Some,
    ensures
        ({
            let job = lookup(v.active, ids[k])->0;
            let w = v.all_reaped(node, ids, now).0;
            &&& barred(w, job.filename, job.peer, now)
            &&& asked_once(w)
            &&& sources_noted(w)
        }),
    decreases ids.len(),
{
    let job = lookup(v.active, ids[k])->0;
    let front = ids.drop_last();
    let id = ids.last();
    let (w, n, _) = v.all_reaped(node, front, now);
    assert forall|i: int, j: int| 0 <= i < j < front.len() implies front[i] != front[j] by {
        assert(front[i] == ids[i] && front[j] == ids[j]);
    }
    jobs_noted(v, node, front, now);
    jobs_reaped_keep(v, node, front, now);
    if k < front.len() {
        assert(front[k] == ids[k]);
        reaped_are_barred(v, node, front, k, now);
        assert(!front.contains(id)) by {
            if front.contains(id) {
                let i = choose|i: int| 0 <= i < front.len() && front[i] == id;
                assert(ids[i] == ids[ids.len() - 1]);
            }
        }
        assert(lookup(w.active, id) == lookup(v.active, id));
        if lookup(v.active, id) is Some {
            position_is_first(v.active, id, 0);
            position_is_first(v.active, ids[k], 0);
            let a = position(v.active, id)->0;
            let b = position(v.active, ids[k])->0;
            assert(v.active[a].0 != v.active[b].0);
            assert(v.active[a].1.filename != v.active[b].1.filename);
        }
        other_reaped_bars(w, n, id, job.filename, job.peer, now);
    } else {
        assert(!front.contains(id)) by {
            if front.contains(id) {
                let i = choose|i: int| 0 <= i < front.len() && front[i] == id;
                assert(ids[i] == ids[ids.len() - 1]);
            }
        }
        assert(lookup(w.active, id) == lookup(v.active, id));
        own_reaped_bars(w, n, id, now);
    }
    reaping_notes_sources(w, n, id, now);
}

proof fn jobs_noted(v: PeerView, node: NodeView, ids: Seq<u16>, now: u128)
    requires
        asked_once(v),
        sources_noted(v),
    ensures
        asked_once(v.all_reaped(node, ids, now).0),
        sources_noted(v.all_reaped(node, ids, now).0),
    decreases ids.len(),
{
    if ids.len() > 0 {
        jobs_noted(v, node, ids.drop_last(), now);
        let (w, n, _) = v.all_reaped(node, ids.drop_last(), now);
        reaping_notes_sources(w, n, ids.last(), now);
    }
}

proof fn jobs_reaped_keep(v: PeerView, node: NodeView, ids: Seq<u16>, now: u128)
    requires
        keyed(v, node),
    ensures
        ({
            let (w, n, _) = v.all_reaped(node, ids, now);
            &&& keyed(w, n)
            &&& forall|other: u16|
                !ids.contains(other) ==> #[trigger] lookup(w.active, other) == lookup(
                    v.active,
                    other,
                ) && lookup(n.registry.receivers, other) == lookup(node.registry.receivers, other)
        }),
    decreases ids.len(),
{
    if ids.len() > 0 {
        let front = ids.drop_last();
        jobs_reaped_keep(v, node, front, now);
        let (w, n, _) = v.all_reaped(node, front, now);
        let (x, m, _) = v.all_reaped(node, ids, now);
        let id = ids.last();
        one_reaped(w, n, id, v.bootstrap, id, now);
        assert forall|other: u16| !ids.contains(other) implies #[trigger] lookup(x.active, other)
            == lookup(v.active, other) && lookup(m.registry.receivers, other) == lookup(
            node.registry.receivers,
            other,
        ) by {
            assert(ids[ids.len() - 1] == id);
            assert(!front.contains(other)) by {
                if front.contains(other) {
                    let i = choose|i: int| 0 <= i < front.len() && front[i] == other;
                    assert(ids[i] == other);
                }
            }
            assert(lookup(w.active, other) == lookup(v.active, other));
            one_reaped(w, n, id, v.bootstrap, other, now);
        }
    }
}

proof fn filling_respects_bars(
    v: PeerView,
    node: NodeView,
    seed: u16,
    f: Seq<char>,
    p: Endpoint,
    now: u128,
)
    requires
        asked_once(v),
        barred(v, f, p, now),
    ensures
        barred(v.filled(node, seed, now).0, f, p, now),
    decreases v.queue.len(),
{
    if v.active.len() < MAX_PARALLEL_DOWNLOADS && v.queue.len() > 0 {
        let file = v.queue[0];
        let (w, choice) = v.picking(node, file, now);
        if let Some(q) = choice {
            if node.registry.active() < MAX_CONCURRENT_TRANSFERS {
                let id = node.registry.fresh(seed);
                let y = PeerView { queue: v.queue, ..w };
                let x = y.pulling(id, file, q);
                picked_source_may_be_asked(v, node, file, now);
                pulling_asks_once(v, node, seed, now);
                assert(v.queue.contains(file));
                if file == f {
                    assert(q != p);
                }
                position_is_first(v.active, id, 0);
                if comes_from(x, f, p) {
                    let i = choose|i: int|
                        0 <= i < x.active.len() && (#[trigger] x.active[i]).1.filename == f
                            && x.active[i].1.peer == p;
                    if x.active[i] != (id, JobView { filename: file, peer: q }) {
                        assert(v.active[i] == x.active[i]);
                    }
                }
                let list = match lookup(v.tried, file) {
                    Some(list) => list,
                    None => Seq::empty(),
                };
                lookup_after_put(v.tried, file, including(list, q), f);
                assert(kept_from(x, f, p, now)) by {
                    if x.queue.contains(f) {
                        let k = choose|k: int| 0 <= k < x.queue.len() && x.queue[k] == f;
                        assert(v.queue[k + 1] == f);
                        assert(f != file);
                    }
                }
                filling_respects_bars(x, node.pulling(id, q, file, now), seed, f, p, now);
            }
        }
    }
}

proof fn pulling_asks_once(v: PeerView, node: NodeView, seed: u16, now: u128)
    requires
        asked_once(v),
        v.queue.len() > 0,
    ensures
        ({
            let file = v.queue[0];
            let (w, choice) = v.picking(node, file, now);
            choice matches Some(q) ==> asked_once(
                (PeerView { queue: v.queue, ..w }).pulling(node.registry.fresh(seed), file, q),
            )
        }),
{
    let file = v.queue[0];
    let (w, choice) = v.picking(node, file, now);
    if let Some(q) = choice {
        let id = node.registry.fresh(seed);
        let x = (PeerView { queue: v.queue, ..w }).pulling(id, file, q);
        position_is_first(v.active, id, 0);
        assert(v.queue.contains(file));
        assert forall|k: int| 0 <= k < x.queue.len() implies #[trigger] x.queue[k] == v.queue[k
            + 1] by {}
        assert forall|g: Seq<char>| x.queue.contains(g) implies g != file
            && #[trigger] v.queue.contains(g) by {
            let k = choose|k: int| 0 <= k < x.queue.len() && x.queue[k] == g;
            assert(v.queue[k + 1] == g);
        }
    }
}

/// A call of the scheduler that collects a download, however it ended, does not
/// ask the same source for the same file again: a file that was saved is not
/// asked for at all, and one that failed is asked of another source or later.
pub proof fn failed_source_is_not_asked_at_once(
    v: PeerView,
    node: NodeView,
    k: int,
    seed: u16,
    now: u128,
)
    requires
        node.wf(),
        asked_once(v),
        sources_noted(v),
        distinct(v.hits),
        now <= u128::MAX - 5_000_000_000,
        0 <= k < v.active.len(),
        lookup(node.registry.receivers, v.active[k].0) matches Some(r) && r.outcome is Some,
    ensures
        !comes_from(
            v.scheduled(node, seed, now).0,
            v.active[k].1.filename,
            v.active[k].1.peer,
        ),
{
    let ids = job_ids(v);
    let job = v.active[k].1;
    ids_differ(v);
    position_is_first(v.active, v.active[k].0, 0);
    let at = position(v.active, v.active[k].0)->0;
    assert(at == k) by {
        if at < k {
            assert(v.active[at].0 != v.active[k].0);
        } else if k < at {
            assert(v.active[k].0 != v.active[at].0);
        }
    }
    assert(lookup(v.active, ids[k]) == Some(job));
    reaped_are_barred(v, node, ids, k, now);
    let (w, n, _) = v.all_reaped(node, ids, now);
    filling_respects_bars(w, n, seed, job.filename, job.peer, now);
}

proof fn filling_notes_sources(v: PeerView, node: NodeView, seed: u16, now: u128)
    requires
        sources_noted(v),
    ensures
        sources_noted(v.filled(node, seed, now).0),
    decreases v.queue.len(),
{
    if v.active.len() < MAX_PARALLEL_DOWNLOADS && v.queue.len() > 0 {
        let file = v.queue[0];
        let (w, choice) = v.picking(node, file, now);
        if let Some(q) = choice {
            if node.registry.active() < MAX_CONCURRENT_TRANSFERS {
                let id = node.registry.fresh(seed);
                let job = JobView { filename: file, peer: q };
                let x = (PeerView { queue: v.queue, ..w }).pulling(id, file, q);
                let list = match lookup(v.tried, file) {
                    Some(list) => list,
                    None => Seq::empty(),
                };
                position_is_first(v.active, id, 0);
                put_keeps_distinct(v.active, id, job);
                put_keeps_distinct(v.tried, file, including(list, q));
                crate::source_laws::grown(list, q, q);
                assert forall|i: int| 0 <= i < x.active.len() implies (lookup(
                    x.tried,
                    (#[trigger] x.active[i]).1.filename,
                ) matches Some(asked) && asked.contains(x.active[i].1.peer)) by {
                    let g = x.active[i].1.filename;
                    lookup_after_put(v.tried, file, including(list, q), g);
                    if x.active[i] != (id, job) {
                        assert(v.active[i] == x.active[i]);
                        crate::source_laws::grown(list, q, x.active[i].1.peer);
                    }
                }
                filling_notes_sources(x, node.pulling(id, q, file, now), seed, now);
            }
        }
    }
}

/// Whatever jobs end and begin, every download under way is from a source that
/// is noted as asked.
pub proof fn scheduling_notes_sources(v: PeerView, node: NodeView, seed: u16, now: u128)
    requires
        asked_once(v),
        sources_noted(v),
    ensures
        sources_noted(v.scheduled(node, seed, now).0),
{
    let ids = job_ids(v);
    jobs_noted(v, node, ids, now);
    let (w, n, _) = v.all_reaped(node, ids, now);
    filling_notes_sources(w, n, seed, now);
}

/// Where a slot is free, the registry has room, and a source can be picked for
/// the file in front of the queue, its download begins: the file leaves the
/// queue, comes from the picked source, which is noted as asked, and the source
/// is sent the request for it under a new number.
pub proof fn front_of_queue_is_pulled(
    v: PeerView,
    node: NodeView,
    p: Endpoint,
    seed: u16,
    now: u128,
)
    requires
        asked_once(v),
        v.active.len() < 4,
        v.queue.len() > 0,
        node.registry.active() < 32,
        v.picking(node, v.queue[0], now).1 == Some(p),
    ensures
        ({
            let f = v.queue[0];
            let id = node.registry.fresh(seed);
            let w = v.picking(node, f, now).0;
            let x = (PeerView { queue: v.queue, ..w }).pulling(id, f, p);
            let n = node.pulling(id, p, f, now);
            &&& v.filled(node, seed, now) == x.filled(n, seed, now)
            &&& x.queue == v.queue.skip(1)
            &&& !x.queue.contains(f)
            &&& lookup(x.active, id) == Some(JobView { filename: f, peer: p })
            &&& lookup(x.tried, f) matches Some(list) && list.contains(p)
            &&& lookup(n.registry.receivers, id) matches Some(r) && r.remote == p && r.filename == f
                && r.outcome is None && r.transfer_id == id
            &&& !node.fault.enabled() ==> n.outbox == node.outbox.push(
                DatagramView {
                    bytes: datagram_of(
                        MessageView::SegmentRequest { transfer_id: id, filename: f },
                    ),
                    to: p,
                },
            )
        }),
{
    let f = v.queue[0];
    let id = node.registry.fresh(seed);
    let w = v.picking(node, f, now).0;
    let x = (PeerView { queue: v.queue, ..w }).pulling(id, f, p);
    let list = match lookup(v.tried, f) {
        Some(list) => list,
        None => Seq::empty(),
    };
    lookup_after_put(v.tried, f, including(list, p), f);
    crate::source_laws::grown(list, p, p);
    lookup_after_put(v.active, id, JobView { filename: f, peer: p }, id);
    let r = crate::receiver::ReceiverView::started(id, p, f, node.registry.settings, now);
    lookup_after_put(node.registry.receivers, id, r, id);
    let d = DatagramView {
        bytes: datagram_of(MessageView::SegmentRequest { transfer_id: id, filename: f }),
        to: p,
    };
    if !node.fault.enabled() {
        no_fault_is_transparent(node.fault, d, now);
        assert(node.pulling(id, p, f, now).outbox =~= node.outbox.push(d));
    }
    if x.queue.contains(f) {
        let k = choose|k: int| 0 <= k < x.queue.len() && x.queue[k] == f;
        assert(v.queue[k + 1] == f);
    }
}

/// Where no slot is free, nothing waits, or no source can be picked for the
/// file in front, nothing begins.
pub proof fn nothing_begins_without_a_source(v: PeerView, node: NodeView, seed: u16, now: u128)
    requires
        v.active.len() >= 4 || v.queue.len() == 0 || node.registry.active() >= 32 || v.picking(
            node,
            v.queue[0],
            now,
        ).1 is None,
    ensures
        v.filled(node, seed, now).0.active == v.active,
        v.filled(node, seed, now).0.queue == v.queue,
        v.filled(node, seed, now).0.tried == v.tried,
        v.filled(node, seed, now).1 == node,
{
}

/// Whether a file of a playlist is to be queued: it has a plain name, is not
/// there, is not waited for already, and was not given up within the last five
/// seconds.
pub open spec fn is_missing(
    v: PeerView,
    f: Seq<char>,
    present: Seq<Seq<char>>,
    now: u128,
) -> bool {
    &&& is_valid_filename(f)
    &&& !present.contains(f)
    &&& !v.queued.contains(f)
    &&& !(lookup(v.failed_at, f) matches Some(t) && since(now, t) < 5_000_000_000)
}

/// After a playlist the queue begins with the files of it that are missing, each
/// once, the newest first, and goes on with what waited before; what is queued
/// is marked, and nothing else changes.
pub proof fn missing_files_are_queued_newest_first(
    v: PeerView,
    names: Seq<Seq<char>>,
    present: Seq<Seq<char>>,
    now: u128,
)
    requires
        names.no_duplicates(),
    ensures
        ({
            let w = v.synced(names, present, now);
            let missing = names.filter(|f: Seq<char>| is_missing(v, f, present, now));
            &&& w.queue == missing.reverse() + v.queue
            &&& w.queued == v.queued + missing
            &&& w == (PeerView { queue: w.queue, queued: w.queued, ..v })
        }),
    decreases names.len(),
{
    let pred = |f: Seq<char>| is_missing(v, f, present, now);
    reveal(Seq::filter);
    if names.len() > 0 {
        let front = names.drop_last();
        let f = names.last();
        assert(front.no_duplicates());
        missing_files_are_queued_newest_first(v, front, present, now);
        let some = front.filter(pred);
        let w = v.synced(front, present, now);
        assert(w.queued.contains(f) == v.queued.contains(f)) by {
            if some.contains(f) {
                front.lemma_filter_contains_rev(pred, f);
                let j = choose|j: int| 0 <= j < front.len() && front[j] == f;
                assert(names[j] == names[names.len() - 1]);
            }
            if w.queued.contains(f) {
                let i = choose|i: int| 0 <= i < w.queued.len() && w.queued[i] == f;
                if i < v.queued.len() {
                    assert(v.queued[i] == f);
                } else {
                    assert(some[i - v.queued.len()] == f);
                }
            }
            if v.queued.contains(f) {
                let i = choose|i: int| 0 <= i < v.queued.len() && v.queued[i] == f;
                assert(w.queued[i] == f);
            }
        }
        let all = names.filter(pred);
        if pred(f) {
            assert(all == some.push(f));
            assert(all.reverse() =~= seq![f] + some.reverse());
            assert(v.synced(names, present, now).queue =~= all.reverse() + v.queue);
            assert(v.synced(names, present, now).queued =~= v.queued + all);
        } else {
            assert(all == some);
        }
    } else {
        let missing = names.filter(pred);
        assert(missing.len() == 0);
        assert(missing.reverse() + v.queue =~= v.queue);
        assert(v.queued + missing =~= v.queued);
    }
}

/// An empty manifest, and one that is the same as before, queue nothing; any
/// other one is looked through for missing files. Each ends the wait for one.
pub proof fn only_a_new_manifest_counts(
    v: PeerView,
    data: Seq<u8>,
    changed: bool,
    present: Seq<Seq<char>>,
    now: u128,
)
    ensures
        ({
            let w = v.manifest_came(data, changed, present, now);
            &&& w.poll_timeout is None
            &&& data.len() == 0 || !changed ==> w.queue == v.queue && w.queued == v.queued
            &&& data.len() > 0 && changed && manifest_names(data).no_duplicates() ==> w.queue
                == manifest_names(data).filter(
                |f: Seq<char>| is_missing(v, f, present, now),
            ).reverse() + v.queue
        }),
{
    let u = PeerView { poll_timeout: None, ..v };
    if data.len() > 0 && changed {
        let names = manifest_names(data);
        let a = |f: Seq<char>| is_missing(v, f, present, now);
        let b = |f: Seq<char>| is_missing(u, f, present, now);
        assert(a =~= b);
        syncing_keeps_wait(u, names, present, now);
        if names.no_duplicates() {
            missing_files_are_queued_newest_first(u, names, present, now);
        }
    }
}

proof fn syncing_keeps_wait(
    v: PeerView,
    names: Seq<Seq<char>>,
    present: Seq<Seq<char>>,
    now: u128,
)
    ensures
        v.synced(names, present, now).poll_timeout == v.poll_timeout,
    decreases names.len(),
{
    if names.len() > 0 {
        syncing_keeps_wait(v, names.drop_last(), present, now);
    }
}

/// Whether a download under way has been saved.
pub open spec fn was_saved(v: PeerView, node: NodeView, id: u16) -> bool {
    lookup(v.active, id) is Some && (lookup(node.registry.receivers, id) matches Some(r)
        && r.outcome matches Some(Ok(_)))
}

/// The files that a call of the scheduler gives are those whose downloads have
/// been saved, in the order of the downloads. The counts of waiting and running
/// pulls that the node keeps are those of the queue and the downloads after the
/// call.
pub proof fn saved_files_are_given(v: PeerView, node: NodeView, seed: u16, now: u128)
    requires
        node.wf(),
        distinct(v.active),
        distinct(v.hits),
    ensures
        ({
            let (w, n, files) = v.scheduled(node, seed, now);
            &&& files == job_ids(v).filter(|id: u16| was_saved(v, node, id)).map_values(
                |id: u16| lookup(v.active, id)->0.filename,
            )
            &&& n.totals.queue_depth == w.queue.len() as u64
            &&& n.totals.inflight == w.active.len() as u64
        }),
{
    ids_differ(v);
    saved_are_given(v, node, job_ids(v), now);
}

proof fn saved_are_given(v: PeerView, node: NodeView, ids: Seq<u16>, now: u128)
    requires
        keyed(v, node),
        forall|i: int, j: int| 0 <= i < j < ids.len() ==> ids[i] != ids[j],
    ensures
        v.all_reaped(node, ids, now).2 == ids.filter(
            |id: u16| was_saved(v, node, id),
        ).map_values(|id: u16| lookup(v.active, id)->0.filename),
    decreases ids.len(),
{
    let f = |id: u16| was_saved(v, node, id);
    let g = |id: u16| lookup(v.active, id)->0.filename;
    reveal(Seq::filter);
    if ids.len() > 0 {
        let front = ids.drop_last();
        let id = ids.last();
        assert forall|i: int, j: int| 0 <= i < j < front.len() implies front[i] != front[j] by {
            assert(front[i] == ids[i] && front[j] == ids[j]);
        }
        saved_are_given(v, node, front, now);
        jobs_reaped_keep(v, node, front, now);
        let (w, n, files) = v.all_reaped(node, front, now);
        assert(!front.contains(id)) by {
            if front.contains(id) {
                let i = choose|i: int| 0 <= i < front.len() && front[i] == id;
                assert(ids[i] == ids[ids.len() - 1]);
            }
        }
        assert(lookup(w.active, id) == lookup(v.active, id));
        let some = front.filter(f);
        if f(id) {
            assert(some.push(id).map_values(g) =~= some.map_values(g).push(g(id)));
        }
    }
    assert(v.all_reaped(node, ids, now).2 =~= ids.filter(f).map_values(g));
}

} // verus!
