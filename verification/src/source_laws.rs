//! What holds of the source that is chosen for a file.
use vstd::prelude::*;
use crate::endpoint::Endpoint;
use crate::fault::{mixed, stepped};
use crate::node::{lan_twin, NodeView};
use crate::peer::{advertised, drawn, inflight, only, weight, weight_sum, JobView, PeerView};
use crate::table::{has_key, lookup, position_is_first};
use crate::text::{all_digits, between, decimal_value_grows, unsigned_digits};
use crate::transfer::{numbered, since};

verus! {

/// Whether a peer has said within the last fifteen seconds that it lacks a
/// file: by refusing this very file, or by an inventory that covers it with the
/// bit cleared.
pub open spec fn says_it_lacks(
    node: NodeView,
    p: Endpoint,
    file: Seq<char>,
    now: u128,
) -> bool {
    ||| lookup(node.refusals, (file, p)) matches Some(t) && since(now, t) <= 15_000_000_000
    ||| told(node, p, file, now, false)
}

/// Whether a peer has said within the last fifteen seconds that it has a file,
/// and has not refused it in that time.
pub open spec fn says_it_has(node: NodeView, p: Endpoint, file: Seq<char>, now: u128) -> bool {
    &&& !(lookup(node.refusals, (file, p)) matches Some(t) && since(now, t) <= 15_000_000_000)
    &&& told(node, p, file, now, true)
}

/// Whether an inventory of at most fifteen seconds covers a file, and its bit
/// for it is set, or cleared.
pub open spec fn told(
    node: NodeView,
    p: Endpoint,
    file: Seq<char>,
    now: u128,
    there: bool,
) -> bool {
    &&& lookup(node.inventories, p) matches Some(i)
    &&& numbered(file) matches Some(n)
    &&& since(now, i.observed_at) <= 15_000_000_000
    &&& n <= i.availability.newest < n + 16
    &&& (i.availability.mask & (1u16 << ((i.availability.newest - n) as u16)) != 0) == there
}

/// Whether two downloads from a peer are under way.
pub open spec fn is_busy(v: PeerView, p: Endpoint) -> bool {
    exists|i: int, j: int|
        0 <= i < j < v.active.len() && (#[trigger] v.active[i]).1.peer == p && (
        #[trigger] v.active[j]).1.peer == p
}

/// Whether a source was asked for a file and the file is still wanted.
pub open spec fn asked_before(v: PeerView, p: Endpoint, file: Seq<char>) -> bool {
    lookup(v.tried, file) matches Some(list) && list.contains(p)
}

/// Whether a source may be asked for a file: it is not this node, has not said
/// that it lacks the file, was not asked for it before, has not put it off to a
/// later time, and is not busy with two downloads.
pub open spec fn may_be_asked(
    v: PeerView,
    node: NodeView,
    p: Endpoint,
    file: Seq<char>,
    now: u128,
) -> bool {
    &&& p != v.local_addr
    &&& !says_it_lacks(node, p, file, now)
    &&& !asked_before(v, p, file)
    &&& !(lookup(v.retry_after, (file, p)) matches Some(until) && now < until)
    &&& !is_busy(v, p)
}

/// Whether a peer is known, and best reached under the address that it is
/// known by.
pub open spec fn known_as(node: NodeView, p: Endpoint) -> bool {
    has_key(node.peers, p) && node.effective_addr(p) == p
}

proof fn busy_counts(active: Seq<(u16, JobView)>, p: Endpoint)
    ensures
        inflight(active, p) >= 1 <==> exists|i: int|
            0 <= i < active.len() && (#[trigger] active[i]).1.peer == p,
        inflight(active, p) >= 2 <==> exists|i: int, j: int|
            0 <= i < j < active.len() && (#[trigger] active[i]).1.peer == p && (
            #[trigger] active[j]).1.peer == p,
    decreases active.len(),
{
    if active.len() > 0 {
        let front = active.drop_last();
        let last = active.len() - 1;
        busy_counts(front, p);
        if inflight(front, p) >= 1 {
            let i = choose|i: int| 0 <= i < front.len() && (#[trigger] front[i]).1.peer == p;
            assert(active[i].1.peer == p);
            if active[last].1.peer == p {
                assert(active[i].1.peer == p && active[last].1.peer == p);
            }
        }
        if inflight(front, p) >= 2 {
            let (i, j) = choose|i: int, j: int|
                0 <= i < j < front.len() && (#[trigger] front[i]).1.peer == p && (
                #[trigger] front[j]).1.peer == p;
            assert(active[i].1.peer == p && active[j].1.peer == p);
        }
        if active[last].1.peer == p {
            assert(active[last].1.peer == p);
        }
        if exists|i: int| 0 <= i < active.len() && (#[trigger] active[i]).1.peer == p {
            let i = choose|i: int| 0 <= i < active.len() && (#[trigger] active[i]).1.peer == p;
            if i < last {
                assert(front[i].1.peer == p);
            }
        }
        if exists|i: int, j: int|
            0 <= i < j < active.len() && (#[trigger] active[i]).1.peer == p && (
            #[trigger] active[j]).1.peer == p {
            let (i, j) = choose|i: int, j: int|
                0 <= i < j < active.len() && (#[trigger] active[i]).1.peer == p && (
                #[trigger] active[j]).1.peer == p;
            assert(front[i].1.peer == p);
            if j < last {
                assert(front[j].1.peer == p);
            }
        }
    }
}

pub(crate) proof fn numbers_fit(file: Seq<char>)
    ensures
        numbered(file) matches Some(n) ==> 0 <= n <= u64::MAX,
{
    if let Some(digits) = between(file, "seg_"@, ".ts"@) {
        let d = unsigned_digits(digits);
        if all_digits(d) {
            decimal_value_grows(d, d.len() as int);
            assert(d.take(d.len() as int) =~= d);
        }
    }
}

/// What a peer is known to have is what it told: it lacks a file or has it if
/// it said so within the last fifteen seconds, and otherwise nothing is known.
pub proof fn availability_is_what_was_told(
    node: NodeView,
    p: Endpoint,
    file: Seq<char>,
    now: u128,
)
    ensures
        node.peer_availability(p, file, now) == Some(false) <==> says_it_lacks(node, p, file, now),
        node.peer_availability(p, file, now) == Some(true) <==> says_it_has(node, p, file, now),
{
    numbers_fit(file);
}

proof fn usable_is_askable(v: PeerView, node: NodeView, file: Seq<char>, p: Endpoint, now: u128)
    ensures
        v.usable(node, file, p, now) == may_be_asked(v, node, p, file, now),
{
    availability_is_what_was_told(node, p, file, now);
    busy_counts(v.active, p);
}

/// Whether a path was found on the LAN.
pub open spec fn on_lan(v: NodeView, a: Endpoint) -> bool {
    lookup(v.paths, a) matches Some(path) && path.lan
}

proof fn twin_is_found(v: NodeView, name: Seq<char>, addr: Endpoint, i: int)
    requires
        0 <= i <= v.peers.len(),
    ensures
        match lan_twin(v, name, addr, i) {
            Some(a) => a != addr && exists|j: int|
                i <= j < v.peers.len() && (#[trigger] v.peers[j]).0 == a && v.peers[j].1.name
                    == name && on_lan(v, a),
            None => forall|j: int|
                i <= j < v.peers.len() && (#[trigger] v.peers[j]).0 != addr && v.peers[j].1.name
                    == name ==> !on_lan(v, v.peers[j].0),
        },
    decreases v.peers.len() - i,
{
    if i < v.peers.len() {
        twin_is_found(v, name, addr, i + 1);
        if v.peers[i].1.name == name && v.peers[i].0 != addr && v.is_lan_path(v.peers[i].0) {
            assert(v.peers[i].0 == lan_twin(v, name, addr, i)->0);
        }
    }
}

/// A known peer is reached under its own address, unless a peer of the same
/// name was found on the LAN: that one is reached instead. One that is not
/// known is reached under the address that was given.
pub proof fn lan_is_preferred(v: NodeView, addr: Endpoint)
    ensures
        ({
            let best = v.effective_addr(addr);
            match lookup(v.peers, addr) {
                None => best == addr,
                Some(info) => {
                    ||| best != addr && exists|j: int|
                        0 <= j < v.peers.len() && (#[trigger] v.peers[j]).0 == best
                            && v.peers[j].1.name == info.name && on_lan(v, best)
                    ||| best == addr && forall|j: int|
                        0 <= j < v.peers.len() && (#[trigger] v.peers[j]).0 != addr
                            && v.peers[j].1.name == info.name ==> !on_lan(v, v.peers[j].0)
                },
            }
        }),
{
    if let Some(info) = lookup(v.peers, addr) {
        twin_is_found(v, info.name, addr, 0);
    }
}

proof fn best_address_is_known(v: NodeView, i: int)
    requires
        0 <= i < v.peers.len(),
    ensures
        has_key(v.peers, v.effective_addr(v.peers[i].0)),
{
    let addr = v.peers[i].0;
    let best = v.effective_addr(addr);
    position_is_first(v.peers, addr, 0);
    position_is_first(v.peers, best, 0);
    lan_is_preferred(v, addr);
}

proof fn candidates_are_askable(v: PeerView, node: NodeView, file: Seq<char>, n: int, now: u128)
    requires
        n <= node.peers.len(),
    ensures
        ({
            let all = v.candidates(node, file, n, now);
            &&& forall|i: int|
                0 <= i < all.len() ==> may_be_asked(v, node, #[trigger] all[i], file, now)
                    && has_key(node.peers, all[i])
            &&& forall|j: int|
                0 <= j < n && may_be_asked(
                    v,
                    node,
                    node.effective_addr((#[trigger] node.peers[j]).0),
                    file,
                    now,
                ) ==> all.contains(node.effective_addr(node.peers[j].0))
        }),
    decreases n,
{
    if n > 0 {
        candidates_are_askable(v, node, file, n - 1, now);
        let rest = v.candidates(node, file, n - 1, now);
        let all = v.candidates(node, file, n, now);
        let p = node.effective_addr(node.peers[n - 1].0);
        usable_is_askable(v, node, file, p, now);
        best_address_is_known(node, n - 1);
        assert forall|j: int|
            0 <= j < n && may_be_asked(
                v,
                node,
                node.effective_addr((#[trigger] node.peers[j]).0),
                file,
                now,
            ) implies all.contains(node.effective_addr(node.peers[j].0)) by {
            let q = node.effective_addr(node.peers[j].0);
            if j < n - 1 {
                let i = choose|i: int| 0 <= i < rest.len() && rest[i] == q;
                assert(all[i] == q);
            } else {
                assert(all[rest.len() as int] == q);
            }
        }
    }
}

proof fn parents_listed(
    v: PeerView,
    node: NodeView,
    file: Seq<char>,
    list: Seq<Endpoint>,
    now: u128,
)
    ensures
        ({
            let some = v.parent_sources(node, file, list, now);
            forall|p: Endpoint| #[trigger]
                some.contains(p) <==> list.contains(p) && v.parents.contains(p) && says_it_has(
                    node,
                    p,
                    file,
                    now,
                )
        }),
    decreases list.len(),
{
    let some = v.parent_sources(node, file, list, now);
    if list.len() > 0 {
        let rest = v.parent_sources(node, file, list.drop_last(), now);
        let last = list.last();
        parents_listed(v, node, file, list.drop_last(), now);
        availability_is_what_was_told(node, last, file, now);
        assert forall|p: Endpoint| #[trigger]
            some.contains(p) <==> list.contains(p) && v.parents.contains(p) && says_it_has(
                node,
                p,
                file,
                now,
            ) by {
            grown(list.drop_last(), last, p);
            assert(list.drop_last().push(last) =~= list);
            grown(rest, last, p);
            assert(rest.contains(p) <==> list.drop_last().contains(p) && v.parents.contains(p)
                && says_it_has(node, p, file, now));
        }
    }
}

pub(crate) proof fn grown<T>(s: Seq<T>, last: T, x: T)
    ensures
        s.push(last).contains(x) == (s.contains(x) || x == last),
{
    let t = s.push(last);
    if s.contains(x) {
        let i = choose|i: int| 0 <= i < s.len() && s[i] == x;
        assert(t[i] == x);
    }
    if x == last {
        assert(t[s.len() as int] == x);
    }
    if t.contains(x) && x != last {
        let i = choose|i: int| 0 <= i < t.len() && t[i] == x;
        assert(s[i] == x);
    }
}

proof fn advertised_listed(list: Seq<Endpoint>, has: Seq<Option<bool>>, bootstrap: Endpoint)
    requires
        has.len() == list.len(),
    ensures
        forall|p: Endpoint| #[trigger]
            advertised(list, has, bootstrap).contains(p) <==> p != bootstrap && exists|i: int|
                0 <= i < list.len() && #[trigger] list[i] == p && has[i] == Some(true),
    decreases list.len(),
{
    let some = advertised(list, has, bootstrap);
    if list.len() > 0 {
        let front = list.drop_last();
        let fewer = has.drop_last();
        advertised_listed(front, fewer, bootstrap);
        same_advertised(front, fewer, has, bootstrap);
        let rest = advertised(front, has, bootstrap);
        let last = list.last();
        assert forall|p: Endpoint| #[trigger]
            some.contains(p) <==> p != bootstrap && exists|i: int|
                0 <= i < list.len() && #[trigger] list[i] == p && has[i] == Some(true) by {
            grown(rest, last, p);
            if rest.contains(p) {
                let i = choose|i: int|
                    0 <= i < front.len() && #[trigger] front[i] == p && fewer[i] == Some(true);
                assert(list[i] == p);
            }
            if p != bootstrap && exists|i: int|
                0 <= i < list.len() && #[trigger] list[i] == p && has[i] == Some(true) {
                let i = choose|i: int|
                    0 <= i < list.len() && #[trigger] list[i] == p && has[i] == Some(true);
                if i < front.len() {
                    assert(front[i] == p && fewer[i] == Some(true));
                }
            }
            if some.contains(p) && p == last && !rest.contains(p) {
                assert(list[list.len() - 1] == p);
            }
        }
    }
}

proof fn same_advertised(
    list: Seq<Endpoint>,
    has: Seq<Option<bool>>,
    more: Seq<Option<bool>>,
    bootstrap: Endpoint,
)
    requires
        list.len() <= has.len() <= more.len(),
        has =~= more.take(has.len() as int),
    ensures
        advertised(list, has, bootstrap) == advertised(list, more, bootstrap),
    decreases list.len(),
{
    if list.len() > 0 {
        same_advertised(list.drop_last(), has, more, bootstrap);
    }
}

proof fn only_listed(list: Seq<Endpoint>, p: Endpoint)
    ensures
        forall|q: Endpoint| #[trigger] only(list, p).contains(q) <==> q == p && list.contains(p),
    decreases list.len(),
{
    if list.len() > 0 {
        only_listed(list.drop_last(), p);
        let rest = only(list.drop_last(), p);
        assert forall|q: Endpoint| #[trigger]
            only(list, p).contains(q) <==> q == p && list.contains(p) by {
            grown(list.drop_last(), list.last(), p);
            assert(list.drop_last().push(list.last()) =~= list);
            grown(rest, p, q);
            assert(rest.contains(q) == (q == p && list.drop_last().contains(p)));
        }
    }
}

/// The ones of a list from which a source is drawn: those other than the origin
/// that say they have the file; where there is none, the origin if it says so,
/// and it alone; and all where it does not.
proof fn preferred_listed(
    v: PeerView,
    node: NodeView,
    file: Seq<char>,
    list: Seq<Endpoint>,
    now: u128,
)
    ensures
        ({
            let some = v.preferred_of(node, file, list, now);
            let origin = v.bootstrap;
            if exists|q: Endpoint|
                q != origin && #[trigger] list.contains(q) && says_it_has(node, q, file, now) {
                forall|p: Endpoint| #[trigger]
                    some.contains(p) <==> p != origin && list.contains(p) && says_it_has(
                        node,
                        p,
                        file,
                        now,
                    )
            } else if says_it_has(node, origin, file, now) {
                forall|p: Endpoint| #[trigger]
                    some.contains(p) <==> p == origin && list.contains(p)
            } else {
                some == list
            }
        }),
{
    let has = v.holdings(node, file, list, now);
    let origin = v.bootstrap;
    let peers = advertised(list, has, origin);
    advertised_listed(list, has, origin);
    only_listed(list, origin);
    availability_is_what_was_told(node, origin, file, now);
    assert forall|p: Endpoint| #[trigger]
        peers.contains(p) <==> p != origin && list.contains(p) && says_it_has(
            node,
            p,
            file,
            now,
        ) by {
        availability_is_what_was_told(node, p, file, now);
        if list.contains(p) && p != origin && says_it_has(node, p, file, now) {
            let i = choose|i: int| 0 <= i < list.len() && list[i] == p;
            assert(list[i] == p && has[i] == Some(true));
        }
    }
    if exists|q: Endpoint|
        q != origin && #[trigger] list.contains(q) && says_it_has(node, q, file, now) {
        let q = choose|q: Endpoint|
            q != origin && #[trigger] list.contains(q) && says_it_has(node, q, file, now);
        assert(peers.contains(q));
    } else if peers.len() > 0 {
        assert(peers.contains(peers[0]));
    }
}

/// Whether a known preferred source, by its best address, says that it has a
/// file and may be asked.
pub open spec fn parent_has_it(
    v: PeerView,
    node: NodeView,
    q: Endpoint,
    file: Seq<char>,
    now: u128,
) -> bool {
    &&& known_as(node, q)
    &&& v.parents.contains(q)
    &&& says_it_has(node, q, file, now)
    &&& may_be_asked(v, node, q, file, now)
}

/// Whether a preferred source other than this node is known.
pub open spec fn has_known_parent(v: PeerView, node: NodeView) -> bool {
    exists|q: Endpoint|
        #[trigger] v.parents.contains(q) && q != v.local_addr && has_key(node.peers, q)
}

proof fn parent_is_known(v: PeerView, node: NodeView)
    ensures
        v.knows_parent(node) == has_known_parent(v, node),
{
    if has_known_parent(v, node) {
        let q = choose|q: Endpoint|
            #[trigger] v.parents.contains(q) && q != v.local_addr && has_key(node.peers, q);
        let i = choose|i: int| 0 <= i < v.parents.len() && v.parents[i] == q;
        assert(v.parents[i] != v.local_addr && has_key(node.peers, v.parents[i]));
    }
    if v.knows_parent(node) {
        let i = choose|i: int|
            0 <= i < v.parents.len() && #[trigger] v.parents[i] != v.local_addr && has_key(
                node.peers,
                v.parents[i],
            );
        assert(v.parents.contains(v.parents[i]));
    }
}

proof fn draw_lands(weights: Seq<int>, draw: u64, i: int)
    requires
        0 <= i < weights.len(),
    ensures
        ({
            let k = drawn(weights, draw, i);
            let total = weight_sum(weights, weights.len() as int);
            &&& i <= k < weights.len()
            &&& k > i ==> weight_sum(weights, k) * u64::MAX < draw * total
            &&& k < weights.len() - 1 ==> draw * total <= weight_sum(weights, k + 1) * u64::MAX
        }),
    decreases weights.len() - i,
{
    if i < weights.len() - 1 {
        draw_lands(weights, draw, i + 1);
    }
}

/// What is drawn from a list of sources is one of them, at the place where the
/// drawn part of the sum of the weights falls.
pub proof fn draw_falls_by_weight(weights: Seq<int>, draw: u64)
    requires
        weights.len() > 0,
    ensures
        ({
            let k = drawn(weights, draw, 0);
            let total = weight_sum(weights, weights.len() as int);
            &&& 0 <= k < weights.len()
            &&& k > 0 ==> weight_sum(weights, k) * u64::MAX < draw * total
            &&& k < weights.len() - 1 ==> draw * total <= weight_sum(weights, k + 1) * u64::MAX
        }),
{
    draw_lands(weights, draw, 0);
}

proof fn picked_is_listed(v: PeerView, node: NodeView, file: Seq<char>, now: u128)
    ensures
        ({
            let (w, list) = v.sources(node, file, now);
            match v.picking(node, file, now).1 {
                Some(p) => list.contains(p),
                None => list.len() == 0,
            }
        }),
{
    let (w, list) = v.sources(node, file, now);
    if list.len() > 0 {
        let weights = v.weights(node, file, list, now);
        draw_lands(weights, mixed(stepped(w.rng)), 0);
    }
}

/// The source that is picked for a file is a known peer that may be asked for
/// it: it is not this node, has not said within fifteen seconds that it lacks
/// the file, is not among those that were asked for it already, has not put the
/// file off to a later time, and is not busy with two downloads.
pub proof fn picked_source_may_be_asked(v: PeerView, node: NodeView, file: Seq<char>, now: u128)
    ensures
        v.picking(node, file, now).1 matches Some(p) ==> {
            &&& has_key(node.peers, p)
            &&& p != v.local_addr
            &&& !says_it_lacks(node, p, file, now)
            &&& !(lookup(v.tried, file) matches Some(list) && list.contains(p))
            &&& !(lookup(v.retry_after, (file, p)) matches Some(until) && now < until)
            &&& !is_busy(v, p)
        },
{
    let all = v.candidates(node, file, node.peers.len() as int, now);
    let from_parents = v.parent_sources(node, file, all, now);
    candidates_are_askable(v, node, file, node.peers.len() as int, now);
    parents_listed(v, node, file, all, now);
    preferred_listed(v, node, file, all, now);
    preferred_listed(v, node, file, from_parents, now);
    picked_is_listed(v, node, file, now);
    if let Some(p) = v.picking(node, file, now).1 {
        let base = if from_parents.len() > 0 {
            from_parents
        } else {
            all
        };
        assert(base.contains(p));
        assert(all.contains(p));
        let i = choose|i: int| 0 <= i < all.len() && all[i] == p;
        assert(may_be_asked(v, node, all[i], file, now));
    }
}

proof fn known_is_candidate(v: PeerView, node: NodeView, q: Endpoint, file: Seq<char>, now: u128)
    requires
        known_as(node, q),
        may_be_asked(v, node, q, file, now),
    ensures
        v.candidates(node, file, node.peers.len() as int, now).contains(q),
{
    candidates_are_askable(v, node, file, node.peers.len() as int, now);
    position_is_first(node.peers, q, 0);
    let i = choose|i: int| 0 <= i < node.peers.len() && (#[trigger] node.peers[i]).0 == q;
    assert(node.effective_addr(node.peers[i].0) == q);
}

/// Where a preferred source has the file and may be asked, one such source is
/// picked, and nothing else; and not the origin if another one has it.
pub proof fn parents_with_the_file_come_first(
    v: PeerView,
    node: NodeView,
    q: Endpoint,
    file: Seq<char>,
    now: u128,
)
    requires
        parent_has_it(v, node, q, file, now),
    ensures
        v.picking(node, file, now).1 matches Some(p) && v.parents.contains(p) && says_it_has(
            node,
            p,
            file,
            now,
        ) && (q != v.bootstrap ==> p != v.bootstrap),
{
    let all = v.candidates(node, file, node.peers.len() as int, now);
    let some = v.parent_sources(node, file, all, now);
    known_is_candidate(v, node, q, file, now);
    parents_listed(v, node, file, all, now);
    assert(some.contains(q));
    preferred_listed(v, node, file, some, now);
    picked_is_listed(v, node, file, now);
    let list = v.preferred_of(node, file, some, now);
    if q == v.bootstrap {
        if !(exists|r: Endpoint|
            r != v.bootstrap && #[trigger] some.contains(r) && says_it_has(node, r, file, now)) {
            assert(list.contains(q));
        } else {
            let r = choose|r: Endpoint|
                r != v.bootstrap && #[trigger] some.contains(r) && says_it_has(node, r, file, now);
            assert(list.contains(r));
        }
    } else {
        assert(list.contains(q));
    }
    let p = v.picking(node, file, now).1->0;
    assert(some.contains(p));
}

/// Where no preferred source has the file and none is known, or has been waited
/// for long enough, a peer other than the origin that says it has the file is
/// picked if there is one that may be asked: the origin is spared.
pub proof fn copies_spare_the_origin(
    v: PeerView,
    node: NodeView,
    q: Endpoint,
    file: Seq<char>,
    now: u128,
)
    requires
        known_as(node, q),
        may_be_asked(v, node, q, file, now),
        says_it_has(node, q, file, now),
        q != v.bootstrap,
        !has_known_parent(v, node) || (lookup(v.parent_wait, file) matches Some(first) && since(
            now,
            first,
        ) >= 5_000_000_000),
    ensures
        v.picking(node, file, now).1 matches Some(p) && says_it_has(node, p, file, now) && (p
            != v.bootstrap || v.parents.contains(p)),
{
    let all = v.candidates(node, file, node.peers.len() as int, now);
    let some = v.parent_sources(node, file, all, now);
    known_is_candidate(v, node, q, file, now);
    parents_listed(v, node, file, all, now);
    parent_is_known(v, node);
    preferred_listed(v, node, file, all, now);
    preferred_listed(v, node, file, some, now);
    picked_is_listed(v, node, file, now);
    if some.len() > 0 {
        let r = some[0];
        assert(some.contains(r));
        let list = v.preferred_of(node, file, some, now);
        if r == v.bootstrap {
            if exists|x: Endpoint|
                x != v.bootstrap && #[trigger] some.contains(x) && says_it_has(
                    node,
                    x,
                    file,
                    now,
                ) {
                let x = choose|x: Endpoint|
                    x != v.bootstrap && #[trigger] some.contains(x) && says_it_has(
                        node,
                        x,
                        file,
                        now,
                    );
                assert(list.contains(x));
            } else {
                assert(list.contains(r));
            }
        } else {
            assert(list.contains(r));
        }
        assert(some.contains(v.picking(node, file, now).1->0));
    } else {
        assert(v.preferred_of(node, file, all, now).contains(q));
    }
}

/// The origin is the fallback: where no other known peer says that it has the
/// file, no preferred source is known or it has been waited for long enough,
/// and the origin may be asked, then some source is picked; and it is the origin
/// if that says it has the file.
pub proof fn origin_is_the_fallback(v: PeerView, node: NodeView, file: Seq<char>, now: u128)
    requires
        known_as(node, v.bootstrap),
        may_be_asked(v, node, v.bootstrap, file, now),
        forall|q: Endpoint|
            #[trigger] has_key(node.peers, q) && q != v.bootstrap ==> !says_it_has(
                node,
                q,
                file,
                now,
            ),
        !has_known_parent(v, node) || (lookup(v.parent_wait, file) matches Some(first) && since(
            now,
            first,
        ) >= 5_000_000_000),
    ensures
        v.picking(node, file, now).1 is Some,
        says_it_has(node, v.bootstrap, file, now) ==> v.picking(node, file, now).1 == Some(
            v.bootstrap,
        ),
{
    let all = v.candidates(node, file, node.peers.len() as int, now);
    let some = v.parent_sources(node, file, all, now);
    let origin = v.bootstrap;
    candidates_are_askable(v, node, file, node.peers.len() as int, now);
    known_is_candidate(v, node, origin, file, now);
    parents_listed(v, node, file, all, now);
    parent_is_known(v, node);
    preferred_listed(v, node, file, all, now);
    preferred_listed(v, node, file, some, now);
    picked_is_listed(v, node, file, now);
    assert forall|q: Endpoint| #[trigger] all.contains(q) && q != origin implies !says_it_has(
        node,
        q,
        file,
        now,
    ) by {
        let i = choose|i: int| 0 <= i < all.len() && all[i] == q;
        assert(has_key(node.peers, all[i]));
    }
    if some.len() > 0 {
        assert(some.contains(some[0]));
        assert(v.preferred_of(node, file, some, now).contains(origin));
    } else {
        assert(v.preferred_of(node, file, all, now).contains(origin));
    }
}

/// A preferred source that does not have the file is waited for: as long as one
/// is known, none of them has the file, and fewer than five seconds have passed
/// since the wait began, nothing is picked, and the wait goes on from when it
/// began.
pub proof fn parents_are_waited_for(v: PeerView, node: NodeView, file: Seq<char>, now: u128)
    requires
        has_known_parent(v, node),
        forall|q: Endpoint|
            #[trigger] v.parents.contains(q) && has_key(node.peers, q) ==> !says_it_has(
                node,
                q,
                file,
                now,
            ),
        lookup(v.parent_wait, file) matches Some(first) ==> since(now, first) < 5_000_000_000,
    ensures
        v.picking(node, file, now).1 is None,
        lookup(v.picking(node, file, now).0.parent_wait, file) == Some(
            match lookup(v.parent_wait, file) {
                Some(first) => first,
                None => now,
            },
        ),
{
    let all = v.candidates(node, file, node.peers.len() as int, now);
    let some = v.parent_sources(node, file, all, now);
    candidates_are_askable(v, node, file, node.peers.len() as int, now);
    parents_listed(v, node, file, all, now);
    parent_is_known(v, node);
    if some.len() > 0 {
        assert(some.contains(some[0]));
        let i = choose|i: int| 0 <= i < all.len() && all[i] == some[0];
        assert(has_key(node.peers, all[i]));
    }
    crate::laws::lookup_of_longer(v.parent_wait, (file, now), file);
}

/// Sources of which nothing is known are not tried while another one that may
/// be asked says that it has the file, or the origin does.
pub proof fn unknown_sources_are_a_last_resort(
    v: PeerView,
    node: NodeView,
    q: Endpoint,
    file: Seq<char>,
    now: u128,
)
    requires
        known_as(node, q) && may_be_asked(v, node, q, file, now) && says_it_has(
            node,
            q,
            file,
            now,
        ) || says_it_has(node, v.bootstrap, file, now),
    ensures
        v.picking(node, file, now).1 matches Some(p) ==> says_it_has(node, p, file, now),
{
    let all = v.candidates(node, file, node.peers.len() as int, now);
    let some = v.parent_sources(node, file, all, now);
    if known_as(node, q) && may_be_asked(v, node, q, file, now) {
        known_is_candidate(v, node, q, file, now);
    }
    parents_listed(v, node, file, all, now);
    preferred_listed(v, node, file, all, now);
    preferred_listed(v, node, file, some, now);
    picked_is_listed(v, node, file, now);
    if let Some(p) = v.picking(node, file, now).1 {
        if some.len() > 0 {
            assert(some.contains(p));
        } else if q != v.bootstrap && all.contains(q) && says_it_has(node, q, file, now) {
            assert(v.preferred_of(node, file, all, now).contains(p));
        }
    }
}

/// Every source that is drawn from has a chance. A better score, a fresh path
/// and a copy of the file never count less, more downloads under way never
/// count more, and the origin never counts more than a peer like it.
pub proof fn better_sources_count_more(
    score: u32,
    better: u32,
    jobs: nat,
    more: nat,
    fresh: bool,
    has: Option<bool>,
    origin: bool,
)
    requires
        score <= better <= 100,
        jobs <= more,
    ensures
        weight(score, jobs, fresh, has, origin) > 0,
        weight(score, jobs, fresh, has, origin) <= weight(better, jobs, fresh, has, origin),
        weight(score, more, fresh, has, origin) <= weight(score, jobs, fresh, has, origin),
        weight(score, jobs, false, has, origin) <= weight(score, jobs, true, has, origin),
        weight(score, jobs, fresh, None, origin) <= weight(score, jobs, fresh, Some(true), origin),
        weight(score, jobs, fresh, Some(false), origin) <= weight(score, jobs, fresh, None, origin),
        weight(score, jobs, fresh, has, true) <= weight(score, jobs, fresh, has, false),
{
    weight_grows(score, better, jobs, more);
    let a: int = (score + 1) * 2 / (jobs as int + 1);
    let b: int = (better + 1) * 2 / (jobs as int + 1);
    let c: int = (score + 1) * 2 / (more as int + 1);
    product_grows(a, b);
    product_grows(c, a);
}

/// Among sources that are otherwise alike the one with the better score, with no
/// download under way, with a fresh path, with a copy of the file, or that is
/// not the origin counts strictly more.
pub proof fn better_sources_count_strictly_more(
    score: u32,
    better: u32,
    fresh: bool,
    has: Option<bool>,
    origin: bool,
)
    requires
        score < better <= 100,
        has != Some(false),
    ensures
        weight(score, 0, fresh, has, origin) < weight(better, 0, fresh, has, origin),
        weight(score, 1, fresh, has, origin) < weight(score, 0, fresh, has, origin),
        weight(score, 0, false, has, origin) < weight(score, 0, true, has, origin),
        weight(score, 0, fresh, None, origin) < weight(score, 0, fresh, Some(true), origin),
        weight(score, 0, fresh, Some(false), origin) < weight(score, 0, fresh, None, origin),
        weight(score, 0, fresh, has, true) < weight(score, 0, fresh, has, false),
{
    let a: int = (score + 1) * 2;
    let b: int = (better + 1) * 2;
    assert(a / 1 == a && b / 1 == b && a / 2 == score + 1);
}

/// The score of a peer, that of a new one where nothing is known of it.
pub open spec fn score_known(node: NodeView, p: Endpoint) -> u32 {
    match lookup(node.peer_stats, p) {
        Some(stat) => stat.score,
        None => 50,
    }
}

/// Whether a peer has answered a PING within the last thirty seconds.
pub open spec fn answered_lately(node: NodeView, p: Endpoint, now: u128) -> bool {
    lookup(node.paths, p) matches Some(path) && path.last_pong matches Some(t) && since(now, t)
        < 30_000_000_000
}

/// What a source counts in the draw goes by its score, the downloads from it,
/// whether it has answered lately, what it says of the file, and whether it is
/// the origin, and by nothing else.
pub proof fn weights_go_by_what_is_known(
    v: PeerView,
    node: NodeView,
    file: Seq<char>,
    list: Seq<Endpoint>,
    now: u128,
    i: int,
)
    requires
        0 <= i < list.len(),
    ensures
        v.weights(node, file, list, now).len() == list.len(),
        ({
            let p = list[i];
            v.weights(node, file, list, now)[i] == weight(
                score_known(node, p),
                v.active.filter(|e: (u16, JobView)| e.1.peer == p).len(),
                answered_lately(node, p, now),
                if says_it_lacks(node, p, file, now) {
                    Some(false)
                } else if says_it_has(node, p, file, now) {
                    Some(true)
                } else {
                    None
                },
                p == v.bootstrap,
            )
        }),
{
    availability_is_what_was_told(node, list[i], file, now);
    downloads_are_counted(v.active, list[i]);
}

proof fn downloads_are_counted(active: Seq<(u16, JobView)>, p: Endpoint)
    ensures
        inflight(active, p) == active.filter(|e: (u16, JobView)| e.1.peer == p).len(),
    decreases active.len(),
{
    reveal(Seq::filter);
    if active.len() > 0 {
        downloads_are_counted(active.drop_last(), p);
    }
}

proof fn weight_grows(score: u32, better: u32, jobs: nat, more: nat)
    requires
        score <= better,
        jobs <= more,
    ensures
        0 <= (score + 1) * 2 / (more as int + 1) <= (score + 1) * 2 / (jobs as int + 1) <= (better
            + 1) * 2 / (jobs as int + 1),
{
    vstd::arithmetic::div_mod::lemma_div_is_ordered_by_denominator(
        (score + 1) * 2,
        jobs as int + 1,
        more as int + 1,
    );
    vstd::arithmetic::div_mod::lemma_div_is_ordered(
        (score + 1) * 2,
        (better + 1) * 2,
        jobs as int + 1,
    );
    vstd::arithmetic::div_mod::lemma_div_pos_is_pos((score + 1) * 2, more as int + 1);
}

proof fn product_grows(a: int, b: int)
    by (nonlinear_arith)
    requires
        0 <= a <= b,
    ensures
        forall|x: int, y: int, z: int|
            0 <= x && 0 <= y && 0 <= z ==> #[trigger] (a * x * y * z) <= b * x * y * z,
{
}

/// A source is picked under the best address of a known peer: one that was found
/// on the LAN is not asked under an address across the internet.
pub proof fn picked_source_is_a_best_address(v: PeerView, node: NodeView, file: Seq<char>, now: u128)
    ensures
        v.picking(node, file, now).1 matches Some(p) ==> exists|i: int|
            0 <= i < node.peers.len() && p == node.effective_addr((#[trigger] node.peers[i]).0),
{
    let all = v.candidates(node, file, node.peers.len() as int, now);
    let some = v.parent_sources(node, file, all, now);
    parents_listed(v, node, file, all, now);
    preferred_listed(v, node, file, all, now);
    preferred_listed(v, node, file, some, now);
    picked_is_listed(v, node, file, now);
    candidates_are_best(v, node, file, node.peers.len() as int, now);
    if let Some(p) = v.picking(node, file, now).1 {
        let base = if some.len() > 0 {
            some
        } else {
            all
        };
        assert(base.contains(p));
        assert(all.contains(p));
        let k = choose|k: int| 0 <= k < all.len() && all[k] == p;
        assert(all[k] == p);
    }
}

proof fn candidates_are_best(v: PeerView, node: NodeView, file: Seq<char>, n: int, now: u128)
    requires
        n <= node.peers.len(),
    ensures
        forall|k: int|
            0 <= k < v.candidates(node, file, n, now).len() ==> exists|i: int|
                0 <= i < n && #[trigger] v.candidates(node, file, n, now)[k]
                    == node.effective_addr((#[trigger] node.peers[i]).0),
    decreases n,
{
    if n > 0 {
        candidates_are_best(v, node, file, n - 1, now);
        let rest = v.candidates(node, file, n - 1, now);
        let all = v.candidates(node, file, n, now);
        assert forall|k: int| 0 <= k < all.len() implies exists|i: int|
            0 <= i < n && #[trigger] all[k] == node.effective_addr((#[trigger] node.peers[i]).0) by {
            if k < rest.len() {
                assert(all[k] == rest[k]);
                let i = choose|i: int|
                    0 <= i < n - 1 && rest[k] == node.effective_addr(
                        (#[trigger] node.peers[i]).0,
                    );
                assert(all[k] == node.effective_addr(node.peers[i].0));
            } else {
                assert(all[k] == node.effective_addr(node.peers[n - 1].0));
            }
        }
    }
}

/// The wait for a preferred source is over as soon as one has the file; the next
/// time a file is wanted the wait begins anew.
pub proof fn wait_ends_with_a_parent_that_has_the_file(
    v: PeerView,
    node: NodeView,
    q: Endpoint,
    file: Seq<char>,
    now: u128,
)
    requires
        parent_has_it(v, node, q, file, now),
        crate::table::distinct(v.parent_wait),
    ensures
        lookup(v.picking(node, file, now).0.parent_wait, file) is None,
{
    let all = v.candidates(node, file, node.peers.len() as int, now);
    known_is_candidate(v, node, q, file, now);
    parents_listed(v, node, file, all, now);
    assert(v.parent_sources(node, file, all, now).contains(q));
    crate::table::lookup_after_removed(v.parent_wait, file, file);
}

} // verus!
