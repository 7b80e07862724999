//! What holds of how peers are found, greeted and kept alive.
use vstd::prelude::*;
use crate::endpoint::{ip4, is_private_source, is_remote_public, octets_spell_address, Endpoint};
use crate::fault::{no_fault_is_transparent, DatagramView};
use crate::node::NodeView;
use crate::peer::{says_parent, says_same_ip, PeerView};
use crate::protocol::{datagram_of, MessageView};
use crate::source_laws::grown;
use crate::table::{distinct, has_key, position, position_is_first};


verus! {

// ---------------------------------------------------------------------------
// Addresses

/// An IPv4 address can be reached across the internet unless it belongs to the
/// host itself (127), to a private network (10, 172.16 to 172.31, 192.168) or to
/// the link (169.254). It counts as private exactly if it belongs to a private
/// network.
pub proof fn reserved_addresses_are_not_public(a: u8, b: u8, c: u8, d: u8, port: u16)
    ensures
        ({
            let private = a == 10 || (a == 172 && 16 <= b <= 31) || (a == 192 && b == 168);
            let e = Endpoint::V4 { ip: ip4(a, b, c, d), port };
            &&& is_private_source(e) == private
            &&& is_remote_public(e) == !(a == 127 || private || (a == 169 && b == 254))
        }),
        ip4(a, b, c, d) == a * 0x100_0000 + b * 0x1_0000 + c * 0x100 + d,
{
    octets_spell_address(0, a, b, c, d);
}

/// An IPv6 address can be reached across the internet unless it is ::1 or begins
/// with fe80 to febf, and never counts as private.
pub proof fn reserved_ip6_addresses_are_not_public(ip: u128, port: u16, flowinfo: u32, scope: u32)
    ensures
        ({
            let e = Endpoint::V6 { ip, port, flowinfo, scope };
            let first = ip / 0x1_0000_0000_0000_0000_0000_0000_0000;
            &&& !is_private_source(e)
            &&& is_remote_public(e) == !(ip == 1 || 0xfe80 <= first <= 0xfebf)
        }),
{
}

// ---------------------------------------------------------------------------
// Sending

/// Whether no fault at all is injected.
pub open spec fn is_faultless(v: NodeView) -> bool {
    &&& v.fault.config.drop_pct == 0
    &&& v.fault.config.dup_pct == 0
    &&& v.fault.config.reorder_pct == 0
    &&& v.fault.config.delay_ms == 0
    &&& v.fault.config.burst_every_ms == 0
}

/// A message on its way to an address.
pub open spec fn mail(to: Endpoint, m: MessageView) -> DatagramView {
    DatagramView { bytes: datagram_of(m), to }
}

/// Without faults a message that is posted goes out once, to where it is
/// addressed, behind what was posted before, and nothing else changes.
pub proof fn posting_sends_once(v: NodeView, to: Endpoint, m: MessageView, now: u128)
    requires
        is_faultless(v),
    ensures
        v.posted(to, m, now) == (NodeView { outbox: v.outbox.push(mail(to, m)), ..v }),
{
    no_fault_is_transparent(v.fault, mail(to, m), now);
    assert(v.outbox + seq![mail(to, m)] =~= v.outbox.push(mail(to, m)));
}

// ---------------------------------------------------------------------------
// Peerlists

/// Whether the entry of a peerlist can be used from here: it is not this node,
/// has a port, is not marked as behind the same address, and can be reached
/// across the internet if this node is seen there.
pub open spec fn is_usable_entry(v: PeerView, node: NodeView, entry: (Endpoint, u8)) -> bool {
    let (p, flags) = entry;
    &&& p != v.local_addr
    &&& !(p matches Endpoint::V4 { port, .. } && port == 0)
    &&& !(p matches Endpoint::V6 { port, .. } && port == 0)
    &&& flags & 2 == 0
    &&& (node.my_public matches Some(me) && is_remote_public(me)) ==> is_remote_public(p)
}

/// Whether the entry of a peerlist is to be greeted: it can be used, and is
/// neither known nor greeted already.
pub open spec fn is_stranger(v: PeerView, node: NodeView, entry: (Endpoint, u8)) -> bool {
    &&& is_usable_entry(v, node, entry)
    &&& !has_key(node.peers, entry.0)
    &&& !has_key(v.pending, entry.0)
}

/// The greeting of a node: its claimed address, or 0.0.0.0:0 where it claims
/// none, and its name.
pub open spec fn greeting(node: NodeView) -> MessageView {
    MessageView::HandshakeRequest {
        claimed: if node.claimed is Some {
            node.claimed->0
        } else {
            Endpoint::V4 { ip: 0, port: 0 }
        },
        name: node.name,
    }
}

proof fn flags_are_bits(flags: u8)
    ensures
        says_same_ip(flags) == (flags & 2 != 0),
        says_parent(flags) == (flags & 4 != 0),
{
    assert((flags / 2 % 2 == 1) == (flags & 2 != 0)) by (bit_vector);
    assert((flags / 4 % 2 == 1) == (flags & 4 != 0)) by (bit_vector);
}

/// An unknown peer of a peerlist that can be reached gets exactly one handshake
/// request, whatever its own flags, and has three seconds to answer it; to any
/// other entry nothing is sent. A usable entry that is marked so is a preferred
/// source.
pub proof fn strangers_are_greeted_once(
    v: PeerView,
    node: NodeView,
    entry: (Endpoint, u8),
    now: u128,
)
    requires
        is_faultless(node),
        now <= u128::MAX - 3_000_000_000,
    ensures
        ({
            let (w, n) = v.entry_came(node, entry, now);
            let p = entry.0;
            &&& if is_stranger(v, node, entry) {
                &&& n == (NodeView { outbox: node.outbox.push(mail(p, greeting(node))), ..node })
                &&& w.pending == v.pending.push((p, (now + 3_000_000_000) as u128))
            } else {
                &&& n == node
                &&& w.pending == v.pending
            }
            &&& forall|q: Endpoint| #[trigger]
                w.parents.contains(q) <==> v.parents.contains(q) || (q == p && is_usable_entry(
                    v,
                    node,
                    entry,
                ) && entry.1 & 4 != 0)
            &&& w == (PeerView { pending: w.pending, parents: w.parents, ..v })
        }),
{
    let (p, flags) = entry;
    flags_are_bits(flags);
    posting_sends_once(node, p, greeting(node), now);
    let (w, n) = v.entry_came(node, entry, now);
    assert forall|q: Endpoint| #[trigger]
        w.parents.contains(q) <==> v.parents.contains(q) || (q == p && is_usable_entry(
            v,
            node,
            entry,
        ) && flags & 4 != 0) by {
        grown(v.parents, p, q);
    }
}

/// A node that is seen across the internet sends nothing to the entry of a
/// peerlist that is private, on the link, or on the host itself; and one that
/// can be reached across the internet is not passed over on account of its
/// address, whatever this node is seen as.
pub proof fn private_entries_are_passed_over_from_afar(
    v: PeerView,
    node: NodeView,
    a: u8,
    b: u8,
    c: u8,
    d: u8,
    port: u16,
    flags: u8,
    now: u128,
)
    requires
        is_faultless(node),
        now <= u128::MAX - 3_000_000_000,
        port != 0,
        flags & 2 == 0,
        ({
            let p = Endpoint::V4 { ip: ip4(a, b, c, d), port };
            p != v.local_addr && !has_key(node.peers, p) && !has_key(v.pending, p)
        }),
    ensures
        ({
            let p = Endpoint::V4 { ip: ip4(a, b, c, d), port };
            let reserved = a == 127 || a == 10 || (a == 172 && 16 <= b <= 31) || (a == 192 && b
                == 168) || (a == 169 && b == 254);
            let n = v.entry_came(node, (p, flags), now).1;
            &&& !reserved ==> n.outbox == node.outbox.push(mail(p, greeting(node)))
            &&& reserved && (node.my_public matches Some(me) && is_remote_public(me)) ==> n.outbox
                == node.outbox
            &&& reserved && !(node.my_public matches Some(me) && is_remote_public(me))
                ==> n.outbox == node.outbox.push(mail(p, greeting(node)))
        }),
{
    let p = Endpoint::V4 { ip: ip4(a, b, c, d), port };
    reserved_addresses_are_not_public(a, b, c, d, port);
    strangers_are_greeted_once(v, node, (p, flags), now);
}

/// The greetings that a peerlist brings.
pub open spec fn greeted(v: PeerView, w: PeerView) -> Seq<(Endpoint, u128)> {
    w.pending.skip(v.pending.len() as int)
}

/// Whether an address is among the greeted ones.
pub open spec fn greets(new: Seq<(Endpoint, u128)>, p: Endpoint) -> bool {
    exists|i: int| 0 <= i < new.len() && (#[trigger] new[i]).0 == p
}

/// Whether a peerlist holds an address as one that is to be greeted.
pub open spec fn lists_stranger(
    v: PeerView,
    node: NodeView,
    entries: Seq<(Endpoint, u8)>,
    p: Endpoint,
) -> bool {
    exists|j: int|
        0 <= j < entries.len() && (#[trigger] entries[j]).0 == p && is_stranger(
            v,
            node,
            entries[j],
        )
}

/// Whether a peerlist holds an address as a preferred source.
pub open spec fn lists_parent(
    v: PeerView,
    node: NodeView,
    entries: Seq<(Endpoint, u8)>,
    p: Endpoint,
) -> bool {
    exists|j: int|
        0 <= j < entries.len() && (#[trigger] entries[j]).0 == p && is_usable_entry(
            v,
            node,
            entries[j],
        ) && entries[j].1 & 4 != 0
}

/// Over a whole peerlist, each unknown peer of it that can be reached is greeted
/// once, however often it is listed, and no one else is; each has three seconds
/// to answer. The preferred sources are those that the list marks.
pub proof fn peerlist_is_greeted(
    v: PeerView,
    node: NodeView,
    entries: Seq<(Endpoint, u8)>,
    now: u128,
)
    requires
        is_faultless(node),
        distinct(v.pending),
        now <= u128::MAX - 3_000_000_000,
    ensures
        ({
            let (w, n) = v.peerlist_came(node, entries, now);
            let new = greeted(v, w);
            &&& w.pending == v.pending + new
            &&& distinct(w.pending)
            &&& forall|i: int|
                0 <= i < new.len() ==> (#[trigger] new[i]).1 == now + 3_000_000_000
            &&& n == (NodeView {
                outbox: node.outbox + new.map_values(
                    |e: (Endpoint, u128)| mail(e.0, greeting(node)),
                ),
                ..node
            })
            &&& forall|p: Endpoint| #[trigger]
                greets(new, p) <==> lists_stranger(v, node, entries, p)
            &&& forall|p: Endpoint| #[trigger]
                w.parents.contains(p) <==> lists_parent(v, node, entries, p)
        }),
{
    let u = PeerView { parents: Seq::empty(), ..v };
    entries_are_greeted(u, node, entries, now);
    let (w, n) = v.peerlist_came(node, entries, now);
    assert(greeted(u, w) == greeted(v, w));
    assert forall|e: (Endpoint, u8)| #[trigger] is_usable_entry(u, node, e) == is_usable_entry(
        v,
        node,
        e,
    ) by {}
    assert forall|p: Endpoint| #[trigger]
        w.parents.contains(p) <==> lists_parent(v, node, entries, p) by {
        assert(!u.parents.contains(p));
        assert(lists_parent(u, node, entries, p) == lists_parent(v, node, entries, p));
    }
    assert forall|p: Endpoint| #[trigger] greets(greeted(v, w), p) <==> lists_stranger(
        v,
        node,
        entries,
        p,
    ) by {
        assert(lists_stranger(u, node, entries, p) == lists_stranger(v, node, entries, p));
    }
}

proof fn entries_are_greeted(
    v: PeerView,
    node: NodeView,
    entries: Seq<(Endpoint, u8)>,
    now: u128,
)
    requires
        is_faultless(node),
        distinct(v.pending),
        now <= u128::MAX - 3_000_000_000,
    ensures
        ({
            let (w, n) = v.entries_came(node, entries, now);
            let new = greeted(v, w);
            &&& w == (PeerView { pending: w.pending, parents: w.parents, ..v })
            &&& w.pending == v.pending + new
            &&& distinct(w.pending)
            &&& forall|i: int|
                0 <= i < new.len() ==> (#[trigger] new[i]).1 == now + 3_000_000_000
            &&& n == (NodeView {
                outbox: node.outbox + new.map_values(
                    |e: (Endpoint, u128)| mail(e.0, greeting(node)),
                ),
                ..node
            })
            &&& forall|p: Endpoint| #[trigger]
                greets(new, p) <==> lists_stranger(v, node, entries, p)
            &&& forall|p: Endpoint| #[trigger]
                w.parents.contains(p) <==> v.parents.contains(p) || lists_parent(
                    v,
                    node,
                    entries,
                    p,
                )
        }),
    decreases entries.len(),
{
    let mailing = |e: (Endpoint, u128)| mail(e.0, greeting(node));
    let (x, o) = v.entries_came(node, entries, now);
    if entries.len() == 0 {
        assert(greeted(v, x).len() == 0);
        assert(v.pending + greeted(v, x) =~= v.pending);
        assert(node.outbox + greeted(v, x).map_values(mailing) =~= node.outbox);
    } else {
        let front = entries.drop_last();
        let last = entries.last();
        entries_are_greeted(v, node, front, now);
        let (w, n) = v.entries_came(node, front, now);
        let before = greeted(v, w);
        let new = greeted(v, x);
        strangers_are_greeted_once(w, n, last, now);
        assert(greeting(n) == greeting(node));
        assert(is_usable_entry(w, n, last) == is_usable_entry(v, node, last));
        position_is_first(w.pending, last.0, 0);
        position_is_first(v.pending, last.0, 0);
        let pushed = is_stranger(w, n, last);
        if pushed {
            assert(x.pending =~= w.pending.push((last.0, (now + 3_000_000_000) as u128)));
            assert(new =~= before.push((last.0, (now + 3_000_000_000) as u128)));
            assert(x.pending =~= v.pending + new);
            assert(o.outbox =~= node.outbox + new.map_values(mailing));
        } else {
            assert(new == before);
        }
        assert(has_key(w.pending, last.0) == (has_key(v.pending, last.0) || greets(
            before,
            last.0,
        ))) by {
            if let Some(k) = position(w.pending, last.0) {
                if k < v.pending.len() {
                    assert(v.pending[k].0 == last.0);
                } else {
                    assert(before[k - v.pending.len()].0 == last.0);
                }
            }
            if let Some(k) = position(v.pending, last.0) {
                assert(w.pending[k].0 == last.0);
            }
            if greets(before, last.0) {
                let i = choose|i: int| 0 <= i < before.len() && (#[trigger] before[i]).0 == last.0;
                assert(w.pending[v.pending.len() + i].0 == last.0);
            }
        }
        assert forall|p: Endpoint| #[trigger]
            greets(new, p) <==> lists_stranger(v, node, entries, p) by {
            stranger_listed(v, node, entries, p);
            if pushed {
                greeted_more(before, (last.0, (now + 3_000_000_000) as u128), p);
            }
            assert(greets(before, p) <==> lists_stranger(v, node, front, p));
            if p == last.0 && is_stranger(v, node, last) && !pushed {
                assert(greets(before, p));
            }
        }
        assert forall|p: Endpoint| #[trigger]
            x.parents.contains(p) <==> v.parents.contains(p) || lists_parent(
                v,
                node,
                entries,
                p,
            ) by {
            parent_listed(v, node, entries, p);
            assert(w.parents.contains(p) <==> v.parents.contains(p) || lists_parent(
                v,
                node,
                front,
                p,
            ));
        }
    }
}

proof fn greeted_more(new: Seq<(Endpoint, u128)>, e: (Endpoint, u128), p: Endpoint)
    ensures
        greets(new.push(e), p) == (greets(new, p) || e.0 == p),
{
    let more = new.push(e);
    if greets(new, p) {
        let i = choose|i: int| 0 <= i < new.len() && (#[trigger] new[i]).0 == p;
        assert(more[i].0 == p);
    }
    if e.0 == p {
        assert(more[new.len() as int].0 == p);
    }
    if greets(more, p) && e.0 != p {
        let i = choose|i: int| 0 <= i < more.len() && (#[trigger] more[i]).0 == p;
        assert(new[i].0 == p);
    }
}

proof fn stranger_listed(
    v: PeerView,
    node: NodeView,
    entries: Seq<(Endpoint, u8)>,
    p: Endpoint,
)
    requires
        entries.len() > 0,
    ensures
        lists_stranger(v, node, entries, p) == (lists_stranger(v, node, entries.drop_last(), p)
            || (entries.last().0 == p && is_stranger(v, node, entries.last()))),
{
    let front = entries.drop_last();
    if lists_stranger(v, node, front, p) {
        let j = choose|j: int|
            0 <= j < front.len() && (#[trigger] front[j]).0 == p && is_stranger(v, node, front[j]);
        assert(entries[j].0 == p);
    }
    if entries.last().0 == p && is_stranger(v, node, entries.last()) {
        assert(entries[entries.len() - 1].0 == p);
    }
    if lists_stranger(v, node, entries, p) {
        let j = choose|j: int|
            0 <= j < entries.len() && (#[trigger] entries[j]).0 == p && is_stranger(
                v,
                node,
                entries[j],
            );
        if j < front.len() {
            assert(front[j].0 == p);
        }
    }
}

proof fn parent_listed(
    v: PeerView,
    node: NodeView,
    entries: Seq<(Endpoint, u8)>,
    p: Endpoint,
)
    requires
        entries.len() > 0,
    ensures
        lists_parent(v, node, entries, p) == (lists_parent(v, node, entries.drop_last(), p) || (
        entries.last().0 == p && is_usable_entry(v, node, entries.last()) && entries.last().1 & 4
            != 0)),
{
    let front = entries.drop_last();
    if lists_parent(v, node, front, p) {
        let j = choose|j: int|
            0 <= j < front.len() && (#[trigger] front[j]).0 == p && is_usable_entry(
                v,
                node,
                front[j],
            ) && front[j].1 & 4 != 0;
        assert(entries[j].0 == p);
    }
    if entries.last().0 == p && is_usable_entry(v, node, entries.last()) && entries.last().1 & 4
        != 0 {
        assert(entries[entries.len() - 1].0 == p);
    }
    if lists_parent(v, node, entries, p) {
        let j = choose|j: int|
            0 <= j < entries.len() && (#[trigger] entries[j]).0 == p && is_usable_entry(
                v,
                node,
                entries[j],
            ) && entries[j].1 & 4 != 0;
        if j < front.len() {
            assert(front[j].0 == p);
        }
    }
}

} // verus!
