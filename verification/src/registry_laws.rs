//! What holds of the transfers of a node together.
use vstd::prelude::*;
use crate::endpoint::Endpoint;
use crate::laws::lookup_of_longer;
use crate::protocol::MessageView;
use crate::receiver::ReceiverView;
use crate::registry::{addressed, ticked_receivers, ticked_senders, Letter, RegistryView};
use crate::sender::SenderView;
use crate::table::{distinct, lookup, lookup_after_put};
use crate::transfer::Settings;

verus! {

proof fn kept_receivers(receivers: Seq<(u16, ReceiverView)>, s: Settings, i: int, now: u128)
    requires
        distinct(receivers),
        0 <= i < receivers.len(),
    ensures
        ({
            let (id, r) = receivers[i];
            lookup(ticked_receivers(receivers, s, now).0, id) == if r.outcome is None {
                Some(r.ticked(s, now))
            } else if now >= r.deadline {
                None
            } else {
                Some(r)
            }
        }),
    decreases receivers.len(),
{
    let front = receivers.drop_last();
    let (id, r) = receivers[i];
    let before = ticked_receivers(front, s, now).0;
    let kept = ticked_receivers(receivers, s, now).0;
    let last = receivers.len() - 1;
    assert forall|a: int, b: int| 0 <= a < b < front.len() implies (#[trigger] front[a]).0 != (
    #[trigger] front[b]).0 by {
        assert(front[a] == receivers[a] && front[b] == receivers[b]);
    }
    if i < last {
        assert(front[i] == receivers[i]);
        kept_receivers(front, s, i, now);
        assert(receivers[i].0 != receivers[last].0);
    } else {
        unnamed_receivers(front, s, id, now);
    }
    if kept != before {
        lookup_of_longer(before, kept.last(), id);
        assert(before.push(kept.last()) =~= kept);
    }
}

proof fn unnamed_receivers(receivers: Seq<(u16, ReceiverView)>, s: Settings, id: u16, now: u128)
    requires
        forall|i: int| 0 <= i < receivers.len() ==> (#[trigger] receivers[i]).0 != id,
    ensures
        lookup(ticked_receivers(receivers, s, now).0, id) is None,
    decreases receivers.len(),
{
    let kept = ticked_receivers(receivers, s, now).0;
    if receivers.len() > 0 {
        let front = receivers.drop_last();
        let before = ticked_receivers(front, s, now).0;
        assert forall|i: int| 0 <= i < front.len() implies (#[trigger] front[i]).0 != id by {
            assert(front[i] == receivers[i]);
        }
        unnamed_receivers(front, s, id, now);
        assert(receivers[receivers.len() - 1].0 != id);
        if kept != before {
            lookup_of_longer(before, kept.last(), id);
            assert(before.push(kept.last()) =~= kept);
        }
    }
}

/// At a tick each download that is under way is ticked by itself; one that has
/// ended stays as it is until its grace is over, and is then forgotten.
pub proof fn downloads_are_ticked_one_by_one(v: RegistryView, i: int, now: u128)
    requires
        v.wf(),
        0 <= i < v.receivers.len(),
    ensures
        ({
            let (id, r) = v.receivers[i];
            lookup(v.ticked(now).receivers, id) == if r.outcome is None {
                Some(r.ticked(v.settings, now))
            } else if now >= r.deadline {
                None
            } else {
                Some(r)
            }
        }),
        v.ticked(now).settings == v.settings,
{
    kept_receivers(v.receivers, v.settings, i, now);
}

/// Whether a letter comes from a transfer of a list.
pub open spec fn is_from_sender(
    senders: Seq<(u16, SenderView)>,
    s: Settings,
    letter: Letter,
    now: u128,
) -> bool {
    exists|i: int|
        0 <= i < senders.len() && (#[trigger] senders[i]).1.remote == letter.0
            && senders[i].1.tick_sends(s, now).1.contains(letter.1)
}

/// Whether a letter comes from a download of a list that has not ended.
pub open spec fn is_from_receiver(
    receivers: Seq<(u16, ReceiverView)>,
    s: Settings,
    letter: Letter,
    now: u128,
) -> bool {
    exists|i: int|
        0 <= i < receivers.len() && (#[trigger] receivers[i]).1.remote == letter.0
            && receivers[i].1.outcome is None && receivers[i].1.tick_sends(s, now).contains(
            letter.1,
        )
}

proof fn addressed_holds(to: Endpoint, batch: Seq<MessageView>, letter: Letter)
    ensures
        addressed(to, batch).contains(letter) == (letter.0 == to && batch.contains(letter.1)),
{
    let all = addressed(to, batch);
    if all.contains(letter) {
        let i = choose|i: int| 0 <= i < all.len() && all[i] == letter;
        assert(batch[i] == letter.1);
    }
    if letter.0 == to && batch.contains(letter.1) {
        let i = choose|i: int| 0 <= i < batch.len() && batch[i] == letter.1;
        assert(all[i] == letter);
    }
}

proof fn joined_holds<T>(a: Seq<T>, b: Seq<T>, x: T)
    ensures
        (a + b).contains(x) == (a.contains(x) || b.contains(x)),
{
    let all = a + b;
    if a.contains(x) {
        let i = choose|i: int| 0 <= i < a.len() && a[i] == x;
        assert(all[i] == x);
    }
    if b.contains(x) {
        let i = choose|i: int| 0 <= i < b.len() && b[i] == x;
        assert(all[a.len() + i] == x);
    }
    if all.contains(x) {
        let i = choose|i: int| 0 <= i < all.len() && all[i] == x;
        if i < a.len() {
            assert(a[i] == x);
        } else {
            assert(b[i - a.len()] == x);
        }
    }
}

proof fn senders_mail(senders: Seq<(u16, SenderView)>, s: Settings, letter: Letter, now: u128)
    ensures
        ticked_senders(senders, s, now).2.contains(letter) == is_from_sender(
            senders,
            s,
            letter,
            now,
        ),
    decreases senders.len(),
{
    if senders.len() > 0 {
        let front = senders.drop_last();
        let v = senders.last().1;
        senders_mail(front, s, letter, now);
        addressed_holds(v.remote, v.tick_sends(s, now).1, letter);
        joined_holds(
            ticked_senders(front, s, now).2,
            addressed(v.remote, v.tick_sends(s, now).1),
            letter,
        );
        if is_from_sender(front, s, letter, now) {
            let i = choose|i: int|
                0 <= i < front.len() && (#[trigger] front[i]).1.remote == letter.0
                    && front[i].1.tick_sends(s, now).1.contains(letter.1);
            assert(senders[i] == front[i]);
        }
        if is_from_sender(senders, s, letter, now) {
            let i = choose|i: int|
                0 <= i < senders.len() && (#[trigger] senders[i]).1.remote == letter.0
                    && senders[i].1.tick_sends(s, now).1.contains(letter.1);
            if i < front.len() {
                assert(front[i] == senders[i]);
            }
        }
        if letter.0 == v.remote && v.tick_sends(s, now).1.contains(letter.1) {
            assert(senders[senders.len() - 1].1 == v);
        }
    }
}

proof fn receivers_mail(
    receivers: Seq<(u16, ReceiverView)>,
    s: Settings,
    letter: Letter,
    now: u128,
)
    ensures
        ticked_receivers(receivers, s, now).1.contains(letter) == is_from_receiver(
            receivers,
            s,
            letter,
            now,
        ),
    decreases receivers.len(),
{
    if receivers.len() > 0 {
        let front = receivers.drop_last();
        let v = receivers.last().1;
        receivers_mail(front, s, letter, now);
        addressed_holds(v.remote, v.tick_sends(s, now), letter);
        joined_holds(
            ticked_receivers(front, s, now).1,
            addressed(v.remote, v.tick_sends(s, now)),
            letter,
        );
        if is_from_receiver(front, s, letter, now) {
            let i = choose|i: int|
                0 <= i < front.len() && (#[trigger] front[i]).1.remote == letter.0
                    && front[i].1.outcome is None && front[i].1.tick_sends(s, now).contains(
                    letter.1,
                );
            assert(receivers[i] == front[i]);
        }
        if is_from_receiver(receivers, s, letter, now) {
            let i = choose|i: int|
                0 <= i < receivers.len() && (#[trigger] receivers[i]).1.remote == letter.0
                    && receivers[i].1.outcome is None && receivers[i].1.tick_sends(
                    s,
                    now,
                ).contains(letter.1);
            if i < front.len() {
                assert(front[i] == receivers[i]);
            }
        }
        if letter.0 == v.remote && v.outcome is None && v.tick_sends(s, now).contains(letter.1) {
            assert(receivers[receivers.len() - 1].1 == v);
        }
    }
}

/// What a tick sends is exactly what the transfers send, each to the peer that
/// it is with.
pub proof fn ticks_send_what_transfers_send(v: RegistryView, letter: Letter, now: u128)
    ensures
        v.tick_sends(now).contains(letter) <==> is_from_sender(
            v.senders,
            v.settings,
            letter,
            now,
        ) || is_from_receiver(v.receivers, v.settings, letter, now),
{
    senders_mail(v.senders, v.settings, letter, now);
    receivers_mail(v.receivers, v.settings, letter, now);
    joined_holds(
        ticked_senders(v.senders, v.settings, now).2,
        ticked_receivers(v.receivers, v.settings, now).1,
        letter,
    );
}

/// A download begins in a definite state, under its own number: nothing has
/// come, its source has the time for a first response, and no other download is
/// touched.
pub proof fn downloads_begin_empty(
    v: RegistryView,
    id: u16,
    remote: Endpoint,
    filename: Seq<char>,
    now: u128,
)
    requires
        now <= u128::MAX - 0x1_0000_0000_0000_0000_0000_0000,
    ensures
        ({
            let w = v.pulling(id, remote, filename, now);
            &&& lookup(w.receivers, id) matches Some(r) && {
                &&& r.transfer_id == id
                &&& r.remote == remote
                &&& r.filename == filename
                &&& r.outcome is None
                &&& r.received == 0
                &&& r.total is None
                &&& r.range is None
                &&& r.retry_count == 0
                &&& r.started_at == now
                &&& !r.request_resent && !r.unresponsive && !r.not_found
                &&& r.first_response_deadline == now + v.settings.first_timeout_ms * 1_000_000
                &&& r.quiet_deadline == now + v.settings.quiet_ms * 1_000_000
                &&& r.deadline == now + v.settings.quiet_ms * 1_000_000
            }
            &&& forall|other: u16| other != id ==> #[trigger] lookup(w.receivers, other) == lookup(
                v.receivers,
                other,
            )
            &&& w.senders == v.senders
        }),
{
    let r = ReceiverView::started(id, remote, filename, v.settings, now);
    crate::table::lookup_after_put(v.receivers, id, r, id);
    assert forall|other: u16| other != id implies #[trigger] lookup(
        v.pulling(id, remote, filename, now).receivers,
        other,
    ) == lookup(v.receivers, other) by {
        crate::table::lookup_after_put(v.receivers, id, r, other);
    }
}

/// A number that is free is not 0, and no transfer has it: a pull under it leaves
/// every other transfer as it is.
pub proof fn free_numbers_clash_with_none(
    v: RegistryView,
    id: u16,
    remote: Endpoint,
    filename: Seq<char>,
    other: u16,
    now: u128,
)
    requires
        v.is_free(id),
    ensures
        id != 0,
        lookup(v.senders, id) is None,
        lookup(v.receivers, id) is None,
        ({
            let w = v.pulling(id, remote, filename, now);
            &&& w.senders == v.senders
            &&& lookup(v.receivers, other) is Some ==> lookup(w.receivers, other) == lookup(
                v.receivers,
                other,
            )
        }),
{
    let r = ReceiverView::started(id, remote, filename, v.settings, now);
    lookup_after_put(v.receivers, id, r, other);
}

} // verus!
