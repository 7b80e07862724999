//! The transfers of a node, in both directions.
use vstd::prelude::*;
use crate::endpoint::Endpoint;
use crate::protocol::{
    messages, AckType, Message, MessageView, SegmentAvailability,
};
use crate::receiver::{outcome_of, ReceiverTransfer, ReceiverView, Step, StepView};
use crate::sender::{SenderTransfer, SenderView};
use crate::table::{
    distinct, has_key, lookup, lookup_after_removed, position, position_is_first, put,
    put_keeps_distinct, removed, Table,
};
use crate::text::{push_text, string_of};
use crate::transfer::{
    is_valid_filename, valid_filename, Settings, MAX_CONCURRENT_TRANSFERS, SENDER_RETRY_LIMIT,
};

verus! {

/// Outcomes the node layer turns into peer stats.
#[derive(Clone, Copy, Debug, PartialEq, Eq, Structural)]
pub enum RegEvent {
    Served { src: Endpoint, bytes: u64 },
    NotFound { src: Endpoint },
    SenderFailed { src: Endpoint },
}

/// A message and where it goes.
pub type Letter = (Endpoint, MessageView);

/// The models of a list of addressed messages.
pub open spec fn letters(v: Seq<(Endpoint, Message)>) -> Seq<Letter> {
    v.map_values(|e: (Endpoint, Message)| (e.0, e.1@))
}

/// The same messages, all to one peer.
pub open spec fn addressed(to: Endpoint, m: Seq<MessageView>) -> Seq<Letter> {
    m.map_values(|x: MessageView| (to, x))
}

pub(crate) fn address(out: &mut Vec<(Endpoint, Message)>, to: Endpoint, batch: Vec<Message>)
    ensures
        letters(final(out)@) == letters(old(out)@) + addressed(to, messages(batch@)),
{
    let ghost start = letters(out@);
    let ghost all = messages(batch@);
    let mut batch = batch;
    let mut i: usize = 0;
    let n: usize = batch.len();
    let mut back: Vec<Message> = Vec::new();
    // turned round so that each message can be taken off the end
    while batch.len() > 0
        invariant
            all.len() == n,
            batch@.len() + back@.len() == n,
            forall|j: int| 0 <= j < batch@.len() ==> (#[trigger] batch@[j])@ == all[j],
            forall|j: int| 0 <= j < back@.len() ==> (#[trigger] back@[j])@ == all[n - 1 - j],
        decreases batch@.len(),
    {
        if let Some(m) = batch.pop() {
            back.push(m);
        }
    }
    while back.len() > 0
        invariant
            all.len() == n,
            i + back@.len() == n,
            forall|j: int| 0 <= j < back@.len() ==> (#[trigger] back@[j])@ == all[n - 1 - j],
            letters(out@) == start + addressed(to, all.take(i as int)),
        decreases back@.len(),
    {
        if let Some(m) = back.pop() {
            let ghost before = letters(out@);
            out.push((to, m));
            proof {
                assert(letters(out@) =~= before.push((to, m@)));
                assert(m@ == all[i as int]);
                assert(letters(out@) =~= start + addressed(to, all.take(i + 1)));
            }
            i = i + 1;
        }
    }
    proof {
        assert(all.take(n as int) =~= all);
    }
}

/// All transfers of a node.
pub struct TransferRegistry {
    settings: Settings,
    senders: Table<u16, SenderTransfer>,
    receivers: Table<u16, ReceiverTransfer>,
    events: Vec<RegEvent>,
}

/// The model of a [`TransferRegistry`].
pub struct RegistryView {
    pub settings: Settings,
    pub senders: Seq<(u16, SenderView)>,
    pub receivers: Seq<(u16, ReceiverView)>,
    pub events: Seq<RegEvent>,
}

impl View for TransferRegistry {
    type V = RegistryView;

    closed spec fn view(&self) -> RegistryView {
        RegistryView {
            settings: self.settings,
            senders: self.senders@,
            receivers: self.receivers@,
            events: self.events@,
        }
    }
}

/// Every sending transfer is in order.
pub open spec fn senders_wf(senders: Seq<(u16, SenderView)>) -> bool {
    forall|i: int| 0 <= i < senders.len() ==> (#[trigger] senders[i]).1.wf()
}

/// Every receiving transfer is in order.
pub open spec fn receivers_wf(receivers: Seq<(u16, ReceiverView)>) -> bool {
    forall|i: int| 0 <= i < receivers.len() ==> (#[trigger] receivers[i]).1.wf()
}

/// The senders after a tick, what they report, and what they send.
pub open spec fn ticked_senders(senders: Seq<(u16, SenderView)>, s: Settings, now: u128) -> (
    Seq<(u16, SenderView)>,
    Seq<RegEvent>,
    Seq<Letter>,
)
    decreases senders.len(),
{
    if senders.len() == 0 {
        (Seq::empty(), Seq::empty(), Seq::empty())
    } else {
        let (kept, events, out) = ticked_senders(senders.drop_last(), s, now);
        let (id, v) = senders.last();
        let (w, sent) = v.tick_sends(s, now);
        let more = out + addressed(v.remote, sent);
        if w.ack_overdue(now) {
            if w.retry_count >= SENDER_RETRY_LIMIT {
                (kept, events.push(RegEvent::SenderFailed { src: v.remote }), more)
            } else {
                (kept.push((id, w.resending(now))), events, more)
            }
        } else {
            (kept.push((id, w)), events, more)
        }
    }
}

/// The receivers after a tick, and what they send. One that has ended stays
/// until its grace is over.
pub open spec fn ticked_receivers(receivers: Seq<(u16, ReceiverView)>, s: Settings, now: u128) -> (
    Seq<(u16, ReceiverView)>,
    Seq<Letter>,
)
    decreases receivers.len(),
{
    if receivers.len() == 0 {
        (Seq::empty(), Seq::empty())
    } else {
        let (kept, out) = ticked_receivers(receivers.drop_last(), s, now);
        let (id, v) = receivers.last();
        if v.outcome is Some {
            if now >= v.deadline {
                (kept, out)
            } else {
                (kept.push((id, v)), out)
            }
        } else {
            (
                kept.push((id, v.ticked(s, now))),
                out + addressed(v.remote, v.tick_sends(s, now)),
            )
        }
    }
}

/// The deadlines of all transfers.
pub open spec fn deadlines(v: RegistryView) -> Seq<u128> {
    v.senders.map_values(|e: (u16, SenderView)| e.1.deadline()) + v.receivers.map_values(
        |e: (u16, ReceiverView)| e.1.deadline,
    )
}

/// The earliest of the instants, if there is one.
pub open spec fn is_earliest(all: Seq<u128>, t: Option<u128>) -> bool {
    match t {
        None => all.len() == 0,
        Some(t) => all.contains(t) && forall|i: int| 0 <= i < all.len() ==> t <= #[trigger] all[i],
    }
}

/// Every entry of one list whose value is in order came from the other with
/// its key.
proof fn ticked_senders_facts(senders: Seq<(u16, SenderView)>, s: Settings, now: u128)
    requires
        senders_wf(senders),
        distinct(senders),
    ensures
        ({
            let kept = ticked_senders(senders, s, now).0;
            &&& senders_wf(kept)
            &&& distinct(kept)
            &&& kept.len() <= senders.len()
            &&& forall|i: int|
                0 <= i < kept.len() ==> exists|j: int|
                    0 <= j < senders.len() && (#[trigger] senders[j]).0 == (#[trigger] kept[i]).0
        }),
    decreases senders.len(),
{
    if senders.len() > 0 {
        let rest = senders.drop_last();
        assert forall|i: int| 0 <= i < rest.len() implies (#[trigger] rest[i]).1.wf() by {
            assert(senders[i].1.wf());
        }
        assert forall|i: int, j: int| 0 <= i < j < rest.len() implies (#[trigger] rest[i]).0 != (
        #[trigger] rest[j]).0 by {
            assert(senders[i].0 != senders[j].0);
        }
        ticked_senders_facts(rest, s, now);
        let before = ticked_senders(rest, s, now).0;
        let kept = ticked_senders(senders, s, now).0;
        let last = senders[senders.len() - 1];
        assert(last.1.wf());
        assert forall|i: int| 0 <= i < kept.len() implies exists|j: int|
            0 <= j < senders.len() && (#[trigger] senders[j]).0 == (#[trigger] kept[i]).0 by {
            if i < before.len() {
                assert(kept[i] == before[i]);
                let j = choose|j: int|
                    0 <= j < rest.len() && (#[trigger] rest[j]).0 == before[i].0;
                assert(rest[j].0 == before[i].0);
                assert(senders[j].0 == kept[i].0);
            } else {
                assert(senders[senders.len() - 1].0 == kept[i].0);
            }
        }
        assert forall|i: int, j: int| 0 <= i < j < kept.len() implies (#[trigger] kept[i]).0 != (
        #[trigger] kept[j]).0 by {
            if j < before.len() {
                assert(before[i].0 != before[j].0);
            } else {
                assert(kept[i] == before[i]);
                let m = choose|m: int|
                    0 <= m < rest.len() && (#[trigger] rest[m]).0 == before[i].0;
                assert(rest[m].0 == before[i].0);
                assert(senders[m].0 != senders[senders.len() - 1].0);
            }
        }
        assert forall|i: int| 0 <= i < kept.len() implies (#[trigger] kept[i]).1.wf() by {
            if i < before.len() {
                assert(kept[i] == before[i]);
            }
        }
    }
}

proof fn ticked_receivers_facts(receivers: Seq<(u16, ReceiverView)>, s: Settings, now: u128)
    requires
        receivers_wf(receivers),
        distinct(receivers),
    ensures
        ({
            let kept = ticked_receivers(receivers, s, now).0;
            &&& receivers_wf(kept)
            &&& distinct(kept)
            &&& kept.len() <= receivers.len()
            &&& forall|i: int|
                0 <= i < kept.len() ==> exists|j: int|
                    0 <= j < receivers.len() && (#[trigger] receivers[j]).0 == (#[trigger] kept[i]).0
        }),
    decreases receivers.len(),
{
    if receivers.len() > 0 {
        let rest = receivers.drop_last();
        assert forall|i: int| 0 <= i < rest.len() implies (#[trigger] rest[i]).1.wf() by {
            assert(receivers[i].1.wf());
        }
        assert forall|i: int, j: int| 0 <= i < j < rest.len() implies (#[trigger] rest[i]).0 != (
        #[trigger] rest[j]).0 by {
            assert(receivers[i].0 != receivers[j].0);
        }
        ticked_receivers_facts(rest, s, now);
        let before = ticked_receivers(rest, s, now).0;
        let kept = ticked_receivers(receivers, s, now).0;
        let last = receivers[receivers.len() - 1];
        assert(last.1.wf());
        assert forall|i: int| 0 <= i < kept.len() implies exists|j: int|
            0 <= j < receivers.len() && (#[trigger] receivers[j]).0 == (#[trigger] kept[i]).0 by {
            if i < before.len() {
                assert(kept[i] == before[i]);
                let j = choose|j: int|
                    0 <= j < rest.len() && (#[trigger] rest[j]).0 == before[i].0;
                assert(rest[j].0 == before[i].0);
                assert(receivers[j].0 == kept[i].0);
            } else {
                assert(receivers[receivers.len() - 1].0 == kept[i].0);
            }
        }
        assert forall|i: int, j: int| 0 <= i < j < kept.len() implies (#[trigger] kept[i]).0 != (
        #[trigger] kept[j]).0 by {
            if j < before.len() {
                assert(before[i].0 != before[j].0);
            } else {
                assert(kept[i] == before[i]);
                let m = choose|m: int|
                    0 <= m < rest.len() && (#[trigger] rest[m]).0 == before[i].0;
                assert(rest[m].0 == before[i].0);
                assert(receivers[m].0 != receivers[receivers.len() - 1].0);
            }
        }
        assert forall|i: int| 0 <= i < kept.len() implies (#[trigger] kept[i]).1.wf() by {
            if i < before.len() {
                assert(kept[i] == before[i]);
            } else if last.1.outcome is None {
                last.1.tick_keeps_order(s, now);
            }
        }
    }
}

impl RegistryView {
    /// Every transfer is in order, no number is used twice in one direction,
    /// and there are no more transfers than the limit.
    pub open spec fn wf(self) -> bool {
        &&& senders_wf(self.senders)
        &&& receivers_wf(self.receivers)
        &&& distinct(self.senders)
        &&& distinct(self.receivers)
        &&& self.active() <= MAX_CONCURRENT_TRANSFERS
    }

    /// The number of transfers.
    pub open spec fn active(self) -> nat {
        self.senders.len() + self.receivers.len()
    }

    /// Whether a number is free for a new download.
    pub open spec fn is_free(self, id: u16) -> bool {
        id != 0 && !has_key(self.senders, id) && !has_key(self.receivers, id)
    }

    /// The first free number from the `m`-th after `seed` on.
    pub open spec fn free_from(self, seed: u16, m: int) -> u16
        decreases 34 - m,
    {
        if self.is_free(nth_id(seed, m)) || m >= 33 {
            nth_id(seed, m)
        } else {
            self.free_from(seed, m + 1)
        }
    }

    /// A number for a new download: `seed`, or the first free one after it.
    pub open spec fn fresh(self, seed: u16) -> u16 {
        self.free_from(seed, 0)
    }

    /// Whether a request for a file is looked at: the name is plain and there
    /// is room for one more transfer.
    pub open spec fn admits(self, filename: Seq<char>) -> bool {
        is_valid_filename(filename) && self.active() < MAX_CONCURRENT_TRANSFERS
    }

    /// The reply that a file is not there, or not for now.
    pub open spec fn not_found(
        transfer_id: u16,
        availability: Option<SegmentAvailability>,
        retryable: bool,
    ) -> MessageView {
        MessageView::SegmentNotFound { transfer_id, availability, retryable }
    }

    /// The registry after a request for a file has been answered with the
    /// file, or refused.
    pub open spec fn served(
        self,
        transfer_id: u16,
        filename: Seq<char>,
        src: Endpoint,
        file: Option<Seq<u8>>,
        now: u128,
    ) -> Self {
        if self.admits(filename) && file is Some {
            RegistryView {
                senders: put(
                    self.senders,
                    transfer_id,
                    SenderView::started(transfer_id, src, file->0, now),
                ),
                ..self
            }
        } else {
            self.refused(src)
        }
    }

    /// The registry after a refusal.
    pub open spec fn refused(self, src: Endpoint) -> Self {
        RegistryView { events: self.events.push(RegEvent::NotFound { src }), ..self }
    }

    /// The registry after a download has begun.
    pub open spec fn pulling(self, id: u16, remote: Endpoint, filename: Seq<char>, now: u128) -> Self {
        RegistryView {
            receivers: put(
                self.receivers,
                id,
                ReceiverView::started(id, remote, filename, self.settings, now),
            ),
            ..self
        }
    }

    /// The registry with another state of a download.
    pub open spec fn with_receiver(self, id: u16, v: ReceiverView) -> Self {
        RegistryView { receivers: put(self.receivers, id, v), ..self }
    }

    /// The registry after a packet.
    pub open spec fn content(
        self,
        id: u16,
        k: u16,
        total: u16,
        data: Seq<u8>,
        now: u128,
    ) -> (Self, StepView) {
        match lookup(self.receivers, id) {
            Some(v) => {
                let (w, step) = v.content(self.settings, k, total, data, now);
                (self.with_receiver(id, w), step)
            },
            None => (self, StepView::Idle),
        }
    }

    /// The registry after an ACK: a transfer that is complete is freed.
    pub open spec fn acked(
        self,
        id: u16,
        ack_type: AckType,
        next_start: u16,
        next_count: u16,
        now: u128,
    ) -> Self {
        match lookup(self.senders, id) {
            Some(v) => if ack_type == AckType::Complete {
                RegistryView {
                    senders: removed(self.senders, id),
                    events: self.events.push(
                        RegEvent::Served { src: v.remote, bytes: v.file.len() as u64 },
                    ),
                    ..self
                }
            } else {
                RegistryView {
                    senders: put(
                        self.senders,
                        id,
                        v.acked(self.settings, next_start, next_count, now),
                    ),
                    ..self
                }
            },
            None => self,
        }
    }

    /// The registry after a peer has refused a file.
    pub open spec fn refused_by_peer(self, id: u16, retryable: bool, now: u128) -> Self {
        match lookup(self.receivers, id) {
            Some(v) => self.with_receiver(
                id,
                (ReceiverView { not_found: true, retryable, ..v }).failed(
                    "peer does not have "@ + v.filename,
                    now,
                ),
            ),
            None => self,
        }
    }

    /// The registry after a tick.
    pub open spec fn ticked(self, now: u128) -> Self {
        let (senders, events, _) = ticked_senders(self.senders, self.settings, now);
        RegistryView {
            senders,
            receivers: ticked_receivers(self.receivers, self.settings, now).0,
            events: self.events + events,
            ..self
        }
    }

    /// What a tick sends.
    pub open spec fn tick_sends(self, now: u128) -> Seq<Letter> {
        ticked_senders(self.senders, self.settings, now).2 + ticked_receivers(
            self.receivers,
            self.settings,
            now,
        ).1
    }

    /// The number of files on their way to a peer.
    pub open spec fn load(self, peer: Endpoint) -> nat {
        sending_to(self.senders, peer)
    }
}

/// How many senders serve a peer.
pub open spec fn sending_to(senders: Seq<(u16, SenderView)>, peer: Endpoint) -> nat
    decreases senders.len(),
{
    if senders.len() == 0 {
        0
    } else {
        sending_to(senders.drop_last(), peer) + if senders.last().1.remote == peer {
            1nat
        } else {
            0nat
        }
    }
}

proof fn put_len<K, V>(s: Seq<(K, V)>, k: K, v: V)
    ensures
        put(s, k, v).len() <= s.len() + 1,
        has_key(s, k) ==> put(s, k, v).len() == s.len(),
{
    position_is_first(s, k, 0);
}

/// What a clock shows, folded to a number for a transfer.
pub open spec fn folded(nanos: u128) -> u16 {
    ((nanos % 0x1_0000) as u16) ^ ((nanos / 0x1_0000 % 0x1_0000) as u16)
}

/// A number for a transfer from the nanoseconds that a clock shows.
pub fn random_id(nanos: u128) -> (id: u16)
    ensures
        id == folded(nanos),
{
    ((nanos % 0x1_0000) as u16) ^ ((nanos / 0x1_0000 % 0x1_0000) as u16)
}

impl TransferRegistry {
    /// A registry without transfers.
    pub fn new(settings: Settings) -> (r: Self)
        ensures
            r@ == (RegistryView {
                settings,
                senders: Seq::empty(),
                receivers: Seq::empty(),
                events: Seq::empty(),
            }),
            r@.wf(),
    {
        TransferRegistry {
            settings,
            senders: Table::new(),
            receivers: Table::new(),
            events: Vec::new(),
        }
    }

    /// Take recorded serve outcomes (drained by the node layer).
    pub fn drain_events(&mut self) -> (events: Vec<RegEvent>)
        ensures
            events@ == old(self)@.events,
            final(self)@ == (RegistryView { events: Seq::empty(), ..old(self)@ }),
    {
        let mut events: Vec<RegEvent> = Vec::new();
        std::mem::swap(&mut self.events, &mut events);
        events
    }

    /// The earliest deadline of any transfer.
    pub fn next_deadline(&self) -> (t: Option<u128>)
        ensures
            is_earliest(deadlines(self@), t),
    {
        let ghost all = deadlines(self@);
        let n: usize = self.senders.len();
        let m: usize = self.receivers.len();
        let mut best: Option<u128> = None;
        let mut i: usize = 0;
        while i < n
            invariant
                i <= n,
                n == self.senders@.len(),
                all == deadlines(self@),
                is_earliest(all.take(i as int), best),
            decreases n - i,
        {
            let t = self.senders.value_at(i).deadline();
            proof {
                earliest_grows(all, i as int, best);
                assert(all[i as int] == t);
            }
            best = match best {
                Some(b) => Some(
                    if b <= t {
                        b
                    } else {
                        t
                    },
                ),
                None => Some(t),
            };
            i = i + 1;
        }
        let mut j: usize = 0;
        while j < m
            invariant
                j <= m,
                n == self.senders@.len(),
                m == self.receivers@.len(),
                all == deadlines(self@),
                is_earliest(all.take(n + j), best),
            decreases m - j,
        {
            let t = self.receivers.value_at(j).deadline();
            proof {
                earliest_grows(all, n + j, best);
                assert(all[n + j] == t);
            }
            best = match best {
                Some(b) => Some(
                    if b <= t {
                        b
                    } else {
                        t
                    },
                ),
                None => Some(t),
            };
            j = j + 1;
        }
        proof {
            assert(all.take(all.len() as int) =~= all);
        }
        best
    }

    /// The number of transfers.
    pub fn active_count(&self) -> (n: usize)
        requires
            self@.wf(),
        ensures
            n == self@.active(),
    {
        self.senders.len() + self.receivers.len()
    }

    /// The number of files on their way to a peer.
    pub fn sender_load(&self, peer: Endpoint) -> (n: usize)
        ensures
            n == self@.load(peer),
            n <= self@.senders.len(),
    {
        let mut n: usize = 0;
        let mut i: usize = 0;
        proof {
            assert(self.senders@.take(0).len() == 0);
        }
        while i < self.senders.len()
            invariant
                i <= self.senders@.len(),
                n == sending_to(self.senders@.take(i as int), peer),
                n <= i,
            decreases self.senders@.len() - i,
        {
            proof {
                let next = self.senders@.take(i + 1);
                assert(next.drop_last() =~= self.senders@.take(i as int));
                assert(next.last() == self.senders@[i as int]);
            }
            if self.senders.value_at(i).remote() == peer {
                n = n + 1;
            }
            i = i + 1;
        }
        proof {
            assert(self.senders@.take(i as int) =~= self.senders@);
        }
        n
    }

    /// A free number: `seed`, or the first free one after it.
    pub fn fresh_id(&self, seed: u16) -> (id: u16)
        requires
            self@.wf(),
        ensures
            id == self@.fresh(seed),
            self@.is_free(id),
    {
        let mut id: u16 = seed;
        let mut n: u16 = 0;
        while !(id != 0 && !self.senders.contains(&id) && !self.receivers.contains(&id))
            invariant
                self@.wf(),
                n <= 33,
                id == (seed + n) % 0x1_0000,
                self@.fresh(seed) == self@.free_from(seed, n as int),
                forall|m: int| 0 <= m < n ==> !self@.is_free(#[trigger] nth_id(seed, m)),
            decreases 33 - n,
        {
            proof {
                assert(nth_id(seed, n as int) == id);
                if n == 33 {
                    taken_ids_are_few(self@, seed);
                    assert(false);
                }
            }
            id = if id == 0xffff {
                0
            } else {
                id + 1
            };
            n = n + 1;
        }
        assert(nth_id(seed, n as int) == id);
        id
    }

    /// Whether a request for a file is looked at.
    pub fn admits(&self, filename: &str) -> (r: bool)
        requires
            self@.wf(),
        ensures
            r == self@.admits(filename@),
    {
        valid_filename(filename) && self.active_count() < MAX_CONCURRENT_TRANSFERS
    }

    /// Serve a request for a file from `src`; `file` is what reading the file
    /// gave. Gives the reply that refuses it, if it is refused.
    pub fn serve(
        &mut self,
        transfer_id: u16,
        filename: &str,
        src: Endpoint,
        file: Option<Vec<u8>>,
        inventory: Option<SegmentAvailability>,
        now: u128,
    ) -> (reply: Option<Message>)
        requires
            old(self)@.wf(),
        ensures
            final(self)@ == old(self)@.served(
                transfer_id,
                filename@,
                src,
                match file {
                    Some(f) => Some(f@),
                    None => None,
                },
                now,
            ),
            match reply {
                Some(m) => !(old(self)@.admits(filename@) && file is Some) && m@
                    == RegistryView::not_found(transfer_id, inventory, false),
                None => old(self)@.admits(filename@) && file is Some,
            },
            final(self)@.wf(),
    {
        if self.admits(filename) {
            if let Some(file) = file {
                let sender = SenderTransfer::new(transfer_id, src, file, now);
                proof {
                    put_keeps_distinct(self@.senders, transfer_id, sender@);
                    put_len(self@.senders, transfer_id, sender@);
                    position_is_first(self@.senders, transfer_id, 0);
                }
                self.senders.insert(transfer_id, sender);
                return None;
            }
        }
        Some(self.reject_not_found(transfer_id, src, inventory, false))
    }

    /// Reject a request while preserving the normal NOT_FOUND wire response
    /// and requester-side availability update. A refusal for the moment only
    /// is not counted as an absence.
    pub fn reject_not_found(
        &mut self,
        transfer_id: u16,
        src: Endpoint,
        inventory: Option<SegmentAvailability>,
        retryable: bool,
    ) -> (reply: Message)
        requires
            old(self)@.wf(),
        ensures
            final(self)@ == if retryable {
                old(self)@
            } else {
                old(self)@.refused(src)
            },
            reply@ == RegistryView::not_found(transfer_id, inventory, retryable),
            final(self)@.wf(),
    {
        if !retryable {
            self.events.push(RegEvent::NotFound { src });
        }
        Message::SegmentNotFound { transfer_id, availability: inventory, retryable }
    }

    /// Start a download from `remote`; gives the transfer id and the request
    /// to send, or nothing where there is no room.
    pub fn start_receiver(&mut self, remote: Endpoint, filename: &str, seed: u16, now: u128) -> (r:
        Option<(u16, Message)>)
        requires
            old(self)@.wf(),
        ensures
            match r {
                Some((id, m)) => {
                    &&& old(self)@.active() < MAX_CONCURRENT_TRANSFERS
                    &&& id == old(self)@.fresh(seed)
                    &&& old(self)@.is_free(id)
                    &&& final(self)@ == old(self)@.pulling(id, remote, filename@, now)
                    &&& m@ == (MessageView::SegmentRequest { transfer_id: id, filename: filename@ })
                },
                None => {
                    &&& old(self)@.active() >= MAX_CONCURRENT_TRANSFERS
                    &&& final(self)@ == old(self)@
                },
            },
            final(self)@.wf(),
    {
        if self.active_count() >= MAX_CONCURRENT_TRANSFERS {
            return None;
        }
        let id = self.fresh_id(seed);
        let settings = self.settings;
        let receiver = ReceiverTransfer::new(
            id,
            remote,
            crate::text::owned(filename),
            &settings,
            now,
        );
        proof {
            put_keeps_distinct(self@.receivers, id, receiver@);
            put_len(self@.receivers, id, receiver@);
            position_is_first(self@.receivers, id, 0);
        }
        self.receivers.insert(id, receiver);
        Some(
            (id, Message::SegmentRequest { transfer_id: id, filename: crate::text::owned(filename) }),
        )
    }

    /// Takes in a packet. A packet of an unknown transfer is ignored.
    pub fn on_content(
        &mut self,
        transfer_id: u16,
        packet_number: u16,
        total_packets: u16,
        data: Vec<u8>,
        now: u128,
    ) -> (step: Step)
        requires
            old(self)@.wf(),
        ensures
            (final(self)@, step@) == old(self)@.content(
                transfer_id,
                packet_number,
                total_packets,
                data@,
                now,
            ),
            final(self)@.wf(),
    {
        let settings = self.settings;
        proof {
            position_is_first(self@.receivers, transfer_id, 0);
        }
        match self.receivers.find(&transfer_id) {
            Some(i) => {
                let step = self.receivers.value_mut(i).on_content(
                    &settings,
                    packet_number,
                    total_packets,
                    data,
                    now,
                );
                proof {
                    put_keeps_distinct(
                        old(self)@.receivers,
                        transfer_id,
                        self@.receivers[i as int].1,
                    );
                }
                step
            },
            None => Step::Idle,
        }
    }

    /// Takes note that the file of a download has been saved; gives the
    /// final ACK and where it goes.
    pub fn on_saved(&mut self, transfer_id: u16, now: u128) -> (m: Option<(Endpoint, Message)>)
        requires
            old(self)@.wf(),
        ensures
            match lookup(old(self)@.receivers, transfer_id) {
                Some(v) => final(self)@ == old(self)@.with_receiver(transfer_id, v.saved(now)) && (
                m matches Some((to, x)) && to == v.remote && x@ == v.complete()),
                None => final(self)@ == old(self)@ && m is None,
            },
            final(self)@.wf(),
    {
        proof {
            position_is_first(self@.receivers, transfer_id, 0);
        }
        match self.receivers.find(&transfer_id) {
            Some(i) => {
                let to = self.receivers.value_at(i).remote();
                let m = self.receivers.value_mut(i).on_saved(now);
                proof {
                    put_keeps_distinct(
                        old(self)@.receivers,
                        transfer_id,
                        self@.receivers[i as int].1,
                    );
                }
                Some((to, m))
            },
            None => None,
        }
    }

    /// Takes note that the file of a download could not be saved.
    pub fn on_save_failed(&mut self, transfer_id: u16, path: &str, error: &str, now: u128)
        requires
            old(self)@.wf(),
        ensures
            final(self)@ == match lookup(old(self)@.receivers, transfer_id) {
                Some(v) => old(self)@.with_receiver(
                    transfer_id,
                    v.failed("failed to write "@ + path@ + ": "@ + error@, now),
                ),
                None => old(self)@,
            },
            final(self)@.wf(),
    {
        proof {
            position_is_first(self@.receivers, transfer_id, 0);
        }
        if let Some(i) = self.receivers.find(&transfer_id) {
            self.receivers.value_mut(i).on_save_failed(path, error, now);
            proof {
                put_keeps_distinct(old(self)@.receivers, transfer_id, self@.receivers[i as int].1);
            }
        }
    }

    /// Handle an ACK. An ACK of an unknown transfer is ignored.
    pub fn on_ack(
        &mut self,
        transfer_id: u16,
        ack_type: AckType,
        next_start: u16,
        next_count: u16,
        now: u128,
    )
        requires
            old(self)@.wf(),
        ensures
            final(self)@ == old(self)@.acked(transfer_id, ack_type, next_start, next_count, now),
            final(self)@.wf(),
    {
        let settings = self.settings;
        proof {
            position_is_first(self@.senders, transfer_id, 0);
        }
        if let Some(i) = self.senders.find(&transfer_id) {
            let ghost v = self@.senders[i as int].1;
            let done = self.senders.value_mut(i).on_ack(
                &settings,
                ack_type,
                next_start,
                next_count,
                now,
            );
            if done {
                proof {
                    assert(self@.senders =~= old(self)@.senders);
                    lookup_after_removed(old(self)@.senders, transfer_id, transfer_id);
                }
                let src = self.senders.value_at(i).remote();
                let bytes = self.senders.value_at(i).payload_bytes();
                self.events.push(RegEvent::Served { src, bytes });
                let freed = self.senders.remove(&transfer_id);
            } else {
                proof {
                    put_keeps_distinct(
                        old(self)@.senders,
                        transfer_id,
                        self@.senders[i as int].1,
                    );
                }
            }
        }
    }

    /// Takes note that a peer has refused a file; gives the name of the file.
    pub fn on_not_found(&mut self, transfer_id: u16, retryable: bool, now: u128) -> (name: Option<
        String,
    >)
        requires
            old(self)@.wf(),
        ensures
            final(self)@ == old(self)@.refused_by_peer(transfer_id, retryable, now),
            match name {
                Some(f) => lookup(old(self)@.receivers, transfer_id) matches Some(v) && f@
                    == v.filename,
                None => lookup(old(self)@.receivers, transfer_id) is None,
            },
            final(self)@.wf(),
    {
        proof {
            position_is_first(self@.receivers, transfer_id, 0);
        }
        match self.receivers.find(&transfer_id) {
            Some(i) => {
                let name = crate::text::owned(self.receivers.value_at(i).filename());
                let mut reason: Vec<char> = Vec::new();
                push_text(&mut reason, "peer does not have ");
                push_text(&mut reason, name.as_str());
                proof {
                    assert(reason@ =~= "peer does not have "@ + name@);
                }
                let r = self.receivers.value_mut(i);
                r.mark_not_found(retryable);
                r.fail(string_of(&reason), now);
                proof {
                    put_keeps_distinct(
                        old(self)@.receivers,
                        transfer_id,
                        self@.receivers[i as int].1,
                    );
                }
                Some(name)
            },
            None => None,
        }
    }

    /// Where a download comes from, and the name of its file.
    pub fn receiver_source(&self, id: u16) -> (r: Option<(Endpoint, String)>)
        ensures
            match r {
                Some((remote, filename)) => lookup(self@.receivers, id) matches Some(v) && remote
                    == v.remote && filename@ == v.filename,
                None => lookup(self@.receivers, id) is None,
            },
    {
        match self.receivers.get(&id) {
            Some(r) => Some((r.remote(), crate::text::owned(r.filename()))),
            None => None,
        }
    }

    /// How a download ended.
    pub fn receiver_outcome(&self, id: u16) -> (o: Option<Result<(), String>>)
        ensures
            outcome_of(o) == match lookup(self@.receivers, id) {
                Some(v) => v.outcome,
                None => None,
            },
    {
        match self.receivers.get(&id) {
            Some(r) => r.outcome(),
            None => None,
        }
    }

    /// Whether the receiver failed because its peer never answered.
    pub fn receiver_unresponsive(&self, id: u16) -> (r: bool)
        ensures
            r == (lookup(self@.receivers, id) matches Some(v) && v.unresponsive),
    {
        match self.receivers.get(&id) {
            Some(r) => r.unresponsive(),
            None => false,
        }
    }

    /// Whether the receiver failed because the peer lacks the segment.
    pub fn receiver_not_found(&self, id: u16) -> (r: bool)
        ensures
            r == (lookup(self@.receivers, id) matches Some(v) && v.not_found),
    {
        match self.receivers.get(&id) {
            Some(r) => r.not_found(),
            None => false,
        }
    }

    /// Whether the receiver failed because the peer refused the segment for
    /// the moment only.
    pub fn receiver_retryable_not_found(&self, id: u16) -> (r: bool)
        ensures
            r == (lookup(self@.receivers, id) matches Some(v) && v.not_found && v.retryable),
    {
        match self.receivers.get(&id) {
            Some(r) => r.not_found() && r.retryable(),
            None => false,
        }
    }

    /// Milliseconds from request to first content packet, if it got that far.
    pub fn receiver_first_packet_ms(&self, id: u16) -> (r: Option<u64>)
        ensures
            r == match lookup(self@.receivers, id) {
                Some(v) => v.first_packet_latency,
                None => None,
            },
    {
        match self.receivers.get(&id) {
            Some(r) => r.first_packet_latency_ms(),
            None => None,
        }
    }

    /// Bytes saved for a completed receiver.
    pub fn receiver_saved_bytes(&self, id: u16) -> (r: Option<u64>)
        ensures
            r == match lookup(self@.receivers, id) {
                Some(v) => v.saved_bytes,
                None => None,
            },
    {
        match self.receivers.get(&id) {
            Some(r) => r.saved_bytes(),
            None => None,
        }
    }

    /// Forgets a download.
    pub fn remove_receiver(&mut self, id: u16)
        requires
            old(self)@.wf(),
        ensures
            final(self)@ == (RegistryView {
                receivers: removed(old(self)@.receivers, id),
                ..old(self)@
            }),
            final(self)@.wf(),
    {
        proof {
            lookup_after_removed(self@.receivers, id, id);
            position_is_first(self@.receivers, id, 0);
        }
        let gone = self.receivers.remove(&id);
    }

    /// Advance all transfers whose timers have expired; gives what to send.
    pub fn tick(&mut self, now: u128) -> (out: Vec<(Endpoint, Message)>)
        requires
            old(self)@.wf(),
        ensures
            final(self)@ == old(self)@.ticked(now),
            letters(out@) == old(self)@.tick_sends(now),
            final(self)@.wf(),
    {
        proof {
            ticked_senders_facts(self@.senders, self@.settings, now);
            ticked_receivers_facts(self@.receivers, self@.settings, now);
        }
        let mut out: Vec<(Endpoint, Message)> = Vec::new();
        proof {
            assert(letters(out@) =~= Seq::<Letter>::empty());
        }
        self.tick_senders(&mut out, now);
        self.tick_receivers(&mut out, now);
        proof {
            assert(letters(out@) =~= old(self)@.tick_sends(now));
        }
        out
    }

    fn tick_senders(&mut self, out: &mut Vec<(Endpoint, Message)>, now: u128)
        requires
            senders_wf(old(self)@.senders),
        ensures
            final(self)@ == (RegistryView {
                senders: ticked_senders(old(self)@.senders, old(self)@.settings, now).0,
                events: old(self)@.events + ticked_senders(
                    old(self)@.senders,
                    old(self)@.settings,
                    now,
                ).1,
                ..old(self)@
            }),
            letters(final(out)@) == letters(old(out)@) + ticked_senders(
                old(self)@.senders,
                old(self)@.settings,
                now,
            ).2,
    {
        let settings = self.settings;
        let ghost all = self@.senders;
        let ghost events = self@.events;
        let ghost start = letters(out@);
        let mut kept: Table<u16, SenderTransfer> = Table::new();
        let ghost mut i: int = 0;
        proof {
            assert(all.skip(0) =~= all);
            assert(all.take(0).len() == 0);
            assert(self@.events =~= events + Seq::<RegEvent>::empty());
            assert(letters(out@) =~= start + Seq::<Letter>::empty());
        }
        while self.senders.len() > 0
            invariant
                0 <= i <= all.len(),
                senders_wf(all),
                self@.senders == all.skip(i),
                self@.receivers == old(self)@.receivers,
                self@.settings == settings,
                settings == old(self)@.settings,
                kept@ == ticked_senders(all.take(i), settings, now).0,
                self@.events == events + ticked_senders(all.take(i), settings, now).1,
                letters(out@) == start + ticked_senders(all.take(i), settings, now).2,
            decreases self.senders@.len(),
        {
            proof {
                assert(all.take(i + 1).drop_last() =~= all.take(i));
                assert(all.take(i + 1).last() == all[i]);
                assert(all.skip(i)[0] == all[i]);
                assert(all.skip(i).skip(1) =~= all.skip(i + 1));
            }
            if let Some((id, mut sender)) = self.senders.pop_first() {
                let ghost v = sender@;
                let (batch, result) = sender.tick(&settings, now);
                let remote = sender.remote();
                let ghost before = letters(out@);
                address(out, remote, batch);
                match result {
                    Ok(()) => {
                        kept.push_last(id, sender);
                    },
                    Err(reason) => {
                        self.events.push(RegEvent::SenderFailed { src: remote });
                    },
                }
                proof {
                    let t = ticked_senders(all.take(i + 1), settings, now);
                    assert(kept@ =~= t.0);
                    assert(self@.events =~= events + t.1);
                    assert(letters(out@) =~= start + t.2);
                }
            }
            proof {
                i = i + 1;
            }
        }
        proof {
            assert(all.take(i) =~= all);
        }
        self.senders = kept;
    }

    fn tick_receivers(&mut self, out: &mut Vec<(Endpoint, Message)>, now: u128)
        requires
            receivers_wf(old(self)@.receivers),
        ensures
            final(self)@ == (RegistryView {
                receivers: ticked_receivers(old(self)@.receivers, old(self)@.settings, now).0,
                ..old(self)@
            }),
            letters(final(out)@) == letters(old(out)@) + ticked_receivers(
                old(self)@.receivers,
                old(self)@.settings,
                now,
            ).1,
    {
        let settings = self.settings;
        let ghost all = self@.receivers;
        let ghost start = letters(out@);
        let mut kept: Table<u16, ReceiverTransfer> = Table::new();
        let ghost mut i: int = 0;
        proof {
            assert(all.skip(0) =~= all);
            assert(all.take(0).len() == 0);
            assert(letters(out@) =~= start + Seq::<Letter>::empty());
        }
        while self.receivers.len() > 0
            invariant
                0 <= i <= all.len(),
                receivers_wf(all),
                self@.receivers == all.skip(i),
                self@.senders == old(self)@.senders,
                self@.events == old(self)@.events,
                self@.settings == settings,
                settings == old(self)@.settings,
                kept@ == ticked_receivers(all.take(i), settings, now).0,
                letters(out@) == start + ticked_receivers(all.take(i), settings, now).1,
            decreases self.receivers@.len(),
        {
            proof {
                assert(all.take(i + 1).drop_last() =~= all.take(i));
                assert(all.take(i + 1).last() == all[i]);
                assert(all.skip(i)[0] == all[i]);
                assert(all.skip(i).skip(1) =~= all.skip(i + 1));
            }
            if let Some((id, mut receiver)) = self.receivers.pop_first() {
                if receiver.ended() {
                    if now < receiver.deadline() {
                        kept.push_last(id, receiver);
                    }
                } else {
                    let remote = receiver.remote();
                    let batch = receiver.on_tick(&settings, now);
                    address(out, remote, batch);
                    kept.push_last(id, receiver);
                }
                proof {
                    let t = ticked_receivers(all.take(i + 1), settings, now);
                    assert(kept@ =~= t.0);
                    assert(letters(out@) =~= start + t.1);
                }
            }
            proof {
                i = i + 1;
            }
        }
        proof {
            assert(all.take(i) =~= all);
        }
        self.receivers = kept;
    }
}

proof fn earliest_grows(all: Seq<u128>, i: int, best: Option<u128>)
    requires
        0 <= i < all.len(),
        is_earliest(all.take(i), best),
    ensures
        is_earliest(
            all.take(i + 1),
            match best {
                Some(b) => Some(
                    if b <= all[i] {
                        b
                    } else {
                        all[i]
                    },
                ),
                None => Some(all[i]),
            },
        ),
{
    let before = all.take(i);
    let next = all.take(i + 1);
    assert(next[i] == all[i]);
    assert forall|j: int| 0 <= j < i implies #[trigger] next[j] == before[j] by {}
    if let Some(b) = best {
        if b <= all[i] {
            let j = choose|j: int| 0 <= j < before.len() && before[j] == b;
            assert(next[j] == b);
        }
    }
}

/// The number `m` steps after `seed`, back at 0 after the last one.
pub open spec fn nth_id(seed: u16, m: int) -> u16 {
    ((seed + m) % 0x1_0000) as u16
}

/// The keys of a list.
pub open spec fn keys_of<V>(s: Seq<(u16, V)>) -> Seq<u16> {
    s.map_values(|e: (u16, V)| e.0)
}

/// Of 34 numbers in a row at least one is free: at most 32 are in use, and 0
/// is the only other that is not free.
proof fn taken_ids_are_few(v: RegistryView, seed: u16)
    requires
        v.wf(),
    ensures
        exists|m: int| 0 <= m < 34 && v.is_free(#[trigger] nth_id(seed, m)),
{
    if forall|m: int| 0 <= m < 34 ==> !v.is_free(#[trigger] nth_id(seed, m)) {
        let used = (keys_of(v.senders) + keys_of(v.receivers)).push(0u16);
        let ids = Seq::new(34, |m: int| nth_id(seed, m));
        assert forall|m: int| 0 <= m < 34 implies used.contains(#[trigger] ids[m]) by {
            let id = nth_id(seed, m);
            assert(!v.is_free(id));
            position_is_first(v.senders, id, 0);
            position_is_first(v.receivers, id, 0);
            if id == 0 {
                assert(used[used.len() - 1] == 0);
            } else if has_key(v.senders, id) {
                let p = position(v.senders, id)->0;
                assert(used[p] == id);
            } else {
                let p = position(v.receivers, id)->0;
                assert(used[v.senders.len() + p] == id);
            }
        }
        assert forall|i: int, j: int| 0 <= i < j < 34 implies ids[i] != ids[j] by {}
        pigeonhole(ids, used);
    }
}

/// Different items all of which occur in a list are no more than the list has.
proof fn pigeonhole(ids: Seq<u16>, used: Seq<u16>)
    requires
        forall|i: int, j: int| 0 <= i < j < ids.len() ==> ids[i] != ids[j],
        forall|m: int| 0 <= m < ids.len() ==> used.contains(#[trigger] ids[m]),
    ensures
        ids.len() <= used.len(),
    decreases ids.len(),
{
    if ids.len() > 0 {
        let last = ids.last();
        let rest = ids.drop_last();
        assert(used.contains(ids[ids.len() - 1]));
        let p = choose|p: int| 0 <= p < used.len() && used[p] == last;
        let fewer = used.remove(p);
        assert forall|m: int| 0 <= m < rest.len() implies fewer.contains(#[trigger] rest[m]) by {
            assert(used.contains(ids[m]));
            let q = choose|q: int| 0 <= q < used.len() && used[q] == ids[m];
            assert(ids[m] != ids[ids.len() - 1]);
            if q < p {
                assert(fewer[q] == rest[m]);
            } else {
                assert(fewer[q - 1] == rest[m]);
            }
        }
        pigeonhole(rest, fewer);
    }
}

} // verus!
