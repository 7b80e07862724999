//! Downloading a file.
use vstd::prelude::*;
use crate::endpoint::{endpoint_text, push_endpoint, Endpoint};
use crate::protocol::{messages, AckType, Message, MessageView};
use crate::sender::{packet, packet_within};
use crate::text::{decimal, push_decimal, push_text, string_of};
use crate::transfer::{
    adaptive_quiet, after, elapsed, later, millis, milliseconds, packets_for, quiet_wait, since,
    smaller, smooth, smoothed, Settings, COMPLETE_GRACE, INITIAL_WINDOW, MAX_WINDOW, RETRY_LIMIT,
    SEGMENT_PACKET_SIZE,
};

verus! {

/// The packets of a file as far as they have come: packet `k` at `k - 1`.
pub type Parts = Seq<Option<Seq<u8>>>;

/// The models of a list of packets.
pub open spec fn parts_of(v: Seq<Option<Vec<u8>>>) -> Parts {
    v.map_values(
        |p: Option<Vec<u8>>|
            match p {
                Some(d) => Some(d@),
                None => None,
            },
    )
}

/// How many packets have come.
pub open spec fn received(parts: Parts) -> nat
    decreases parts.len(),
{
    if parts.len() == 0 {
        0
    } else {
        received(parts.drop_last()) + if parts.last() is Some {
            1nat
        } else {
            0nat
        }
    }
}

/// Whether the packets from number `start` on, `count` of them, have come.
pub open spec fn range_received(parts: Parts, start: int, count: int) -> bool {
    forall|k: int| start <= k < start + count ==> (#[trigger] parts[k - 1]) is Some
}

/// Whether every packet has come.
pub open spec fn all_received(parts: Parts) -> bool {
    range_received(parts, 1, parts.len() as int)
}

/// As many packets as there are exactly when none is missing.
pub proof fn received_counts(parts: Parts)
    ensures
        received(parts) <= parts.len(),
        received(parts) == parts.len() <==> all_received(parts),
        received(parts) == 0 <==> forall|i: int|
            0 <= i < parts.len() ==> (#[trigger] parts[i]) is None,
    decreases parts.len(),
{
    if parts.len() > 0 {
        let rest = parts.drop_last();
        received_counts(rest);
        assert forall|i: int| 0 <= i < rest.len() implies #[trigger] rest[i] == parts[i] by {}
        if received(parts) == parts.len() {
            assert forall|k: int| 1 <= k < 1 + parts.len() implies (#[trigger] parts[k - 1]) is Some by {
                if k < parts.len() {
                    assert(rest[k - 1] is Some);
                } else {
                    assert(parts[k - 1] == parts.last());
                }
            }
        }
        if all_received(parts) {
            assert forall|k: int| 1 <= k < 1 + rest.len() implies (#[trigger] rest[k - 1]) is Some by {
                assert(parts[k - 1] is Some);
            }
            assert(parts[parts.len() - 1] is Some);
        }
        if received(parts) == 0 {
            assert forall|i: int| 0 <= i < parts.len() implies (#[trigger] parts[i]) is None by {
                if i < rest.len() {
                    assert(rest[i] is None);
                }
            }
        }
        if forall|i: int| 0 <= i < parts.len() ==> (#[trigger] parts[i]) is None {
            assert(parts[parts.len() - 1] is None);
            assert forall|i: int| 0 <= i < rest.len() implies (#[trigger] rest[i]) is None by {
                assert(parts[i] is None);
            }
        }
    }
}

pub(crate) proof fn received_grows(parts: Parts, i: int, d: Seq<u8>)
    requires
        0 <= i < parts.len(),
        parts[i] is None,
    ensures
        received(parts.update(i, Some(d))) == received(parts) + 1,
    decreases parts.len(),
{
    let next = parts.update(i, Some(d));
    if i == parts.len() - 1 {
        assert(next.drop_last() =~= parts.drop_last());
    } else {
        assert(next.drop_last() =~= parts.drop_last().update(i, Some(d)));
        received_grows(parts.drop_last(), i, d);
    }
}

pub(crate) proof fn none_received(n: nat)
    ensures
        received(Seq::new(n, |i: int| None::<Seq<u8>>)) == 0,
    decreases n,
{
    let s = Seq::new(n, |i: int| None::<Seq<u8>>);
    if n > 0 {
        none_received((n - 1) as nat);
        assert(s.drop_last() =~= Seq::new((n - 1) as nat, |i: int| None::<Seq<u8>>));
    }
}

/// A buffer with `data` written at `at`; unchanged where it does not fit.
pub open spec fn written(buffer: Seq<u8>, at: int, data: Seq<u8>) -> Seq<u8> {
    if at + data.len() <= buffer.len() {
        buffer.take(at) + data + buffer.skip(at + data.len())
    } else {
        buffer
    }
}

/// A buffer of whole packets, zeros to begin with, in which the first `n`
/// packets stand in their places.
pub open spec fn laid_out(parts: Parts, n: int) -> Seq<u8>
    decreases n,
{
    if n <= 0 {
        Seq::new((parts.len() * SEGMENT_PACKET_SIZE) as nat, |i: int| 0u8)
    } else {
        match parts[n - 1] {
            Some(d) => written(laid_out(parts, n - 1), (n - 1) * SEGMENT_PACKET_SIZE, d),
            None => laid_out(parts, n - 1),
        }
    }
}

/// The size of the file: the last packet says where it ends.
pub open spec fn file_size(parts: Parts) -> int {
    let whole = parts.len() * SEGMENT_PACKET_SIZE;
    if parts.len() > 0 && parts.last() is Some {
        smaller((parts.len() - 1) * SEGMENT_PACKET_SIZE + parts.last()->0.len(), whole)
    } else {
        whole
    }
}

/// The file that the packets make.
pub open spec fn assembled(parts: Parts) -> Seq<u8> {
    laid_out(parts, parts.len() as int).take(file_size(parts))
}

proof fn laid_out_len(parts: Parts, n: int)
    requires
        n <= parts.len(),
    ensures
        laid_out(parts, n).len() == parts.len() * SEGMENT_PACKET_SIZE,
    decreases n,
{
    if n > 0 {
        laid_out_len(parts, n - 1);
    }
}

proof fn laid_out_prefix(file: Seq<u8>, parts: Parts, n: int)
    requires
        parts.len() == packets_for(file.len() as int),
        forall|k: int| 1 <= k <= parts.len() ==> #[trigger] parts[k - 1] == Some(packet(file, k)),
        0 <= n <= parts.len(),
    ensures
        laid_out(parts, n).len() == parts.len() * SEGMENT_PACKET_SIZE,
        laid_out(parts, n).take(smaller(n * SEGMENT_PACKET_SIZE, file.len() as int)) == file.take(
            smaller(n * SEGMENT_PACKET_SIZE, file.len() as int),
        ),
    decreases n,
{
    laid_out_len(parts, n);
    if n > 0 {
        laid_out_prefix(file, parts, n - 1);
        packet_within(file, n);
        let before = laid_out(parts, n - 1);
        let now = laid_out(parts, n);
        let at = (n - 1) * SEGMENT_PACKET_SIZE;
        let end = smaller(n * SEGMENT_PACKET_SIZE, file.len() as int);
        assert(parts[n - 1] == Some(packet(file, n)));
        assert(now == written(before, at, packet(file, n)));
        assert forall|i: int| 0 <= i < end implies now[i] == file[i] by {
            if i < at {
                assert(now[i] == before[i]);
                assert(before.take(at)[i] == file.take(at)[i]);
            } else {
                assert(now[i] == packet(file, n)[i - at]);
            }
        }
        assert(now.take(end) =~= file.take(end));
    } else {
        assert(laid_out(parts, n).take(0) =~= file.take(0));
    }
}

/// Once every packet of a file has come, in whatever order, what is saved is
/// the file byte for byte, as long as packet numbers go far enough.
pub proof fn assembled_is_file(file: Seq<u8>, parts: Parts)
    requires
        file.len() <= 0xffff * SEGMENT_PACKET_SIZE,
        parts.len() == packets_for(file.len() as int),
        forall|k: int| 1 <= k <= parts.len() ==> #[trigger] parts[k - 1] == Some(packet(file, k)),
    ensures
        assembled(parts) == file,
        file_size(parts) == file.len(),
{
    let n = parts.len() as int;
    laid_out_prefix(file, parts, n);
    packet_within(file, n);
    assert(parts[n - 1] == Some(packet(file, n)));
    assert(file_size(parts) == file.len());
    assert(file.take(file.len() as int) =~= file);
}

/// One file on its way from one peer.
pub struct ReceiverTransfer {
    pub transfer_id: u16,
    pub remote: Endpoint,
    pub filename: String,
    parts: Vec<Option<Vec<u8>>>,
    received: usize,
    total: Option<u16>,
    range: Option<(u16, u16)>,
    retry_count: u32,
    first_response_deadline: u128,
    quiet_deadline: u128,
    deadline: u128,
    outcome: Option<Result<(), String>>,
    unresponsive: bool,
    not_found: bool,
    retryable: bool,
    started_at: u128,
    gap_est: u128,
    backoff: u32,
    last_arrival: Option<u128>,
    first_packet_latency: Option<u64>,
    request_resent: bool,
    saved_bytes: Option<u64>,
}

/// The model of a [`ReceiverTransfer`].
pub struct ReceiverView {
    pub transfer_id: u16,
    pub remote: Endpoint,
    pub filename: Seq<char>,
    pub parts: Parts,
    /// how many packets have come
    pub received: usize,
    pub total: Option<u16>,
    /// current requested range
    pub range: Option<(u16, u16)>,
    pub retry_count: u32,
    pub first_response_deadline: u128,
    pub quiet_deadline: u128,
    pub deadline: u128,
    pub outcome: Option<Result<(), Seq<char>>>,
    pub unresponsive: bool,
    pub not_found: bool,
    pub retryable: bool,
    pub started_at: u128,
    /// moving average of inter-packet gaps
    pub gap_est: u128,
    /// quiet-period backoff exponent
    pub backoff: u32,
    pub last_arrival: Option<u128>,
    pub first_packet_latency: Option<u64>,
    pub request_resent: bool,
    pub saved_bytes: Option<u64>,
}

/// How a transfer ended, in its model.
pub open spec fn outcome_of(o: Option<Result<(), String>>) -> Option<Result<(), Seq<char>>> {
    match o {
        None => None,
        Some(Ok(())) => Some(Ok(())),
        Some(Err(e)) => Some(Err(e@)),
    }
}

impl View for ReceiverTransfer {
    type V = ReceiverView;

    closed spec fn view(&self) -> ReceiverView {
        ReceiverView {
            transfer_id: self.transfer_id,
            remote: self.remote,
            filename: self.filename@,
            parts: parts_of(self.parts@),
            received: self.received,
            total: self.total,
            range: self.range,
            retry_count: self.retry_count,
            first_response_deadline: self.first_response_deadline,
            quiet_deadline: self.quiet_deadline,
            deadline: self.deadline,
            outcome: outcome_of(self.outcome),
            unresponsive: self.unresponsive,
            not_found: self.not_found,
            retryable: self.retryable,
            started_at: self.started_at,
            gap_est: self.gap_est,
            backoff: self.backoff,
            last_arrival: self.last_arrival,
            first_packet_latency: self.first_packet_latency,
            request_resent: self.request_resent,
            saved_bytes: self.saved_bytes,
        }
    }
}

/// What a packet asks for.
pub enum Step {
    Idle,
    /// Send this to the peer.
    Reply(Message),
    /// The file is complete: save it, and report how that went.
    Save(Vec<u8>),
}

/// The model of a [`Step`].
pub enum StepView {
    Idle,
    Reply(MessageView),
    Save(Seq<u8>),
}

impl View for Step {
    type V = StepView;

    open spec fn view(&self) -> StepView {
        match *self {
            Step::Idle => StepView::Idle,
            Step::Reply(m) => StepView::Reply(m@),
            Step::Save(d) => StepView::Save(d@),
        }
    }
}

impl ReceiverView {
    /// The requested range lies within the file, everything before it has
    /// come, and the counters are within their limits.
    pub open spec fn wf(self) -> bool {
        &&& self.received == received(self.parts)
        &&& self.total is None <==> self.range is None
        &&& self.total is None ==> self.parts.len() == 0
        &&& self.total matches Some(t) ==> self.parts.len() == t
        &&& self.range matches Some((start, count)) ==> {
            &&& 1 <= start
            &&& start + count <= self.parts.len() + 1
            &&& count <= MAX_WINDOW
            &&& self.parts.len() > 0 ==> count > 0
            &&& range_received(self.parts, 1, start - 1)
        }
        &&& self.retry_count <= RETRY_LIMIT + 1
        &&& self.retry_count <= RETRY_LIMIT || self.outcome is Some
        &&& self.backoff <= 4
    }

    /// A download that begins at `now`.
    pub open spec fn started(
        transfer_id: u16,
        remote: Endpoint,
        filename: Seq<char>,
        s: Settings,
        now: u128,
    ) -> Self {
        ReceiverView {
            transfer_id,
            remote,
            filename,
            parts: Seq::empty(),
            received: 0,
            total: None,
            range: None,
            retry_count: 0,
            first_response_deadline: after(now, millis(s.first_timeout_ms)),
            quiet_deadline: after(now, millis(s.quiet_ms)),
            deadline: after(now, millis(s.quiet_ms)),
            outcome: None,
            unresponsive: false,
            not_found: false,
            retryable: false,
            started_at: now,
            gap_est: millis(s.quiet_ms) as u128,
            backoff: 0,
            last_arrival: None,
            first_packet_latency: None,
            request_resent: false,
            saved_bytes: None,
        }
    }

    /// The request for the file.
    pub open spec fn request(self) -> MessageView {
        MessageView::SegmentRequest { transfer_id: self.transfer_id, filename: self.filename }
    }

    /// The request for a range of packets.
    pub open spec fn progress(self, range: (u16, u16)) -> MessageView {
        MessageView::Ack {
            transfer_id: self.transfer_id,
            ack_type: AckType::Progress,
            next_start: range.0,
            next_count: range.1,
        }
    }

    /// The word that the file is complete.
    pub open spec fn complete(self) -> MessageView {
        MessageView::Ack {
            transfer_id: self.transfer_id,
            ack_type: AckType::Complete,
            next_start: 0,
            next_count: 0,
        }
    }

    /// The download after the first packet has told how many there are.
    pub open spec fn opened(self, s: Settings, total: u16, now: u128) -> Self {
        ReceiverView {
            total: Some(total),
            parts: Seq::new(total as nat, |i: int| None),
            first_packet_latency: Some((since(now, self.started_at) / 1_000_000) as u64),
            range: Some((1, smaller(INITIAL_WINDOW as int, total as int) as u16)),
            first_response_deadline: after(now, 3_600_000_000_000),
            quiet_deadline: after(now, quiet_wait(s, self.gap_est, 0)),
            ..self
        }
    }

    /// The download after packet `k` has come.
    pub open spec fn stored(self, s: Settings, k: u16, data: Seq<u8>, now: u128) -> Self {
        let gap = match self.last_arrival {
            Some(t) => smoothed(self.gap_est, since(now, t)),
            None => self.gap_est,
        };
        ReceiverView {
            gap_est: gap,
            last_arrival: Some(now),
            backoff: 0,
            parts: self.parts.update(k - 1, Some(data)),
            received: (self.received + 1) as usize,
            quiet_deadline: after(now, quiet_wait(s, gap, 0)),
            ..self
        }
    }

    /// The range to ask for after `range`: twice as long, up to the longest
    /// window and to the end of the file.
    pub open spec fn next_range(self, range: (u16, u16)) -> (u16, u16) {
        let start = range.0 + range.1;
        (
            start as u16,
            smaller(
                smaller(range.1 * 2, MAX_WINDOW as int),
                self.parts.len() - start + 1,
            ) as u16,
        )
    }

    /// The download after its range has come.
    pub open spec fn advanced(self, s: Settings, now: u128) -> Self {
        ReceiverView {
            range: Some(self.next_range(self.range->0)),
            retry_count: 0,
            quiet_deadline: after(now, quiet_wait(s, self.gap_est, 0)),
            ..self
        }
    }

    /// The download after a packet has come, and what follows from it.
    pub open spec fn content(self, s: Settings, k: u16, total: u16, data: Seq<u8>, now: u128) -> (
        Self,
        StepView,
    ) {
        if self.outcome is Some {
            // a stray packet after the end: a lost final ACK is repeated
            if self.outcome->0 is Ok {
                (self, StepView::Reply(self.complete()))
            } else {
                (self, StepView::Idle)
            }
        } else {
            let v = if self.total is None {
                self.opened(s, total, now)
            } else {
                self
            };
            let (start, count) = v.range->0;
            if k == 0 || k > v.parts.len() {
                (v, StepView::Idle)
            } else if k < start || k >= start + count {
                // the sender repeats an old range: the current request is restated
                (v, StepView::Reply(v.progress((start, count))))
            } else if v.parts[k - 1] is Some {
                (v, StepView::Idle)
            } else {
                let w = v.stored(s, k, data, now);
                if all_received(w.parts) {
                    (w, StepView::Save(assembled(w.parts)))
                } else if range_received(w.parts, start as int, count as int) {
                    let x = w.advanced(s, now);
                    (x, StepView::Reply(x.progress(x.range->0)))
                } else {
                    (w, StepView::Idle)
                }
            }
        }
    }

    /// The download after it has failed.
    pub open spec fn failed(self, reason: Seq<char>, now: u128) -> Self {
        ReceiverView {
            outcome: Some(Err(reason)),
            deadline: after(now, COMPLETE_GRACE as int),
            ..self
        }
    }

    /// The download after its file has been saved.
    pub open spec fn saved(self, now: u128) -> Self {
        ReceiverView {
            saved_bytes: Some(file_size(self.parts) as u64),
            outcome: Some(Ok(())),
            deadline: after(now, COMPLETE_GRACE as int),
            ..self
        }
    }

    /// Whether the request is to be repeated: half the time for a first
    /// response is over and nothing has come.
    pub open spec fn resend_due(self, s: Settings, now: u128) -> bool {
        self.received == 0 && !self.request_resent && now >= after(
            self.started_at,
            millis(s.first_timeout_ms) / 2,
        )
    }

    /// The download after a tick has repeated the request if that was due.
    pub open spec fn resent(self, s: Settings, now: u128) -> Self {
        if self.resend_due(s, now) {
            ReceiverView {
                request_resent: true,
                first_response_deadline: after(now, millis(s.first_timeout_ms)),
                ..self
            }
        } else {
            self
        }
    }

    pub open spec fn no_response_text(self) -> Seq<char> {
        "no response from "@ + endpoint_text(self.remote) + " for "@ + self.filename
    }

    pub open spec fn incomplete_text(self, range: (u16, u16)) -> Seq<char> {
        "range ("@ + decimal(range.0 as int) + ","@ + decimal(range.1 as int) + ") of "@
            + self.filename + " incomplete after "@ + decimal(RETRY_LIMIT as int) + " retries"@
    }

    /// The download after a quiet period has passed: the next one is longer.
    pub open spec fn backed_off(self, s: Settings, now: u128) -> Self {
        let backoff = smaller(self.backoff + 1, 4) as u32;
        ReceiverView {
            backoff,
            quiet_deadline: after(now, quiet_wait(s, self.gap_est, backoff)),
            ..self
        }
    }

    /// The earlier of the two deadlines.
    pub open spec fn rearmed(self) -> Self {
        ReceiverView {
            deadline: if self.first_response_deadline <= self.quiet_deadline {
                self.first_response_deadline
            } else {
                self.quiet_deadline
            },
            ..self
        }
    }

    /// The download after the second half of a tick, and the range that it
    /// asks for again, if any.
    pub open spec fn waited(self, s: Settings, now: u128) -> (Self, Option<(u16, u16)>) {
        if now >= self.first_response_deadline && self.received == 0 {
            (
                ReceiverView { unresponsive: true, ..self }.failed(self.no_response_text(), now),
                None,
            )
        } else if now >= self.quiet_deadline {
            let v = self.backed_off(s, now);
            match v.range {
                Some((start, count)) => if range_received(v.parts, start as int, count as int) {
                    (v.rearmed(), None)
                } else if v.retry_count + 1 > RETRY_LIMIT {
                    (
                        ReceiverView {
                            retry_count: (v.retry_count + 1) as u32,
                            ..v
                        }.failed(v.incomplete_text((start, count)), now),
                        None,
                    )
                } else {
                    (
                        ReceiverView { retry_count: (v.retry_count + 1) as u32, ..v }.rearmed(),
                        Some((start, count)),
                    )
                },
                None => (v.rearmed(), None),
            }
        } else {
            (self, None)
        }
    }

    /// The download after a tick.
    pub open spec fn ticked(self, s: Settings, now: u128) -> Self {
        if self.outcome is Some {
            self
        } else {
            self.resent(s, now).waited(s, now).0
        }
    }

    /// What a tick sends: the request once more, then a range once more.
    pub open spec fn tick_sends(self, s: Settings, now: u128) -> Seq<MessageView> {
        if self.outcome is Some {
            Seq::empty()
        } else {
            let first = if self.resend_due(s, now) {
                seq![self.request()]
            } else {
                Seq::empty()
            };
            match self.resent(s, now).waited(s, now).1 {
                Some(range) => first.push(self.progress(range)),
                None => first,
            }
        }
    }
}

impl ReceiverView {
    /// A tick leaves a download in order.
    pub proof fn tick_keeps_order(self, s: Settings, now: u128)
        requires
            self.wf(),
        ensures
            self.ticked(s, now).wf(),
    {
    }
}

impl ReceiverTransfer {
    /// A download that begins at `now`.
    pub fn new(
        transfer_id: u16,
        remote: Endpoint,
        filename: String,
        s: &Settings,
        now: u128,
    ) -> (t: Self)
        ensures
            t@ == ReceiverView::started(transfer_id, remote, filename@, *s, now),
            t@.wf(),
    {
        let quiet: u128 = milliseconds(s.quiet_ms);
        let t = ReceiverTransfer {
            transfer_id,
            remote,
            filename,
            parts: Vec::new(),
            received: 0,
            total: None,
            range: None,
            retry_count: 0,
            first_response_deadline: later(now, milliseconds(s.first_timeout_ms)),
            quiet_deadline: later(now, quiet),
            deadline: later(now, quiet),
            outcome: None,
            unresponsive: false,
            not_found: false,
            retryable: false,
            started_at: now,
            gap_est: quiet,
            backoff: 0,
            last_arrival: None,
            first_packet_latency: None,
            request_resent: false,
            saved_bytes: None,
        };
        proof {
            assert(t@.parts =~= Seq::empty());
        }
        t
    }

    /// The peer that the file comes from.
    pub fn remote(&self) -> (e: Endpoint)
        ensures
            e == self@.remote,
    {
        self.remote
    }

    /// The name of the file.
    pub fn filename(&self) -> (s: &str)
        ensures
            s@ == self@.filename,
    {
        self.filename.as_str()
    }

    /// When the transfer wants to be ticked next.
    pub fn deadline(&self) -> (t: u128)
        ensures
            t == self@.deadline,
    {
        self.deadline
    }

    /// How the transfer ended.
    pub fn outcome(&self) -> (o: Option<Result<(), String>>)
        ensures
            outcome_of(o) == self@.outcome,
    {
        match &self.outcome {
            None => None,
            Some(Ok(())) => Some(Ok(())),
            Some(Err(e)) => Some(Err(e.clone())),
        }
    }

    /// Whether the transfer has ended.
    pub fn ended(&self) -> (r: bool)
        ensures
            r == (self@.outcome is Some),
    {
        self.outcome.is_some()
    }

    /// Ends the transfer without the file.
    pub fn fail(&mut self, reason: String, now: u128)
        requires
            old(self)@.wf(),
        ensures
            final(self)@ == old(self)@.failed(reason@, now),
            final(self)@.wf(),
    {
        self.outcome = Some(Err(reason));
        self.deadline = later(now, COMPLETE_GRACE);
    }

    /// Fail because the peer never answered: the peer may be dead.
    pub fn fail_unresponsive(&mut self, reason: String, now: u128)
        requires
            old(self)@.wf(),
        ensures
            final(self)@ == (ReceiverView { unresponsive: true, ..old(self)@ }).failed(reason@, now),
            final(self)@.wf(),
    {
        self.unresponsive = true;
        self.fail(reason, now);
    }

    /// Whether the peer never answered.
    pub fn unresponsive(&self) -> (r: bool)
        ensures
            r == self@.unresponsive,
    {
        self.unresponsive
    }

    /// Note that the peer replied it doesn't have the segment, for now or
    /// at all.
    pub fn mark_not_found(&mut self, retryable: bool)
        requires
            old(self)@.wf(),
        ensures
            final(self)@ == (ReceiverView { not_found: true, retryable, ..old(self)@ }),
            final(self)@.wf(),
    {
        self.not_found = true;
        self.retryable = retryable;
    }

    /// Whether the peer replied it doesn't have the segment.
    pub fn not_found(&self) -> (r: bool)
        ensures
            r == self@.not_found,
    {
        self.not_found
    }

    /// Whether the peer's refusal was only for the moment.
    pub fn retryable(&self) -> (r: bool)
        ensures
            r == self@.retryable,
    {
        self.retryable
    }

    /// Milliseconds from request to first content packet.
    pub fn first_packet_latency_ms(&self) -> (r: Option<u64>)
        ensures
            r == self@.first_packet_latency,
    {
        self.first_packet_latency
    }

    /// Bytes saved once complete.
    pub fn saved_bytes(&self) -> (r: Option<u64>)
        ensures
            r == self@.saved_bytes,
    {
        self.saved_bytes
    }

    fn recompute_deadline(&mut self)
        requires
            old(self)@.wf(),
        ensures
            final(self)@ == old(self)@.rearmed(),
            final(self)@.wf(),
    {
        self.deadline = if self.first_response_deadline <= self.quiet_deadline {
            self.first_response_deadline
        } else {
            self.quiet_deadline
        };
    }

    fn ack(&self, range: (u16, u16)) -> (m: Message)
        ensures
            m@ == self@.progress(range),
    {
        Message::Ack {
            transfer_id: self.transfer_id,
            ack_type: AckType::Progress,
            next_start: range.0,
            next_count: range.1,
        }
    }

    fn complete_ack(&self) -> (m: Message)
        ensures
            m@ == self@.complete(),
    {
        Message::Ack {
            transfer_id: self.transfer_id,
            ack_type: AckType::Complete,
            next_start: 0,
            next_count: 0,
        }
    }

    fn range_complete(&self, start: u16, count: u16) -> (r: bool)
        requires
            1 <= start,
            start + count <= self@.parts.len() + 1,
        ensures
            r == range_received(self@.parts, start as int, count as int),
    {
        let end: usize = start as usize + count as usize;
        let mut k: usize = start as usize;
        while k < end
            invariant
                1 <= start <= k <= end,
                end == start + count,
                end <= self.parts@.len() + 1,
                range_received(self@.parts, start as int, k - start),
            decreases end - k,
        {
            if self.parts[k - 1].is_none() {
                proof {
                    assert(self@.parts[k - 1] is None);
                }
                return false;
            }
            proof {
                assert(self@.parts[k - 1] is Some);
            }
            k = k + 1;
        }
        true
    }

    /// Takes in packet `packet_number` of `total_packets`.
    pub fn on_content(
        &mut self,
        s: &Settings,
        packet_number: u16,
        total_packets: u16,
        data: Vec<u8>,
        now: u128,
    ) -> (step: Step)
        requires
            old(self)@.wf(),
        ensures
            (final(self)@, step@) == old(self)@.content(
                *s,
                packet_number,
                total_packets,
                data@,
                now,
            ),
            final(self)@.wf(),
    {
        if self.outcome.is_some() {
            return match &self.outcome {
                Some(Ok(())) => Step::Reply(self.complete_ack()),
                _ => Step::Idle,
            };
        }
        if self.total.is_none() {
            self.open(s, total_packets, now);
        }
        let ghost v = self@;
        if packet_number == 0 || packet_number as usize > self.parts.len() {
            return Step::Idle;
        }
        let (start, count) = match self.range {
            Some(range) => range,
            None => {
                return Step::Idle;
            },
        };
        if packet_number < start || packet_number as u32 >= start as u32 + count as u32 {
            return Step::Reply(self.ack((start, count)));
        }
        if self.parts[packet_number as usize - 1].is_some() {
            return Step::Idle;
        }
        self.store(s, packet_number, data, now);
        proof {
            received_counts(self@.parts);
        }
        if self.received >= self.parts.len() {
            return Step::Save(self.assemble());
        }
        if self.range_complete(start, count) {
            let range = self.advance(s, now);
            return Step::Reply(self.ack(range));
        }
        Step::Idle
    }

    fn store(&mut self, s: &Settings, packet_number: u16, data: Vec<u8>, now: u128)
        requires
            old(self)@.wf(),
            1 <= packet_number <= old(self)@.parts.len(),
            old(self)@.parts[packet_number - 1] is None,
            old(self)@.outcome is None,
        ensures
            final(self)@ == old(self)@.stored(*s, packet_number, data@, now),
            final(self)@.wf(),
            final(self).parts@.len() == old(self).parts@.len(),
    {
        let ghost v = self@;
        let at: usize = packet_number as usize - 1;
        if let Some(t) = self.last_arrival {
            self.gap_est = smooth(self.gap_est, elapsed(now, t));
        }
        self.last_arrival = Some(now);
        self.backoff = 0;
        let ghost bytes = data@;
        self.parts[at] = Some(data);
        proof {
            received_counts(v.parts);
            received_grows(v.parts, at as int, bytes);
            assert(parts_of(self.parts@) =~= v.parts.update(at as int, Some(bytes)));
        }
        self.received = self.received + 1;
        self.quiet_deadline = later(now, adaptive_quiet(s, self.gap_est, 0));
        proof {
            let w = self@;
            assert(w =~= v.stored(*s, packet_number, bytes, now));
            if let Some((start, count)) = v.range {
                assert forall|k: int| 1 <= k < start implies (#[trigger] w.parts[k - 1]) is Some by {
                    assert(v.parts[k - 1] is Some);
                }
            }
        }
    }

    fn open(&mut self, s: &Settings, total: u16, now: u128)
        requires
            old(self)@.wf(),
            old(self)@.total is None,
        ensures
            final(self)@ == old(self)@.opened(*s, total, now),
            final(self)@.wf(),
    {
        let mut i: u16 = 0;
        while i < total
            invariant
                i <= total,
                self.parts@.len() == i,
                forall|j: int| 0 <= j < i ==> (#[trigger] self.parts@[j]) is None,
                *self == (ReceiverTransfer { parts: self.parts, ..*old(self) }),
            decreases total - i,
        {
            self.parts.push(None);
            i = i + 1;
        }
        self.total = Some(total);
        self.first_packet_latency = Some((elapsed(now, self.started_at) / 1_000_000) as u64);
        let count: u16 = if INITIAL_WINDOW <= total {
            INITIAL_WINDOW
        } else {
            total
        };
        self.range = Some((1, count));
        self.first_response_deadline = later(now, 3_600_000_000_000);
        self.quiet_deadline = later(now, adaptive_quiet(s, self.gap_est, 0));
        proof {
            let none = Seq::new(total as nat, |i: int| None::<Seq<u8>>);
            assert(self@.parts =~= none);
            none_received(total as nat);
            received_counts(old(self)@.parts);
        }
    }

    fn advance(&mut self, s: &Settings, now: u128) -> (range: (u16, u16))
        requires
            old(self)@.wf(),
            old(self)@.range matches Some((start, count)) && range_received(
                old(self)@.parts,
                start as int,
                count as int,
            ),
            !all_received(old(self)@.parts),
        ensures
            final(self)@ == old(self)@.advanced(*s, now),
            final(self)@.range == Some(range),
            final(self)@.wf(),
    {
        let (start, count) = match self.range {
            Some(range) => range,
            None => (1, 0),
        };
        let ghost parts = self@.parts;
        proof {
            assert forall|k: int| 1 <= k < start + count implies (#[trigger] parts[k - 1]) is Some by {}
            if start + count > parts.len() {
                assert(all_received(parts));
            }
        }
        let next_start: u32 = start as u32 + count as u32;
        let remaining: u32 = self.parts.len() as u32 - next_start + 1;
        let doubled: u32 = count as u32 * 2;
        let window: u32 = if doubled <= MAX_WINDOW as u32 {
            doubled
        } else {
            MAX_WINDOW as u32
        };
        let next_count: u32 = if window <= remaining {
            window
        } else {
            remaining
        };
        let range: (u16, u16) = (next_start as u16, next_count as u16);
        self.range = Some(range);
        self.retry_count = 0;
        self.quiet_deadline = later(now, adaptive_quiet(s, self.gap_est, 0));
        range
    }

    fn size(&self) -> (n: usize)
        requires
            self@.wf(),
        ensures
            n == file_size(self@.parts),
    {
        let total: usize = self.parts.len();
        let whole: usize = total * SEGMENT_PACKET_SIZE;
        if total > 0 {
            if let Some(last) = &self.parts[total - 1] {
                let room: usize = SEGMENT_PACKET_SIZE;
                if last.len() <= room {
                    return (total - 1) * SEGMENT_PACKET_SIZE + last.len();
                }
            }
        }
        whole
    }

    fn assemble(&self) -> (file: Vec<u8>)
        requires
            self@.wf(),
        ensures
            file@ == assembled(self@.parts),
    {
        let ghost parts = self@.parts;
        let total: usize = self.parts.len();
        let whole: usize = total * SEGMENT_PACKET_SIZE;
        let mut buffer: Vec<u8> = Vec::new();
        let mut i: usize = 0;
        while i < whole
            invariant
                i <= whole,
                buffer@.len() == i,
                forall|j: int| 0 <= j < i ==> #[trigger] buffer@[j] == 0,
            decreases whole - i,
        {
            buffer.push(0);
            i = i + 1;
        }
        proof {
            assert(buffer@ =~= laid_out(parts, 0));
        }
        let mut n: usize = 0;
        while n < total
            invariant
                n <= total,
                total == self.parts@.len(),
                total <= 0xffff,
                whole == total * SEGMENT_PACKET_SIZE,
                parts == self@.parts,
                buffer@.len() == whole,
                buffer@ == laid_out(parts, n as int),
            decreases total - n,
        {
            let at: usize = n * SEGMENT_PACKET_SIZE;
            let ghost before = buffer@;
            match &self.parts[n] {
                Some(data) => {
                    proof {
                        assert(parts[n as int] == Some(data@));
                    }
                    if data.len() <= whole - at {
                        let mut j: usize = 0;
                        while j < data.len()
                            invariant
                                j <= data@.len(),
                                at + data@.len() <= whole,
                                buffer@.len() == whole,
                                before.len() == whole,
                                buffer@ == before.take(at as int) + data@.take(j as int)
                                    + before.skip(at + j),
                            decreases data@.len() - j,
                        {
                            buffer[at + j] = data[j];
                            j = j + 1;
                            proof {
                                assert(buffer@ =~= before.take(at as int) + data@.take(j as int)
                                    + before.skip(at + j));
                            }
                        }
                        proof {
                            assert(data@.take(data@.len() as int) =~= data@);
                        }
                    }
                },
                None => {
                    proof {
                        assert(parts[n as int] is None);
                    }
                },
            }
            n = n + 1;
        }
        let size = self.size();
        proof {
            laid_out_len(parts, total as int);
        }
        vstd::slice::slice_to_vec(vstd::slice::slice_subrange(buffer.as_slice(), 0, size))
    }

    /// Takes note that the file has been saved; gives the final ACK.
    pub fn on_saved(&mut self, now: u128) -> (m: Message)
        requires
            old(self)@.wf(),
        ensures
            final(self)@ == old(self)@.saved(now),
            m@ == old(self)@.complete(),
            final(self)@.wf(),
    {
        self.saved_bytes = Some(self.size() as u64);
        self.outcome = Some(Ok(()));
        self.deadline = later(now, COMPLETE_GRACE);
        self.complete_ack()
    }

    /// Takes note that the file could not be saved.
    pub fn on_save_failed(&mut self, path: &str, error: &str, now: u128)
        requires
            old(self)@.wf(),
        ensures
            final(self)@ == old(self)@.failed("failed to write "@ + path@ + ": "@ + error@, now),
            final(self)@.wf(),
    {
        let mut out: Vec<char> = Vec::new();
        push_text(&mut out, "failed to write ");
        push_text(&mut out, path);
        push_text(&mut out, ": ");
        push_text(&mut out, error);
        proof {
            assert(out@ =~= "failed to write "@ + path@ + ": "@ + error@);
        }
        self.fail(string_of(&out), now);
    }

    /// Advance the timers; called once per loop tick. Gives what to send.
    pub fn on_tick(&mut self, s: &Settings, now: u128) -> (out: Vec<Message>)
        requires
            old(self)@.wf(),
        ensures
            final(self)@ == old(self)@.ticked(*s, now),
            messages(out@) == old(self)@.tick_sends(*s, now),
            final(self)@.wf(),
    {
        let mut out: Vec<Message> = Vec::new();
        proof {
            assert(messages(out@) =~= Seq::<MessageView>::empty());
        }
        if self.outcome.is_some() {
            return out;
        }
        if self.received == 0 && !self.request_resent {
            let timeout: u128 = milliseconds(s.first_timeout_ms);
            if now >= later(self.started_at, timeout / 2) {
                self.request_resent = true;
                self.first_response_deadline = later(now, timeout);
                out.push(
                    Message::SegmentRequest {
                        transfer_id: self.transfer_id,
                        filename: self.filename.clone(),
                    },
                );
            }
        }
        let ghost first = messages(out@);
        let ghost v = self@;
        proof {
            assert(v =~= old(self)@.resent(*s, now));
            if old(self)@.resend_due(*s, now) {
                assert(first =~= seq![old(self)@.request()]);
            } else {
                assert(first =~= Seq::<MessageView>::empty());
            }
        }
        if now >= self.first_response_deadline && self.received == 0 {
            let reason = self.no_response();
            self.fail_unresponsive(reason, now);
            return out;
        }
        if now >= self.quiet_deadline {
            if self.backoff < 4 {
                self.backoff = self.backoff + 1;
            }
            self.quiet_deadline = later(now, adaptive_quiet(s, self.gap_est, self.backoff));
            proof {
                assert(self@ =~= v.backed_off(*s, now));
            }
            if let Some((start, count)) = self.range {
                if !self.range_complete(start, count) {
                    self.retry_count = self.retry_count + 1;
                    if self.retry_count > RETRY_LIMIT {
                        let reason = self.incomplete((start, count));
                        self.outcome = Some(Err(reason));
                        self.deadline = later(now, COMPLETE_GRACE);
                        return out;
                    }
                    let ack = self.ack((start, count));
                    out.push(ack);
                    proof {
                        assert(messages(out@) =~= first.push(old(self)@.progress((start, count))));
                    }
                }
            }
            self.recompute_deadline();
        }
        out
    }

    fn no_response(&self) -> (r: String)
        ensures
            r@ == self@.no_response_text(),
    {
        let mut out: Vec<char> = Vec::new();
        push_text(&mut out, "no response from ");
        push_endpoint(&mut out, self.remote);
        push_text(&mut out, " for ");
        push_text(&mut out, self.filename.as_str());
        proof {
            assert(out@ =~= self@.no_response_text());
        }
        string_of(&out)
    }

    fn incomplete(&self, range: (u16, u16)) -> (r: String)
        ensures
            r@ == self@.incomplete_text(range),
    {
        let mut out: Vec<char> = Vec::new();
        push_text(&mut out, "range (");
        push_decimal(&mut out, range.0 as u64);
        push_text(&mut out, ",");
        push_decimal(&mut out, range.1 as u64);
        push_text(&mut out, ") of ");
        push_text(&mut out, self.filename.as_str());
        push_text(&mut out, " incomplete after ");
        push_decimal(&mut out, RETRY_LIMIT as u64);
        push_text(&mut out, " retries");
        proof {
            assert(out@ =~= self@.incomplete_text(range));
        }
        string_of(&out)
    }
}

/// Whether all that a download holds comes from `file`.
pub open spec fn faithful(v: ReceiverView, file: Seq<u8>) -> bool {
    v.total is Some ==> {
        &&& v.parts.len() == packets_for(file.len() as int)
        &&& forall|k: int|
            1 <= k <= v.parts.len() && (#[trigger] v.parts[k - 1]) is Some ==> v.parts[k - 1]
                == Some(packet(file, k))
    }
}

/// A download that gets the packets of one file, in any order and any of them
/// more than once, holds nothing else, and what it saves is that file byte for
/// byte.
pub proof fn download_is_faithful(v: ReceiverView, s: Settings, file: Seq<u8>, k: u16, now: u128)
    requires
        v.wf(),
        faithful(v, file),
        file.len() <= 0xffff * SEGMENT_PACKET_SIZE,
        1 <= k <= packets_for(file.len() as int),
    ensures
        ({
            let n = packets_for(file.len() as int) as u16;
            let (w, step) = v.content(s, k, n, packet(file, k as int), now);
            &&& faithful(w, file)
            &&& step matches StepView::Save(saved) ==> saved == file
        }),
{
    let n = packets_for(file.len() as int) as u16;
    let (w, step) = v.content(s, k, n, packet(file, k as int), now);
    if let StepView::Save(saved) = step {
        assert forall|j: int| 1 <= j <= w.parts.len() implies #[trigger] w.parts[j - 1] == Some(
            packet(file, j),
        ) by {
            assert(w.parts[j - 1] is Some);
        }
        assembled_is_file(file, w.parts);
    }
}

/// A packet that has come already changes nothing.
pub proof fn duplicates_change_nothing(
    v: ReceiverView,
    s: Settings,
    k: u16,
    total: u16,
    data: Seq<u8>,
    now: u128,
)
    requires
        v.wf(),
        1 <= k <= v.parts.len(),
        v.parts[k - 1] is Some,
    ensures
        v.content(s, k, total, data, now).0 == v,
        !(v.content(s, k, total, data, now).1 is Save),
{
}

/// The range that follows is the next one of the file: it begins where the
/// last one ended, and is twice as long up to the longest window and to the
/// last packet.
pub proof fn windows_double(v: ReceiverView, range: (u16, u16))
    requires
        v.wf(),
        v.range == Some(range),
        v.outcome is None,
        range_received(v.parts, range.0 as int, range.1 as int),
        !all_received(v.parts),
    ensures
        ({
            let next = v.next_range(range);
            &&& next.0 == range.0 + range.1
            &&& 1 <= next.1 <= MAX_WINDOW
            &&& next.0 + next.1 <= v.parts.len() + 1
            &&& next.1 == 2 * range.1 || next.1 == MAX_WINDOW || next.0 + next.1 == v.parts.len()
                + 1
        }),
{
    assert forall|k: int| 1 <= k < range.0 + range.1 implies (#[trigger] v.parts[k - 1]) is Some by {}
    if range.0 + range.1 > v.parts.len() {
        assert(all_received(v.parts));
    }
    if v.parts.len() == 0 {
        assert(all_received(v.parts));
    }
}

} // verus!
