//! Serving a file.
//!
//! Receiver-driven windows: the receiver names the exact next packet range in
//! every ACK, so sender and receiver never need to keep synchronized window
//! sizes. The sender just executes ranges and retransmits its last range on
//! ack timeout; the receiver deduplicates, so blind re-sends are safe.
use vstd::prelude::*;
use crate::endpoint::Endpoint;
use crate::protocol::{messages, AckType, Message, MessageView};
use crate::text::{decimal, hex_padded, push_decimal, push_hex, push_text, string_of};
use crate::transfer::{
    after, elapsed, later, millis, milliseconds, packet_count, packets_for, retry_interval,
    retry_wait, since, smaller, smooth, smoothed, Settings, INITIAL_WINDOW, SEGMENT_PACKET_SIZE,
    SENDER_RETRY_LIMIT, SEND_CHUNK,
};

verus! {

/// The bytes of packet `k` of a file; the first packet is number 1.
pub open spec fn packet(file: Seq<u8>, k: int) -> Seq<u8> {
    file.subrange(
        (k - 1) * SEGMENT_PACKET_SIZE,
        smaller(k * SEGMENT_PACKET_SIZE, file.len() as int),
    )
}

/// The first `k` packets of a file one after the other.
pub open spec fn joined(file: Seq<u8>, k: int) -> Seq<u8>
    decreases k,
{
    if k <= 0 {
        Seq::empty()
    } else {
        joined(file, k - 1) + packet(file, k)
    }
}

/// Packets begin within their file.
pub(crate) proof fn packet_within(file: Seq<u8>, k: int)
    requires
        1 <= k <= packets_for(file.len() as int),
    ensures
        0 <= (k - 1) * SEGMENT_PACKET_SIZE <= smaller(k * SEGMENT_PACKET_SIZE, file.len() as int)
            <= file.len(),
        packet(file, k).len() <= SEGMENT_PACKET_SIZE,
        k < packets_for(file.len() as int) ==> packet(file, k).len() == SEGMENT_PACKET_SIZE,
{
}

proof fn joined_is_prefix(file: Seq<u8>, k: int)
    requires
        0 <= k <= packets_for(file.len() as int),
    ensures
        joined(file, k) == file.take(smaller(k * SEGMENT_PACKET_SIZE, file.len() as int)),
    decreases k,
{
    if k > 0 {
        joined_is_prefix(file, k - 1);
        packet_within(file, k);
        assert(joined(file, k) =~= file.take(smaller(k * SEGMENT_PACKET_SIZE, file.len() as int)));
    } else {
        assert(joined(file, k) =~= file.take(0));
    }
}

/// A file is its packets one after the other, as long as their numbers go far
/// enough.
pub proof fn packets_partition_file(file: Seq<u8>)
    requires
        file.len() <= 0xffff * SEGMENT_PACKET_SIZE,
    ensures
        joined(file, packets_for(file.len() as int)) == file,
{
    joined_is_prefix(file, packets_for(file.len() as int));
    assert(file.take(file.len() as int) =~= file);
}

/// One file on its way to one peer.
pub struct SenderTransfer {
    pub transfer_id: u16,
    pub remote: Endpoint,
    pub total_packets: u16,
    file: Vec<u8>,
    range: (u16, u16),
    range_sent: u16,
    retry_count: u32,
    ack_deadline: Option<u128>,
    send_deadline: u128,
    rtt_est: u128,
    window_sent_at: Option<u128>,
}

/// The model of a [`SenderTransfer`].
pub struct SenderView {
    pub transfer_id: u16,
    pub remote: Endpoint,
    pub total_packets: u16,
    pub file: Seq<u8>,
    /// (start, count) of the current window
    pub range: (u16, u16),
    /// packets of the current window already sent
    pub range_sent: u16,
    pub retry_count: u32,
    /// armed once the window is fully sent
    pub ack_deadline: Option<u128>,
    /// when to send the next chunk
    pub send_deadline: u128,
    /// moving average of the measured round-trip
    pub rtt_est: u128,
    pub window_sent_at: Option<u128>,
}

impl View for SenderTransfer {
    type V = SenderView;

    closed spec fn view(&self) -> SenderView {
        SenderView {
            transfer_id: self.transfer_id,
            remote: self.remote,
            total_packets: self.total_packets,
            file: self.file@,
            range: self.range,
            range_sent: self.range_sent,
            retry_count: self.retry_count,
            ack_deadline: self.ack_deadline,
            send_deadline: self.send_deadline,
            rtt_est: self.rtt_est,
            window_sent_at: self.window_sent_at,
        }
    }
}

/// A range of packets in words, as a pair.
pub open spec fn range_text(range: (u16, u16)) -> Seq<char> {
    "("@ + decimal(range.0 as int) + ", "@ + decimal(range.1 as int) + ")"@
}

impl SenderView {
    /// The window lies within the file's packets.
    pub open spec fn wf(self) -> bool {
        &&& self.total_packets == packets_for(self.file.len() as int)
        &&& 1 <= self.range.0 <= self.total_packets
        &&& self.range.0 + self.range.1 <= self.total_packets + 1
        &&& self.range_sent <= self.range.1
        &&& self.retry_count <= SENDER_RETRY_LIMIT
    }

    /// A transfer that begins at `now`.
    pub open spec fn started(transfer_id: u16, remote: Endpoint, file: Seq<u8>, now: u128) -> Self {
        let n = packets_for(file.len() as int);
        SenderView {
            transfer_id,
            remote,
            total_packets: n as u16,
            file,
            range: (1, smaller(INITIAL_WINDOW as int, n) as u16),
            range_sent: 0,
            retry_count: 0,
            ack_deadline: None,
            send_deadline: now,
            rtt_est: 250_000_000,
            window_sent_at: None,
        }
    }

    /// When the transfer wants to be ticked next: once the window is fully
    /// sent the next event is the ack timer.
    pub open spec fn deadline(self) -> u128 {
        if self.range_sent >= self.range.1 && self.ack_deadline is Some {
            self.ack_deadline->0
        } else {
            self.send_deadline
        }
    }

    /// The message with packet `k`.
    pub open spec fn contents(self, k: int) -> MessageView {
        MessageView::SegmentContents {
            transfer_id: self.transfer_id,
            packet_number: k as u16,
            total_packets: self.total_packets,
            data: packet(self.file, k),
        }
    }

    /// Whether the next chunk of the window is due.
    pub open spec fn chunk_due(self, now: u128) -> bool {
        self.range_sent < self.range.1 && now >= self.send_deadline
    }

    /// How many packets the next chunk holds.
    pub open spec fn chunk_len(self) -> int {
        smaller(self.range.1 - self.range_sent, SEND_CHUNK as int)
    }

    /// The next chunk of the window.
    pub open spec fn chunk(self) -> Seq<MessageView> {
        Seq::new(
            self.chunk_len() as nat,
            |i: int| self.contents(self.range.0 + self.range_sent + i),
        )
    }

    /// The transfer after its next chunk has gone out: the chunk after it is
    /// paced, and a window that is out waits for its ACK.
    pub open spec fn chunk_sent(self, s: Settings, now: u128) -> Self {
        let sent = self.range_sent + self.chunk_len();
        let out = sent >= self.range.1;
        SenderView {
            range_sent: sent as u16,
            send_deadline: after(now, millis(s.pace_ms) * self.chunk_len()),
            window_sent_at: if out {
                Some(now)
            } else {
                self.window_sent_at
            },
            ack_deadline: if out {
                Some(
                    after(now, retry_wait(s, self.range.1, self.rtt_est, self.retry_count)),
                )
            } else {
                self.ack_deadline
            },
            ..self
        }
    }

    /// Whether a window that is out has waited long enough for its ACK.
    pub open spec fn ack_overdue(self, now: u128) -> bool {
        self.range_sent >= self.range.1 && self.ack_deadline is Some && now
            >= self.ack_deadline->0
    }

    /// The transfer after its window is to be sent once more.
    pub open spec fn resending(self, now: u128) -> Self {
        SenderView {
            retry_count: (self.retry_count + 1) as u32,
            range_sent: 0,
            ack_deadline: None,
            send_deadline: now,
            ..self
        }
    }

    /// Why a transfer is given up.
    pub open spec fn no_ack_text(self) -> Seq<char> {
        "sender 0x"@ + hex_padded(self.transfer_id as int, 4) + ": no ACK for range "@ + range_text(
            self.range,
        ) + " after "@ + decimal(SENDER_RETRY_LIMIT as int) + " retries"@
    }

    /// The transfer after the sending half of a tick, and what it sends.
    pub open spec fn tick_sends(self, s: Settings, now: u128) -> (Self, Seq<MessageView>) {
        if self.chunk_due(now) {
            (self.chunk_sent(s, now), self.chunk())
        } else {
            (self, Seq::empty())
        }
    }

    /// The transfer after an ACK that is not the last: it goes on with the
    /// range that the receiver names, as far as the file has packets. A range
    /// outside the file leaves nothing to send but the wait for COMPLETE.
    pub open spec fn acked(self, s: Settings, next_start: u16, next_count: u16, now: u128) -> Self {
        if 1 <= next_start <= self.total_packets {
            SenderView {
                rtt_est: match self.window_sent_at {
                    Some(t) => smoothed(self.rtt_est, since(now, t)),
                    None => self.rtt_est,
                },
                window_sent_at: None,
                range: (
                    next_start,
                    smaller(next_count as int, self.total_packets - next_start + 1) as u16,
                ),
                range_sent: 0,
                ack_deadline: None,
                retry_count: 0,
                send_deadline: now,
                ..self
            }
        } else {
            SenderView {
                range: (1, 0),
                range_sent: 0,
                ack_deadline: Some(after(now, retry_wait(s, 1, self.rtt_est, 1))),
                ..self
            }
        }
    }
}

impl SenderTransfer {
    /// A transfer of `file` that begins at `now`.
    pub fn new(transfer_id: u16, remote: Endpoint, file: Vec<u8>, now: u128) -> (t: Self)
        ensures
            t@ == SenderView::started(transfer_id, remote, file@, now),
            t@.wf(),
    {
        let n = packet_count(file.len());
        let count: u16 = if INITIAL_WINDOW <= n {
            INITIAL_WINDOW
        } else {
            n
        };
        SenderTransfer {
            transfer_id,
            remote,
            total_packets: n,
            file,
            range: (1, count),
            range_sent: 0,
            retry_count: 0,
            ack_deadline: None,
            send_deadline: now,
            rtt_est: 250_000_000,
            window_sent_at: None,
        }
    }

    /// The peer that the file goes to.
    pub fn remote(&self) -> (e: Endpoint)
        ensures
            e == self@.remote,
    {
        self.remote
    }

    /// The size of the file.
    pub fn payload_bytes(&self) -> (n: u64)
        ensures
            n == self@.file.len(),
    {
        self.file.len() as u64
    }

    /// When the transfer wants to be ticked next.
    pub fn deadline(&self) -> (t: u128)
        ensures
            t == self@.deadline(),
    {
        if self.range_sent >= self.range.1 {
            match self.ack_deadline {
                Some(t) => t,
                None => self.send_deadline,
            }
        } else {
            self.send_deadline
        }
    }

    /// Advance the state machine; called once per loop tick. Gives the
    /// packets to send, and an error when the transfer is given up.
    pub fn tick(&mut self, s: &Settings, now: u128) -> (r: (Vec<Message>, Result<(), String>))
        requires
            old(self)@.wf(),
        ensures
            messages(r.0@) == old(self)@.tick_sends(*s, now).1,
            ({
                let v = old(self)@.tick_sends(*s, now).0;
                match r.1 {
                    Ok(()) => {
                        &&& final(self)@.wf()
                        &&& !v.ack_overdue(now) ==> final(self)@ == v
                        &&& v.ack_overdue(now) ==> v.retry_count < SENDER_RETRY_LIMIT
                            && final(self)@ == v.resending(now)
                    },
                    Err(e) => {
                        &&& v.ack_overdue(now)
                        &&& v.retry_count == SENDER_RETRY_LIMIT
                        &&& e@ == v.no_ack_text()
                        &&& final(self)@ == (SenderView {
                            retry_count: (SENDER_RETRY_LIMIT + 1) as u32,
                            ..v
                        })
                    },
                }
            }),
    {
        let (start, count) = self.range;
        let mut out: Vec<Message> = Vec::new();
        if self.range_sent < count && now >= self.send_deadline {
            let left: u16 = count - self.range_sent;
            let to_send: u16 = if left <= SEND_CHUNK {
                left
            } else {
                SEND_CHUNK
            };
            out = self.packets(start + self.range_sent, to_send);
            self.range_sent = self.range_sent + to_send;
            let pace: u128 = milliseconds(s.pace_ms);
            proof {
                assert(pace * to_send <= 0xffff_ffff_ffff_ffff * 1_000_000 * 8) by (nonlinear_arith)
                    requires
                        pace <= 0xffff_ffff_ffff_ffff * 1_000_000,
                        to_send <= 8,
                ;
            }
            self.send_deadline = later(now, pace * to_send as u128);
            if self.range_sent >= count {
                self.window_sent_at = Some(now);
                self.ack_deadline = Some(
                    later(now, retry_interval(s, count, self.rtt_est, self.retry_count)),
                );
            }
            proof {
                assert(messages(out@) =~= old(self)@.chunk());
            }
        } else {
            proof {
                assert(messages(out@) =~= Seq::<MessageView>::empty());
            }
        }
        if self.range_sent >= count {
            if let Some(ack) = self.ack_deadline {
                if now >= ack {
                    self.retry_count = self.retry_count + 1;
                    if self.retry_count > SENDER_RETRY_LIMIT {
                        let reason = self.no_ack();
                        return (out, Err(reason));
                    }
                    self.range_sent = 0;
                    self.ack_deadline = None;
                    self.send_deadline = now;
                }
            }
        }
        (out, Ok(()))
    }

    fn no_ack(&self) -> (s: String)
        ensures
            s@ == self@.no_ack_text(),
    {
        let mut out: Vec<char> = Vec::new();
        push_text(&mut out, "sender 0x");
        push_hex(&mut out, self.transfer_id as u64, 4);
        push_text(&mut out, ": no ACK for range ");
        push_text(&mut out, "(");
        push_decimal(&mut out, self.range.0 as u64);
        push_text(&mut out, ", ");
        push_decimal(&mut out, self.range.1 as u64);
        push_text(&mut out, ")");
        push_text(&mut out, " after ");
        push_decimal(&mut out, SENDER_RETRY_LIMIT as u64);
        push_text(&mut out, " retries");
        proof {
            assert(out@ =~= self@.no_ack_text());
        }
        string_of(&out)
    }

    fn packets(&self, first: u16, count: u16) -> (out: Vec<Message>)
        requires
            self@.total_packets == packets_for(self@.file.len() as int),
            1 <= first,
            first + count <= self@.total_packets + 1,
        ensures
            messages(out@) == Seq::new(count as nat, |i: int| self@.contents(first + i)),
    {
        let mut out: Vec<Message> = Vec::new();
        let mut i: u16 = 0;
        while i < count
            invariant
                i <= count,
                1 <= first,
                first + count <= self@.total_packets + 1,
                self@.total_packets == packets_for(self@.file.len() as int),
                out@.len() == i,
                forall|j: int| 0 <= j < i ==> (#[trigger] out@[j])@ == self@.contents(first + j),
            decreases count - i,
        {
            let number: u16 = first + i;
            proof {
                packet_within(self.file@, number as int);
            }
            let seek: usize = (number as usize - 1) * SEGMENT_PACKET_SIZE;
            let end: usize = if self.file.len() - seek <= SEGMENT_PACKET_SIZE {
                self.file.len()
            } else {
                seek + SEGMENT_PACKET_SIZE
            };
            let data = vstd::slice::slice_to_vec(
                vstd::slice::slice_subrange(self.file.as_slice(), seek, end),
            );
            out.push(
                Message::SegmentContents {
                    transfer_id: self.transfer_id,
                    packet_number: number,
                    total_packets: self.total_packets,
                    data,
                },
            );
            i = i + 1;
        }
        proof {
            assert(messages(out@) =~= Seq::new(count as nat, |i: int| self@.contents(first + i)));
        }
        out
    }

    /// Handle an ACK. Returns `true` when the transfer is complete.
    pub fn on_ack(
        &mut self,
        s: &Settings,
        ack_type: AckType,
        next_start: u16,
        next_count: u16,
        now: u128,
    ) -> (done: bool)
        requires
            old(self)@.wf(),
        ensures
            done == (ack_type == AckType::Complete),
            done ==> final(self)@ == old(self)@,
            !done ==> final(self)@ == old(self)@.acked(*s, next_start, next_count, now),
            final(self)@.wf(),
    {
        match ack_type {
            AckType::Complete => true,
            AckType::Progress => {
                if 1 <= next_start && next_start <= self.total_packets {
                    if let Some(t) = self.window_sent_at {
                        self.rtt_est = smooth(self.rtt_est, elapsed(now, t));
                    }
                    self.window_sent_at = None;
                    let left: u32 = self.total_packets as u32 - next_start as u32 + 1;
                    let count: u16 = if next_count as u32 <= left {
                        next_count
                    } else {
                        left as u16
                    };
                    self.range = (next_start, count);
                    self.range_sent = 0;
                    self.ack_deadline = None;
                    self.retry_count = 0;
                    self.send_deadline = now;
                } else {
                    self.range = (1, 0);
                    self.range_sent = 0;
                    self.ack_deadline = Some(later(now, retry_interval(s, 1, self.rtt_est, 1)));
                }
                false
            },
        }
    }
}

/// Every packet that a tick sends is one of the file, of the window that the
/// receiver asked for, and at most one chunk goes out.
pub proof fn ticks_stay_in_window(v: SenderView, s: Settings, now: u128, i: int)
    requires
        v.wf(),
        0 <= i < v.tick_sends(s, now).1.len(),
    ensures
        v.tick_sends(s, now).1.len() <= SEND_CHUNK,
        exists|k: int|
            v.range.0 <= k < v.range.0 + v.range.1 && 1 <= k <= v.total_packets && v.tick_sends(
                s,
                now,
            ).1[i] == #[trigger] v.contents(k),
{
    let k = v.range.0 + v.range_sent + i;
    assert(v.tick_sends(s, now).1[i] == v.contents(k));
}

} // verus!
