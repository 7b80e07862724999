//! What holds of the windows of a transfer, at both its ends.
use vstd::prelude::*;
use crate::protocol::{AckType, MessageView};
use crate::receiver::{
    all_received, none_received, range_received, received_counts, received_grows, ReceiverView,
    StepView,
};
use crate::sender::SenderView;
use crate::transfer::{
    packets_for, quiet_wait, retry_wait, since, waits_are_bounded, Settings,
};

verus! {

// ---------------------------------------------------------------------------
// The receiver

/// The request of a download for a range of packets.
pub open spec fn asks_for(v: ReceiverView, start: int, count: int) -> MessageView {
    MessageView::Ack {
        transfer_id: v.transfer_id,
        ack_type: AckType::Progress,
        next_start: start as u16,
        next_count: count as u16,
    }
}

/// Whether a packet of the current range is missing.
pub open spec fn lacks_some(v: ReceiverView) -> bool {
    v.range matches Some((start, count)) && exists|k: int|
        start <= k < start + count && (#[trigger] v.parts[k - 1]) is None
}

/// When a packet completes its range, and the file goes on, the range behind it
/// is asked for, twice as long, but of no more than 64 packets and within the
/// file; and none of the eight retries of the new range is used up.
pub proof fn next_range_has_all_its_retries(
    v: ReceiverView,
    s: Settings,
    k: u16,
    total: u16,
    data: Seq<u8>,
    now: u128,
)
    requires
        v.wf(),
        v.outcome is None,
        v.range is Some,
        v.content(s, k, total, data, now).0.range != v.range,
    ensures
        ({
            let (w, step) = v.content(s, k, total, data, now);
            let (start, count) = v.range->0;
            let left = v.parts.len() - (start + count) + 1;
            let next = if 2 * count <= 64 {
                2 * count
            } else {
                64
            };
            let size = if next <= left {
                next
            } else {
                left
            };
            &&& w.retry_count == 0
            &&& w.backoff == 0
            &&& w.outcome is None
            &&& w.range == Some(((start + count) as u16, size as u16))
            &&& step == StepView::Reply(asks_for(v, start + count, size))
        }),
{
}

/// The first packet opens the first range, of five packets or as many as there
/// are, with all its retries.
pub proof fn first_packet_opens_the_first_range(
    v: ReceiverView,
    s: Settings,
    k: u16,
    total: u16,
    data: Seq<u8>,
    now: u128,
)
    requires
        v.wf(),
        v.outcome is None,
        v.total is None,
        v.retry_count == 0,
        total > 5,
    ensures
        ({
            let (w, step) = v.content(s, k, total, data, now);
            &&& w.total == Some(total)
            &&& w.range == Some((1u16, 5u16))
            &&& w.retry_count == 0
            &&& w.first_packet_latency == Some(
                (since(now, v.started_at) / 1_000_000) as u64,
            )
            &&& 1 <= k <= 5 ==> w.parts[k - 1] == Some(data) && step is Idle
            &&& k > 5 && k <= total ==> step == StepView::Reply(asks_for(v, 1, 5))
        }),
{
    if 1 <= k <= 5 {
        let w = v.opened(s, total, now).stored(s, k, data, now);
        let other = if k == 1 {
            2int
        } else {
            1int
        };
        assert(w.parts[other - 1] is None);
        assert(!range_received(w.parts, 1, 5));
        assert(!all_received(w.parts));
    }
}

/// A download whose range is not complete asks for the range again when it has
/// been quiet long enough, as long as it has done so fewer than eight times;
/// after that it ends. It sends nothing else, and waits at most eight seconds
/// until the next time.
pub proof fn quiet_range_is_asked_for_again(v: ReceiverView, s: Settings, now: u128)
    requires
        v.wf(),
        v.outcome is None,
        v.received > 0,
        lacks_some(v),
        now >= v.quiet_deadline,
        now <= u128::MAX - 8_000_000_000,
    ensures
        ({
            let (start, count) = v.range->0;
            let w = v.ticked(s, now);
            if v.retry_count < 8 {
                &&& v.tick_sends(s, now) == seq![asks_for(v, start as int, count as int)]
                &&& w.retry_count == v.retry_count + 1
                &&& w.outcome is None
                &&& w.range == v.range
                &&& w.parts == v.parts
                &&& w.backoff == if v.backoff < 4 {
                    (v.backoff + 1) as u32
                } else {
                    4
                }
                &&& w.quiet_deadline == now + quiet_wait(s, v.gap_est, w.backoff)
                &&& now < w.quiet_deadline <= now + 8_000_000_000
                &&& w.deadline <= w.quiet_deadline
            } else {
                &&& v.tick_sends(s, now).len() == 0
                &&& w.outcome is Some && w.outcome->0 is Err
                &&& !w.unresponsive || v.unresponsive
            }
        }),
{
    let (start, count) = v.range->0;
    let k = choose|k: int| start <= k < start + count && (#[trigger] v.parts[k - 1]) is None;
    assert(!range_received(v.parts, start as int, count as int));
    waits_are_bounded(s, 1, v.gap_est, 0);
    waits_are_bounded(s, 1, v.gap_est, 1);
    waits_are_bounded(s, 1, v.gap_est, 2);
    waits_are_bounded(s, 1, v.gap_est, 3);
    waits_are_bounded(s, 1, v.gap_est, 4);
    if v.retry_count < 8 {
        assert(v.tick_sends(s, now) =~= seq![asks_for(v, start as int, count as int)]);
    }
}

/// Before it has been quiet long enough a download that has packets sends
/// nothing and stays as it is.
pub proof fn busy_download_is_left_alone(v: ReceiverView, s: Settings, now: u128)
    requires
        v.wf(),
        v.received > 0,
        now < v.quiet_deadline,
    ensures
        v.ticked(s, now) == v,
        v.tick_sends(s, now).len() == 0,
{
}

/// A packet that was missing starts the quiet time anew, without backoff: it is
/// at least what the settings say, at least three times the usual gap and 50 ms
/// more, and at most eight seconds.
pub proof fn packets_start_the_quiet_time_anew(
    v: ReceiverView,
    s: Settings,
    k: u16,
    total: u16,
    data: Seq<u8>,
    now: u128,
)
    requires
        v.wf(),
        v.outcome is None,
        v.range matches Some((start, count)) && start <= k < start + count,
        v.parts[k - 1] is None,
        now <= u128::MAX - 8_000_000_000,
        v.last_arrival matches Some(t) ==> t <= now,
    ensures
        ({
            let w = v.content(s, k, total, data, now).0;
            let wait = w.quiet_deadline - now;
            &&& w.parts == v.parts.update(k - 1, Some(data))
            &&& w.received == v.received + 1
            &&& w.backoff == 0
            &&& w.last_arrival == Some(now)
            &&& w.gap_est == match v.last_arrival {
                Some(t) => ((3 * v.gap_est + (now - t)) / 4) as u128,
                None => v.gap_est,
            }
            &&& wait <= 8_000_000_000
            &&& wait == 8_000_000_000 || wait >= s.quiet_ms * 1_000_000 && wait >= 3 * w.gap_est
                + 50_000_000
            &&& wait == 8_000_000_000 || wait == s.quiet_ms * 1_000_000 || wait == 3 * w.gap_est
                + 50_000_000
        }),
{
    let w = v.content(s, k, total, data, now).0;
    waits_are_bounded(s, 1, w.gap_est, 0);
    received_counts(v.parts);
    assert(quiet_wait(s, w.gap_est, 0) == w.quiet_deadline - now);
}

/// Each quiet period without a packet is twice as long as the one before, up to
/// sixteen times the first, and never longer than eight seconds.
pub proof fn quiet_periods_double(s: Settings, gap: u128, n: u32)
    requires
        n < 4,
    ensures
        ({
            let longer = quiet_wait(s, gap, (n + 1) as u32);
            let twice = 2 * quiet_wait(s, gap, n);
            longer == if twice <= 8_000_000_000 {
                twice
            } else {
                8_000_000_000
            }
        }),
        quiet_wait(s, gap, (n + 4) as u32) == quiet_wait(s, gap, 4),
{
}

/// Something that happens to a download.
pub enum Happening {
    /// A packet comes: its number, how many there are, its bytes, and when.
    Packet(u16, u16, Seq<u8>, u128),
    /// Time passes.
    Tick(u128),
}

/// A download after one thing has happened.
pub open spec fn after_one(v: ReceiverView, s: Settings, h: Happening) -> ReceiverView {
    match h {
        Happening::Packet(k, total, data, now) => v.content(s, k, total, data, now).0,
        Happening::Tick(now) => v.ticked(s, now),
    }
}

/// A download after several things have happened.
pub open spec fn after_all(v: ReceiverView, s: Settings, hs: Seq<Happening>) -> ReceiverView
    decreases hs.len(),
{
    if hs.len() == 0 {
        v
    } else {
        after_one(after_all(v, s, hs.drop_last()), s, hs.last())
    }
}

/// How many times a download has asked again for its current range, as it
/// stands after several things have happened, since the range became current.
pub open spec fn asked_again(v: ReceiverView, s: Settings, hs: Seq<Happening>) -> nat
    decreases hs.len(),
{
    if hs.len() == 0 {
        0
    } else {
        let w = after_all(v, s, hs.drop_last());
        let x = after_all(v, s, hs);
        if x.range != w.range {
            0
        } else {
            asked_again(v, s, hs.drop_last()) + match hs.last() {
                Happening::Tick(now) => if w.range matches Some((start, count)) && w.tick_sends(
                    s,
                    now,
                ).contains(asks_for(w, start as int, count as int)) {
                    1nat
                } else {
                    0nat
                },
                _ => 0nat,
            }
        }
    }
}

/// Whatever happens to a download, it counts how often it has asked again for
/// its current range and nothing else, and it ends for want of packets only
/// after it has asked for one and the same range eight times more.
pub proof fn each_range_is_retried_eight_times(v: ReceiverView, s: Settings, hs: Seq<Happening>)
    requires
        v.wf(),
        v.outcome is None,
        v.retry_count == 0,
        !v.unresponsive,
    ensures
        ({
            let w = after_all(v, s, hs);
            &&& w.wf()
            &&& w.outcome is None ==> w.retry_count == asked_again(v, s, hs)
            &&& w.outcome is None && w.range is None ==> w.retry_count == 0
            &&& w.outcome is Some && !w.unresponsive ==> asked_again(v, s, hs) == 8
        }),
    decreases hs.len(),
{
    if hs.len() > 0 {
        each_range_is_retried_eight_times(v, s, hs.drop_last());
        let w = after_all(v, s, hs.drop_last());
        let x = after_all(v, s, hs);
        match hs.last() {
            Happening::Packet(k, total, data, now) => {
                content_keeps_order(w, s, k, total, data, now);
            },
            Happening::Tick(now) => {
                w.tick_keeps_order(s, now);
                if let Some((start, count)) = w.range {
                    let m = asks_for(w, start as int, count as int);
                    let sent = w.tick_sends(s, now);
                    if w.outcome is None {
                        let again = w.resent(s, now).waited(s, now).1;
                        if again is Some {
                            assert(sent[sent.len() - 1] == m);
                        } else if sent.contains(m) {
                            let i = choose|i: int| 0 <= i < sent.len() && sent[i] == m;
                            assert(sent[i] == w.request());
                        }
                    }
                }
            },
        }
    }
}

proof fn content_keeps_order(
    v: ReceiverView,
    s: Settings,
    k: u16,
    total: u16,
    data: Seq<u8>,
    now: u128,
)
    requires
        v.wf(),
    ensures
        v.content(s, k, total, data, now).0.wf(),
{
    if v.outcome is None {
        let u = if v.total is None {
            v.opened(s, total, now)
        } else {
            v
        };
        none_received(total as nat);
        received_counts(u.parts);
        let (start, count) = u.range->0;
        assert(u.wf());
        if start <= k < start + count && u.parts[k - 1] is None {
            let w = u.stored(s, k, data, now);
            received_grows(u.parts, k - 1, data);
            received_counts(w.parts);
            assert forall|j: int| 1 <= j < start implies (#[trigger] w.parts[j - 1]) is Some by {
                assert(u.parts[j - 1] is Some);
            }
            assert(w.wf());
            if !all_received(w.parts) && range_received(w.parts, start as int, count as int) {
                let x = w.advanced(s, now);
                assert forall|j: int| 1 <= j < start + count implies (
                #[trigger] w.parts[j - 1]) is Some by {}
                if start + count > w.parts.len() {
                    assert(all_received(w.parts));
                }
                assert(x.wf());
            }
        }
    }
}

// ---------------------------------------------------------------------------
// The sender

/// The message with packet `k` of a file: its 1400 bytes, or what is left.
pub open spec fn brings(v: SenderView, k: int) -> MessageView {
    MessageView::SegmentContents {
        transfer_id: v.transfer_id,
        packet_number: k as u16,
        total_packets: v.total_packets,
        data: v.file.subrange(
            1400 * (k - 1),
            if 1400 * k <= v.file.len() {
                1400 * k
            } else {
                v.file.len() as int
            },
        ),
    }
}

/// A download that nothing has come of by half the time for the first packet asks
/// for its file once more, and from then on waits for that time again.
pub proof fn repeated_request_is_waited_for(v: ReceiverView, s: Settings, now: u128)
    requires
        v.outcome is None,
        v.received == 0,
        !v.request_resent,
        now < v.quiet_deadline,
        v.started_at + s.first_timeout_ms * 500_000 <= now,
        0 < s.first_timeout_ms,
        now + s.first_timeout_ms * 1_000_000 <= u128::MAX,
    ensures
        ({
            let w = v.ticked(s, now);
            &&& v.tick_sends(s, now) == seq![v.request()]
            &&& w.request_resent
            &&& w.outcome is None
            &&& w.first_response_deadline == now + s.first_timeout_ms * 1_000_000
        }),
{
    assert(v.tick_sends(s, now) =~= seq![v.request()]);
}

/// A transfer that begins sends the first five packets, or as many as there
/// are, at once, and takes the round trip for a quarter of a second.
pub proof fn transfers_begin_with_five_packets(v: SenderView, s: Settings, now: u128)
    requires
        v == SenderView::started(v.transfer_id, v.remote, v.file, now),
    ensures
        ({
            let n = if v.total_packets < 5 {
                v.total_packets as nat
            } else {
                5nat
            };
            &&& v.total_packets >= 1
            &&& v.range == (1u16, n as u16)
            &&& v.retry_count == 0
            &&& v.rtt_est == 250_000_000
            &&& v.tick_sends(s, now).1 == Seq::new(n, |i: int| brings(v, i + 1))
        }),
{
    let n = if v.total_packets < 5 {
        v.total_packets as nat
    } else {
        5nat
    };
    assert(v.tick_sends(s, now).1 =~= Seq::new(n, |i: int| brings(v, i + 1)));
}

/// A transfer whose window is not out sends the packets of it that come next,
/// in order and at most eight at once, and waits for the pace of what it sent
/// before it goes on; with the last of them the wait for an ACK begins.
pub proof fn window_goes_out_in_order(v: SenderView, s: Settings, now: u128)
    requires
        v.wf(),
        v.range_sent < v.range.1,
        now >= v.send_deadline,
        now <= u128::MAX - 0x1_0000_0000_0000_0000_0000_0000,
    ensures
        ({
            let (w, sent) = v.tick_sends(s, now);
            let left = v.range.1 - v.range_sent;
            let n = if left <= 8 {
                left
            } else {
                8
            };
            &&& sent == Seq::new(n as nat, |i: int| brings(v, v.range.0 + v.range_sent + i))
            &&& w.range_sent == v.range_sent + n
            &&& w.range == v.range
            &&& w.retry_count == v.retry_count
            &&& w.send_deadline == now + n * (s.pace_ms * 1_000_000)
            &&& left <= 8 ==> {
                &&& w.window_sent_at == Some(now)
                &&& w.ack_deadline matches Some(t) && now + 300_000_000 <= t <= now + 8_000_000_000
            }
            &&& left > 8 ==> w.ack_deadline == v.ack_deadline
        }),
{
    let (w, sent) = v.tick_sends(s, now);
    let left = v.range.1 - v.range_sent;
    let n = if left <= 8 {
        left
    } else {
        8
    };
    waits_are_bounded(s, v.range.1, v.rtt_est, v.retry_count);
    assert(sent =~= Seq::new(n as nat, |i: int| brings(v, v.range.0 + v.range_sent + i)));
    assert(0 <= n * (s.pace_ms * 1_000_000) <= 8 * (u64::MAX * 1_000_000)) by (nonlinear_arith)
        requires
            0 <= n <= 8,
            0 <= s.pace_ms <= u64::MAX,
    ;
    assert(n * (s.pace_ms * 1_000_000) == s.pace_ms * 1_000_000 * n) by (nonlinear_arith);
}

/// A transfer sends nothing before its next packets are due, and nothing once
/// its window is out.
pub proof fn nothing_goes_out_early(v: SenderView, s: Settings, now: u128)
    requires
        v.range_sent >= v.range.1 || now < v.send_deadline,
    ensures
        v.tick_sends(s, now) == (v, Seq::<MessageView>::empty()),
{
}

/// A window that is out and not acknowledged in time is sent once more, all of
/// it and at once; one more retry is counted.
pub proof fn unacknowledged_window_is_sent_again(v: SenderView, now: u128)
    requires
        v.wf(),
        v.retry_count < 30,
    ensures
        ({
            let w = v.resending(now);
            &&& w.range == v.range
            &&& w.range_sent == 0
            &&& w.retry_count == v.retry_count + 1
            &&& w.send_deadline == now
            &&& w.ack_deadline is None
            &&& w.file == v.file
            &&& w.wf()
        }),
        v.ack_overdue(now) <==> v.range_sent >= v.range.1 && v.ack_deadline is Some && now
            >= v.ack_deadline->0,
{
}

/// An ACK that names a range of the file is followed: exactly that range, as far
/// as the file has packets, goes out from its start, at once, and with all
/// retries. The round trip of the window that it acknowledges is measured.
pub proof fn acknowledged_range_is_followed(
    v: SenderView,
    s: Settings,
    start: u16,
    count: u16,
    now: u128,
)
    requires
        v.wf(),
        1 <= start <= v.total_packets,
        v.window_sent_at matches Some(t) ==> t <= now,
    ensures
        ({
            let w = v.acked(s, start, count, now);
            let left = v.total_packets - start + 1;
            &&& w.range == (
                start,
                if count <= left {
                    count
                } else {
                    left as u16
                },
            )
            &&& w.range_sent == 0
            &&& w.retry_count == 0
            &&& w.send_deadline == now
            &&& w.ack_deadline is None
            &&& w.window_sent_at is None
            &&& w.rtt_est == match v.window_sent_at {
                Some(t) => ((3 * v.rtt_est + (now - t)) / 4) as u128,
                None => v.rtt_est,
            }
            &&& w.file == v.file
            &&& w.wf()
        }),
{
}

/// An ACK that names nothing of the file leaves nothing to send; the transfer
/// waits for the final word.
pub proof fn foreign_range_sends_nothing(
    v: SenderView,
    s: Settings,
    start: u16,
    count: u16,
    now: u128,
    then: u128,
)
    requires
        v.wf(),
        start == 0 || start > v.total_packets,
    ensures
        v.acked(s, start, count, now).tick_sends(s, then).1.len() == 0,
        v.acked(s, start, count, now).ack_deadline is Some,
{
}

/// What a tick of a transfer gives: packets go out as they are due; once a
/// window that is out has not been acknowledged in time the transfer sends it
/// again, thirty times, and then gives up.
pub open spec fn gives_up(v: SenderView, now: u128) -> bool {
    &&& v.range_sent >= v.range.1
    &&& v.ack_deadline matches Some(t) && now >= t
    &&& v.retry_count == 30
}

/// The wait for an ACK is long enough for the window to go out at its pace and
/// for the receiver to be quiet, with 100 ms to spare, and for twice the
/// measured round trip with 150 ms to spare; it doubles with each retry up to
/// sixteen times, and never exceeds eight seconds.
pub proof fn ack_wait_covers_the_round_trip(s: Settings, count: u16, rtt: u128, retries: u32)
    ensures
        ({
            let wait = retry_wait(s, count, rtt, 0);
            &&& wait == 8_000_000_000 || wait >= (count * s.pace_ms + s.quiet_ms + 100) * 1_000_000
            &&& wait == 8_000_000_000 || wait >= 2 * rtt + 150_000_000
            &&& wait == 8_000_000_000 || wait == 300_000_000 || wait == (count * s.pace_ms
                + s.quiet_ms + 100) * 1_000_000 || wait == 2 * rtt + 150_000_000
        }),
        retries < 4 ==> retry_wait(s, count, rtt, (retries + 1) as u32) == if 2 * retry_wait(
            s,
            count,
            rtt,
            retries,
        ) <= 8_000_000_000 {
            2 * retry_wait(s, count, rtt, retries)
        } else {
            8_000_000_000
        },
        retries >= 4 ==> retry_wait(s, count, rtt, retries) == retry_wait(s, count, rtt, 4),
{
}

/// A download that ends, either way, is kept for four seconds.
pub proof fn ended_downloads_are_kept_four_seconds(v: ReceiverView, reason: Seq<char>, now: u128)
    requires
        now <= u128::MAX - 4_000_000_000,
    ensures
        v.saved(now).deadline == now + 4_000_000_000,
        v.saved(now).outcome == Some(Ok::<(), Seq<char>>(())),
        v.failed(reason, now).deadline == now + 4_000_000_000,
        v.failed(reason, now).outcome == Some(Err::<(), Seq<char>>(reason)),
        v.failed(reason, now).parts == v.parts,
        v.failed(reason, now).unresponsive == v.unresponsive,
        v.failed(reason, now).not_found == v.not_found,
{
}

/// A file has one packet for every 1400 bytes begun, and one if it is empty.
pub proof fn packets_cover_the_file(size: int)
    requires
        0 <= size <= 0xffff * 1400,
    ensures
        size == 0 ==> packets_for(size) == 1,
        size > 0 ==> 1400 * (packets_for(size) - 1) < size <= 1400 * packets_for(size),
{
}

} // verus!
